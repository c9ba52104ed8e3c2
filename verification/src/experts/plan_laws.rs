//! What holds of every plan that is drawn.

use vstd::prelude::*;

use crate::experts::plan::{
    aliases, countable, drawn, fewest, head_of, measured, most_drawn, pass_seats, placed, seat_bytes,
    seated_groups, sized, slot, widest, BandPlan, Measures, Policy, RegionView,
};
use crate::experts::shape::{bands_divide_and_belong, position};
use crate::experts::sizing::{lemma_most_at_least, lemma_order_short, lemma_slot};
use crate::experts::trace::{all_found, GroupView};
use crate::trace::Trace;
use crate::weights::Weights;

verus! {

/// A plan that streams seats at once every expert a segment may need: a
/// whole layer's, or, in passes, a row's. Where it is asked for by number it
/// has just that many seats, and otherwise no more than there are
/// `(layer, expert)` pairs, unless the segment's need is greater. Every band
/// and every group has the whole of it.
pub proof fn a_pool_seats_a_whole_layer(
    trace: Trace,
    planes: Map<usize, Vec<usize>>,
    weights: Weights,
    policy: Policy,
    prefill: Option<u32>,
    passes: Option<bool>,
    held: Set<usize>,
    free: Option<u64>,
)
    requires
        trace.wf(),
        trace.nodes@.len() <= usize::MAX,
        weights.align > 0,
        weights.bytes@.len() == trace.params@.len(),
        countable(trace, planes, weights, policy, prefill, passes, held, free),
        drawn(trace, planes, weights, policy, prefill, passes, held, free) is Ok,
        (drawn(trace, planes, weights, policy, prefill, passes, held, free)->Ok_0).bands.len() > 0,
    ensures
        ({
            let plan = drawn(trace, planes, weights, policy, prefill, passes, held, free)->Ok_0;
            let need = match passes {
                None => plan.groups[0].experts,
                Some(half) => fewest(
                    widest(trace, plan.groups, plan.groups.len()),
                    half,
                ),
            };
            &&& plan.slots >= need
            &&& match policy {
                Policy::Slots(n) => plan.slots == n,
                _ => plan.slots <= plan.pairs || plan.slots == need,
            }
            &&& forall|b: int|
                0 <= b < plan.bands.len() ==> (#[trigger] plan.bands[b]).slots == plan.slots
            &&& forall|g: int|
                0 <= g < plan.groups.len() ==> (#[trigger] plan.groups[g]).slots == plan.slots
        }),
{
    let f = all_found(trace, planes, weights.bytes@);
    let m = measured(trace, weights, prefill, passes, held, f);
    let plan = drawn(trace, planes, weights, policy, prefill, passes, held, free)->Ok_0;
    let align = weights.align as int;
    lemma_order_short(trace, trace.nodes@.len());
    bands_divide_and_belong(trace, planes, weights.bytes@);
    lemma_fits(m, align, policy, free);
    lemma_widest_seated(trace, f.groups, plan.slots, f.groups.len());
    assert(plan.groups =~= seated_groups(f.groups, plan.slots));
}

/// A fan-out does not hang on how many seats there are.
pub proof fn lemma_widest_seated(trace: Trace, groups: Seq<GroupView>, slots: u32, k: nat)
    requires
        k <= groups.len(),
    ensures
        widest(trace, seated_groups(groups, slots), k) == widest(trace, groups, k),
    decreases k,
{
    if k > 0 {
        lemma_widest_seated(trace, groups, slots, (k - 1) as nat);
    }
}

/// The fewest seats of which one pass takes a row's experts are just that:
/// so many are enough, where twice that many seats can be counted, and one
/// fewer are not.
pub proof fn fewest_seats_are_enough(fan: u32, half: bool)
    requires
        fan > 0,
        half ==> 2 * fan <= u32::MAX,
    ensures
        pass_seats(fewest(fan, half) as int, half) >= fan,
        forall|n: int|
            0 < n < fewest(fan, half) ==> #[trigger] pass_seats(n, half) < fan,
{
}

/// The seats a policy gives seat a layer, are as many as it asks for or
/// below the ceiling, and fit.
pub proof fn lemma_fits(m: Measures, align: int, policy: Policy, free: Option<u64>)
    requires
        align > 0,
        m.need <= m.ceiling,
        m.ring >= 0,
        most_drawn(m, policy, free) matches Some(n) ==> n <= u32::MAX,
    ensures
        policy != Policy::Off ==> (sized(m, 0, align, policy, free) matches Ok((slots, _))
            ==> m.need <= slots && (policy is Slots || slots <= m.ceiling)),
        policy matches Policy::Budget(budget) ==> (sized(m, 0, align, policy, free) matches Ok(
            (slots, _),
        ) ==> {
            &&& slots + m.ring > 0 ==> m.dense + seat_bytes(m.regions, align, slots + m.ring)
                <= budget
            &&& slots < m.ceiling ==> m.dense + seat_bytes(m.regions, align, slots + m.ring + 1)
                > budget
        }),
        policy matches Policy::Auto { headroom } ==> (sized(m, 0, align, policy, free) matches Ok(
            (slots, _),
        ) ==> {
            let room = free->0 - headroom;
            let taken = seat_bytes(m.regions, align, slots + m.ring);
            &&& free is Some
            &&& m.dense >= 0 && slots + m.ring > 0 && taken > 0 ==> m.dense + taken <= room
            &&& m.dense >= 0 && slots < m.ceiling ==> m.dense + seat_bytes(
                m.regions,
                align,
                slots + m.ring + 1,
            ) > room
        }),
{
    match policy {
        Policy::Budget(budget) => {
            if sized(m, 0, align, policy, free) is Ok {
                lemma_most_at_least(
                    m.regions,
                    align,
                    budget - m.dense,
                    m.need + m.ring,
                    (m.ceiling + m.ring) as nat,
                );
            }
        },
        Policy::Auto { headroom } => {
            if sized(m, 0, align, policy, free) is Ok {
                let free = free->0;
                let left = if free < headroom { 0 } else { free - headroom };
                let usable = if left < m.dense { 0 } else { left - m.dense };
                lemma_most_at_least(
                    m.regions,
                    align,
                    usable,
                    m.need + m.ring,
                    (m.ceiling + m.ring) as nat,
                );
            }
        },
        _ => {},
    }
}

/// Under a budget the dense planes and the seats fit it, and one more seat
/// would not, unless the pool already has one for every pair.
pub proof fn a_budget_is_kept_and_used(
    trace: Trace,
    planes: Map<usize, Vec<usize>>,
    weights: Weights,
    budget: u64,
    prefill: Option<u32>,
    passes: Option<bool>,
    held: Set<usize>,
)
    requires
        trace.wf(),
        trace.nodes@.len() <= usize::MAX,
        weights.align > 0,
        weights.bytes@.len() == trace.params@.len(),
        countable(trace, planes, weights, Policy::Budget(budget), prefill, passes, held, None),
        drawn(trace, planes, weights, Policy::Budget(budget), prefill, passes, held, None) is Ok,
        (drawn(trace, planes, weights, Policy::Budget(budget), prefill, passes, held, None)->Ok_0).bands.len()
            > 0,
    ensures
        ({
            let plan = drawn(
                trace,
                planes,
                weights,
                Policy::Budget(budget),
                prefill,
                passes,
                held,
                None,
            )->Ok_0;
            let m = measured(
                trace,
                weights,
                prefill,
                passes,
                held,
                all_found(trace, planes, weights.bytes@),
            );
            let align = weights.align as int;
            &&& m.dense + seat_bytes(plan.regions, align, plan.slots + plan.ring) <= budget
            &&& plan.slots < m.ceiling ==> m.dense + seat_bytes(
                plan.regions,
                align,
                plan.slots + plan.ring + 1,
            ) > budget
        }),
{
    let f = all_found(trace, planes, weights.bytes@);
    let m = measured(trace, weights, prefill, passes, held, f);
    let policy = Policy::Budget(budget);
    lemma_order_short(trace, trace.nodes@.len());
    bands_divide_and_belong(trace, planes, weights.bytes@);
    lemma_fits(m, weights.align as int, policy, None);
}

/// No two regions at one position and stride.
pub open spec fn keyed(regions: Seq<RegionView>) -> bool {
    forall|r: int, q: int|
        0 <= r < q < regions.len() ==> (#[trigger] regions[r]).position != (
        #[trigger] regions[q]).position || regions[r].stride != regions[q].stride
}

/// Every one of the first `k` bands in the region at its own position and
/// stride, placed no higher than it.
pub open spec fn covered(regions: Seq<RegionView>, bands: Seq<BandPlan>, k: nat) -> bool {
    forall|b: int| 0 <= b < k ==> #[trigger] covers(regions, bands, b)
}

pub open spec fn covers(regions: Seq<RegionView>, bands: Seq<BandPlan>, b: int) -> bool {
    let at = slot(regions, position(bands, b), bands[b].stride, regions.len());
    &&& at is Some
    &&& regions[at->0 as int].head <= bands[b].param
}

/// Band `b` is of this region, and is what it is placed under.
pub open spec fn heads(region: RegionView, bands: Seq<BandPlan>, b: int) -> bool {
    &&& bands[b].param == region.head
    &&& position(bands, b) == region.position
    &&& bands[b].stride == region.stride
}

/// Every region is placed under one of the first `k` bands, of its own.
pub open spec fn headed(regions: Seq<RegionView>, bands: Seq<BandPlan>, k: nat) -> bool {
    forall|r: int| 0 <= r < regions.len() ==> has_head(#[trigger] regions[r], bands, k)
}

pub open spec fn has_head(region: RegionView, bands: Seq<BandPlan>, k: nat) -> bool {
    exists|b: int| 0 <= b < k && #[trigger] heads(region, bands, b)
}

/// A slot is the one region at its key, where keys do not repeat.
proof fn lemma_slot_is(regions: Seq<RegionView>, position: nat, stride: u64, r: int)
    requires
        0 <= r < regions.len(),
        regions[r].position == position,
        regions[r].stride == stride,
        keyed(regions),
    ensures
        slot(regions, position, stride, regions.len()) == Some(r as nat),
{
    lemma_slot(regions, position, stride, regions.len());
}

proof fn lemma_keyed_step(r: Seq<RegionView>, bands: Seq<BandPlan>, k: nat)
    requires
        0 < k <= bands.len(),
        r == placed(bands, (k - 1) as nat),
        keyed(r),
    ensures
        keyed(placed(bands, k)),
{
    let m = placed(bands, k);
    lemma_slot(r, position(bands, k - 1), bands[k - 1].stride, r.len());
    assert forall|i: int, j: int| 0 <= i < j < m.len() implies (#[trigger] m[i]).position != (
    #[trigger] m[j]).position || m[i].stride != m[j].stride by {
        if j < r.len() {
            assert(r[i].position != r[j].position || r[i].stride != r[j].stride);
        }
    }
}

/// A band that was in a region stays in it as another joins.
proof fn lemma_covers_still(r: Seq<RegionView>, bands: Seq<BandPlan>, k: nat, c: int)
    requires
        0 < k <= bands.len(),
        r == placed(bands, (k - 1) as nat),
        keyed(placed(bands, k)),
        0 <= c < k - 1,
        covers(r, bands, c),
    ensures
        covers(placed(bands, k), bands, c),
{
    let m = placed(bands, k);
    let at = position(bands, c);
    let i = slot(r, at, bands[c].stride, r.len())->0 as int;
    lemma_slot(r, at, bands[c].stride, r.len());
    lemma_slot(r, position(bands, k - 1), bands[k - 1].stride, r.len());
    assert(m[i].position == r[i].position && m[i].stride == r[i].stride && m[i].head <= r[i].head);
    lemma_slot_is(m, at, bands[c].stride, i);
}

/// The band that joins is in a region of its own position and stride.
proof fn lemma_covers_new(r: Seq<RegionView>, bands: Seq<BandPlan>, k: nat)
    requires
        0 < k <= bands.len(),
        r == placed(bands, (k - 1) as nat),
        keyed(placed(bands, k)),
    ensures
        covers(placed(bands, k), bands, k - 1),
{
    let m = placed(bands, k);
    let at = position(bands, k - 1);
    let stride = bands[k - 1].stride;
    lemma_slot(r, at, stride, r.len());
    match slot(r, at, stride, r.len()) {
        Some(i) => {
            lemma_slot_is(m, at, stride, i as int);
        },
        None => {
            lemma_slot_is(m, at, stride, r.len() as int);
        },
    }
}

proof fn lemma_covered_step(r: Seq<RegionView>, bands: Seq<BandPlan>, k: nat)
    requires
        0 < k <= bands.len(),
        r == placed(bands, (k - 1) as nat),
        keyed(placed(bands, k)),
        covered(r, bands, (k - 1) as nat),
    ensures
        covered(placed(bands, k), bands, k),
{
    assert forall|c: int| 0 <= c < k implies #[trigger] covers(placed(bands, k), bands, c) by {
        if c < k - 1 {
            assert(covers(r, bands, c));
            lemma_covers_still(r, bands, k, c);
        } else {
            lemma_covers_new(r, bands, k);
        }
    }
}

proof fn lemma_headed_step(r: Seq<RegionView>, bands: Seq<BandPlan>, k: nat)
    requires
        0 < k <= bands.len(),
        r == placed(bands, (k - 1) as nat),
        headed(r, bands, (k - 1) as nat),
    ensures
        headed(placed(bands, k), bands, k),
{
    let m = placed(bands, k);
    let b = k - 1;
    lemma_slot(r, position(bands, b), bands[b].stride, r.len());
    assert forall|i: int| 0 <= i < m.len() implies has_head(#[trigger] m[i], bands, k) by {
        if i < r.len() && m[i].head == r[i].head {
            assert(has_head(r[i], bands, (k - 1) as nat));
            let c = choose|c: int| 0 <= c < k - 1 && #[trigger] heads(r[i], bands, c);
            assert(heads(r[i], bands, c));
            assert(heads(m[i], bands, c));
        } else {
            assert(heads(m[i], bands, b));
        }
    }
}

/// Bands of one position and stride alias one slab, and every slab is placed
/// under the lowest of their params.
pub proof fn regions_tile_the_bands(bands: Seq<BandPlan>, k: nat)
    requires
        k <= bands.len(),
    ensures
        keyed(placed(bands, k)),
        covered(placed(bands, k), bands, k),
        headed(placed(bands, k), bands, k),
    decreases k,
{
    if k > 0 {
        regions_tile_the_bands(bands, (k - 1) as nat);
        let r = placed(bands, (k - 1) as nat);
        lemma_keyed_step(r, bands, k);
        lemma_covered_step(r, bands, k);
        lemma_headed_step(r, bands, k);
    }
}

/// A param aliases a lower one, which aliases none: the head of a region is
/// placed before any band that aliases it.
pub proof fn an_alias_is_placed_first(bands: Seq<BandPlan>, param: usize)
    requires
        forall|b: int, c: int|
            0 <= b < c < bands.len() ==> (#[trigger] bands[b]).param != (#[trigger] bands[c]).param,
        aliases(placed(bands, bands.len()), bands, bands.len()).contains_key(param),
    ensures
        ({
            let a = aliases(placed(bands, bands.len()), bands, bands.len());
            a[param] < param && !a.contains_key(a[param])
        }),
{
    let n = bands.len();
    let regions = placed(bands, n);
    regions_tile_the_bands(bands, n);
    lemma_alias_of(regions, bands, n, param);
    let a = aliases(regions, bands, n);
    let b = choose|b: int|
        0 <= b < n && (#[trigger] bands[b]).param == param && head_of(regions, bands, b) != param
            && a[param] == head_of(regions, bands, b);
    assert(covers(regions, bands, b));
    let at = slot(regions, position(bands, b), bands[b].stride, regions.len())->0 as int;
    lemma_slot(regions, position(bands, b), bands[b].stride, regions.len());
    let head = regions[at].head;
    let region = regions[at];
    assert(has_head(region, bands, n));
    let c = choose|c: int| 0 <= c < n && #[trigger] heads(region, bands, c);
    assert(heads(region, bands, c));
    lemma_slot_is(regions, position(bands, c), bands[c].stride, at);
    assert(head_of(regions, bands, c) == head);
    if a.contains_key(head) {
        lemma_alias_of(regions, bands, n, head);
        let d = choose|d: int|
            0 <= d < n && (#[trigger] bands[d]).param == head && head_of(regions, bands, d) != head
                && a[head] == head_of(regions, bands, d);
        if d != c {
            if d < c {
                assert(bands[d].param != bands[c].param);
            } else {
                assert(bands[c].param != bands[d].param);
            }
        }
    }
}

/// What an alias is of: a band that is not its region's head.
proof fn lemma_alias_of(regions: Seq<RegionView>, bands: Seq<BandPlan>, k: nat, param: usize)
    requires
        k <= bands.len(),
        forall|b: int, c: int|
            0 <= b < c < bands.len() ==> (#[trigger] bands[b]).param != (#[trigger] bands[c]).param,
        aliases(regions, bands, k).contains_key(param),
    ensures
        exists|b: int|
            0 <= b < k && (#[trigger] bands[b]).param == param && head_of(regions, bands, b)
                != param && aliases(regions, bands, k)[param] == head_of(regions, bands, b),
    decreases k,
{
    if k > 0 {
        let b = k - 1;
        if bands[b].param == param && head_of(regions, bands, b) != param {
            assert(aliases(regions, bands, k)[param] == head_of(regions, bands, b));
        } else {
            assert(aliases(regions, bands, (k - 1) as nat).contains_key(param));
            lemma_alias_of(regions, bands, (k - 1) as nat, param);
            let c = choose|c: int|
                0 <= c < k - 1 && (#[trigger] bands[c]).param == param && head_of(regions, bands, c)
                    != param && aliases(regions, bands, (k - 1) as nat)[param] == head_of(
                    regions,
                    bands,
                    c,
                );
            assert(bands[c].param != bands[b].param);
        }
    }
}

/// Two bands that may share a slab: at one place in their groups, and of one
/// stride.
pub open spec fn kin(bands: Seq<BandPlan>, b: int, c: int) -> bool {
    position(bands, b) == position(bands, c) && bands[b].stride == bands[c].stride
}

/// Bands that may share a slab do: each is placed under the lowest plane of
/// them, which aliases none.
pub proof fn bands_alias_the_lowest_of_their_kin(bands: Seq<BandPlan>, b: int)
    requires
        forall|b: int, c: int|
            0 <= b < c < bands.len() ==> (#[trigger] bands[b]).param != (#[trigger] bands[c]).param,
        0 <= b < bands.len(),
    ensures
        ({
            let a = aliases(placed(bands, bands.len()), bands, bands.len());
            let param = bands[b].param;
            let head = if a.contains_key(param) {
                a[param]
            } else {
                param
            };
            &&& forall|c: int| 0 <= c < bands.len() && #[trigger] kin(bands, b, c) ==> head <= bands[c].param
            &&& exists|c: int|
                0 <= c < bands.len() && #[trigger] kin(bands, b, c) && bands[c].param == head
        }),
{
    let n = bands.len();
    let regions = placed(bands, n);
    regions_tile_the_bands(bands, n);
    lemma_alias_at(regions, bands, n, b);
    assert(covers(regions, bands, b));
    let at = slot(regions, position(bands, b), bands[b].stride, regions.len())->0 as int;
    lemma_slot(regions, position(bands, b), bands[b].stride, regions.len());
    let head = regions[at].head;
    assert(head_of(regions, bands, b) == head);
    assert(has_head(regions[at], bands, n));
    let c = choose|c: int| 0 <= c < n && #[trigger] heads(regions[at], bands, c);
    assert(kin(bands, b, c));
    assert forall|c: int| 0 <= c < bands.len() && #[trigger] kin(bands, b, c) implies head
        <= bands[c].param by {
        assert(covers(regions, bands, c));
    }
}

/// What a band's plane aliases, if any.
proof fn lemma_alias_at(regions: Seq<RegionView>, bands: Seq<BandPlan>, k: nat, b: int)
    requires
        0 <= b < k <= bands.len(),
        forall|b: int, c: int|
            0 <= b < c < bands.len() ==> (#[trigger] bands[b]).param != (#[trigger] bands[c]).param,
    ensures
        ({
            let a = aliases(regions, bands, k);
            let head = head_of(regions, bands, b);
            if head != bands[b].param {
                a.contains_key(bands[b].param) && a[bands[b].param] == head
            } else {
                !a.contains_key(bands[b].param)
            }
        }),
    decreases k,
{
    if b < k - 1 {
        lemma_alias_at(regions, bands, (k - 1) as nat, b);
        assert(bands[b].param != bands[k - 1].param);
    } else if aliases(regions, bands, (k - 1) as nat).contains_key(bands[b].param) {
        lemma_alias_of(regions, bands, (k - 1) as nat, bands[b].param);
        let c = choose|c: int|
            0 <= c < k - 1 && (#[trigger] bands[c]).param == bands[b].param && head_of(
                regions,
                bands,
                c,
            ) != bands[b].param && aliases(regions, bands, (k - 1) as nat)[bands[b].param] == head_of(
                regions,
                bands,
                c,
            );
        assert(bands[c].param != bands[b].param);
    }
}

/// A region lists the bands that lie in it, all of them and in order.
pub proof fn a_region_lists_its_bands(bands: Seq<BandPlan>, k: nat, r: int)
    requires
        k <= bands.len() <= usize::MAX,
        0 <= r < placed(bands, k).len(),
    ensures
        ({
            let region = placed(bands, k)[r];
            &&& forall|i: int|
                0 <= i < region.bands.len() ==> {
                    let b = #[trigger] region.bands[i] as int;
                    &&& b < k
                    &&& position(bands, b) == region.position
                    &&& bands[b].stride == region.stride
                }
            &&& forall|i: int, j: int|
                0 <= i < j < region.bands.len() ==> #[trigger] region.bands[i] < #[trigger] region.bands[j]
            &&& forall|b: int|
                0 <= b < k && #[trigger] position(bands, b) == region.position && bands[b].stride
                    == region.stride ==> region.bands.contains(b as usize)
        }),
    decreases k,
{
    if k > 0 {
        regions_tile_the_bands(bands, (k - 1) as nat);
        let before = placed(bands, (k - 1) as nat);
        let region = placed(bands, k)[r];
        let last = k - 1;
        lemma_slot(before, position(bands, last), bands[last].stride, before.len());
        if r < before.len() {
            a_region_lists_its_bands(bands, (k - 1) as nat, r);
            let was = before[r];
            assert(region.position == was.position && region.stride == was.stride);
            if slot(before, position(bands, last), bands[last].stride, before.len()) == Some(r as nat) {
                assert(region.bands == was.bands.push(last as usize));
                assert(region.bands[was.bands.len() as int] == last as usize);
            } else {
                assert(region.bands == was.bands);
                if position(bands, last) == region.position && bands[last].stride == region.stride {
                    lemma_slot_is(before, region.position, region.stride, r);
                }
            }
            assert forall|b: int|
                0 <= b < k && #[trigger] position(bands, b) == region.position && bands[b].stride
                    == region.stride implies region.bands.contains(b as usize) by {
                if b < last {
                    assert(was.bands.contains(b as usize));
                    assert(region.bands[was.bands.index_of(b as usize)] == b as usize);
                }
            }
        } else {
            assert(region.bands == seq![last as usize]);
            assert(region.bands[0] == last as usize);
            assert forall|b: int|
                0 <= b < k && #[trigger] position(bands, b) == region.position && bands[b].stride
                    == region.stride implies region.bands.contains(b as usize) by {
                if b < last {
                    assert(covers(before, bands, b));
                    lemma_slot(before, region.position, region.stride, before.len());
                }
            }
        }
    }
}

} // verus!
