//! What a plan takes of the device's memory and of the host's, and when a
//! pool is refused.

use vstd::prelude::*;

use crate::fault::{Fault, Refusal};
use crate::experts::plan::{
    countable, drawn, fewest, host_end, host_starts, measured, most_drawn, pairs_of, placed,
    reserved, seat_bytes, seated_bands, seated_groups, seats, streamed, strides_sum, widest,
    BandPlan, PlanView, Policy, RegionView, Word,
};
use crate::experts::plan_laws::{
    covers, has_head, heads, lemma_fits, lemma_widest_seated, regions_tile_the_bands,
};
use crate::experts::shape::{bands_divide_and_belong, position};
use crate::experts::sizing::{lemma_order_short, lemma_seats, lemma_slot, lemma_strides_mono};
use crate::experts::trace::{all_found, fan, GroupView};
use crate::trace::Trace;
use crate::weights::{align_up, lemma_align_up, lemma_laid_out_mono, Weights};

verus! {

/// The planes that take no room of their own on the device: those held
/// elsewhere, and those a plan streams.
pub open spec fn set_aside(held: Set<usize>, bands: Seq<BandPlan>) -> Set<usize> {
    Set::new(
        |p: usize|
            held.contains(p) || exists|b: int| 0 <= b < bands.len() && (#[trigger] bands[b]).param == p,
    )
}

/// The params of the first bands are those streamed.
proof fn lemma_streamed(bands: Seq<BandPlan>, k: nat, p: usize)
    requires
        k <= bands.len(),
    ensures
        streamed(bands, k).contains(p) <==> exists|b: int|
            0 <= b < k && (#[trigger] bands[b]).param == p,
    decreases k,
{
    if k > 0 {
        lemma_streamed(bands, (k - 1) as nat, p);
        if streamed(bands, k).contains(p) {
            if bands[k - 1].param != p {
                let b = choose|b: int| 0 <= b < k - 1 && (#[trigger] bands[b]).param == p;
                assert(0 <= b < k && bands[b].param == p);
            }
        }
    }
}

/// Leaving out the streamed and the held is leaving out what is set aside.
proof fn lemma_set_aside(held: Set<usize>, bands: Seq<BandPlan>, slots: u32)
    ensures
        streamed(bands, bands.len()).union(held) == set_aside(held, seated_bands(bands, slots)),
{
    let plain = seated_bands(bands, slots);
    assert forall|p: usize|
        streamed(bands, bands.len()).union(held).contains(p) == set_aside(held, plain).contains(p) by {
        lemma_streamed(bands, bands.len(), p);
        if exists|b: int| 0 <= b < bands.len() && (#[trigger] bands[b]).param == p {
            let b = choose|b: int| 0 <= b < bands.len() && (#[trigger] bands[b]).param == p;
            assert(plain[b].param == p);
        }
        if exists|b: int| 0 <= b < plain.len() && (#[trigger] plain[b]).param == p {
            let b = choose|b: int| 0 <= b < plain.len() && (#[trigger] plain[b]).param == p;
            assert(bands[b].param == p);
        }
    }
    assert(streamed(bands, bands.len()).union(held) =~= set_aside(held, plain));
}

/// Planes take no less than nothing.
proof fn lemma_dense(weights: Weights, left_out: Set<usize>)
    requires
        weights.align > 0,
    ensures
        weights.sum(left_out) >= 0,
{
    let n = weights.bytes@.len();
    lemma_laid_out_mono(weights.bytes@, weights.align as int, left_out, n, n);
}

/// A seat in every region of bands that have bytes takes bytes.
proof fn lemma_seats_take(bands: Seq<BandPlan>, align: int, n: int)
    requires
        align > 0,
        n > 0,
        bands.len() > 0,
        forall|b: int| 0 <= b < bands.len() ==> (#[trigger] bands[b]).stride > 0,
    ensures
        seat_bytes(placed(bands, bands.len()), align, n) > 0,
{
    let regions = placed(bands, bands.len());
    regions_tile_the_bands(bands, bands.len());
    assert(covers(regions, bands, 0));
    lemma_slot(
        regions,
        position(bands, 0),
        bands[0].stride,
        regions.len(),
    );
    assert(regions.len() > 0);
    assert(has_head(regions[0], bands, bands.len()));
    let b = choose|b: int| 0 <= b < bands.len() && #[trigger] heads(regions[0], bands, b);
    assert(heads(regions[0], bands, b));
    assert(bands[b].stride == regions[0].stride);
    assert(strides_sum(regions, 1) == regions[0].stride) by {
        reveal_with_fuel(strides_sum, 2);
    }
    lemma_strides_mono(regions, 1, regions.len());
    lemma_seats(regions, align, n, n, regions.len(), regions.len());
    let sum = strides_sum(regions, regions.len());
    assert(n * sum > 0) by (nonlinear_arith)
        requires
            n > 0,
            sum > 0,
    ;
}

/// The seats fit the memory they were sized to, with the ring's among them,
/// and one more would not, short of a seat for every pair: a budget, or what
/// of the free memory is over once the headroom is left.
pub proof fn memory_is_kept_and_used(
    trace: Trace,
    planes: Map<usize, Vec<usize>>,
    weights: Weights,
    policy: Policy,
    prefill: Option<u32>,
    passes: Option<bool>,
    held: Set<usize>,
    free: Option<u64>,
)
    requires
        trace.wf(),
        trace.nodes@.len() <= usize::MAX,
        weights.align > 0,
        weights.bytes@.len() == trace.params@.len(),
        countable(trace, planes, weights, policy, prefill, passes, held, free),
        drawn(trace, planes, weights, policy, prefill, passes, held, free) is Ok,
        (drawn(trace, planes, weights, policy, prefill, passes, held, free)->Ok_0).bands.len() > 0,
        policy is Budget || policy is Auto,
    ensures
        ({
            let plan = drawn(trace, planes, weights, policy, prefill, passes, held, free)->Ok_0;
            let room = match policy {
                Policy::Budget(budget) => budget as int,
                Policy::Auto { headroom } => free->0 - headroom,
                _ => 0,
            };
            let align = weights.align as int;
            let dense = weights.sum(set_aside(held, plan.bands));
            &&& policy is Auto ==> free is Some
            &&& dense + seat_bytes(plan.regions, align, plan.slots + plan.ring) <= room
            &&& plan.slots < plan.pairs && plan.slots < u32::MAX ==> dense + seat_bytes(
                plan.regions,
                align,
                plan.slots + plan.ring + 1,
            ) > room
        }),
{
    let f = all_found(trace, planes, weights.bytes@);
    let m = measured(trace, weights, prefill, passes, held, f);
    let plan = drawn(trace, planes, weights, policy, prefill, passes, held, free)->Ok_0;
    let align = weights.align as int;
    lemma_order_short(trace, trace.nodes@.len());
    bands_divide_and_belong(trace, planes, weights.bytes@);
    lemma_fits(m, align, policy, free);
    lemma_set_aside(held, f.bands, plan.slots);
    assert(plan.bands =~= seated_bands(f.bands, plan.slots));
    the_widest_is_reached(trace, f.groups);
    lemma_dense(weights, streamed(f.bands, f.bands.len()).union(held));
    assert(m.need > 0);
    assert(plan.slots >= m.need);
    assert(m.pairs >= 0) by {
        lemma_pairs(f.groups, f.groups[0].experts, f.groups.len());
        assert(f.groups.len() * f.groups[0].experts >= 0) by (nonlinear_arith);
    }
    assert(plan.pairs == m.pairs);
    assert(plan.slots < plan.pairs && plan.slots < u32::MAX ==> plan.slots < m.ceiling);
    lemma_seats_take(f.bands, align, plan.slots + plan.ring);
}

/// Every band's plane is given as many seats as there are in all, and no
/// other plane any.
proof fn lemma_reserved(bands: Seq<BandPlan>, n: u32, k: nat, p: usize)
    requires
        k <= bands.len(),
    ensures
        reserved(bands, n, k).contains_key(p) <==> exists|b: int|
            0 <= b < k && (#[trigger] bands[b]).param == p,
        reserved(bands, n, k).contains_key(p) ==> reserved(bands, n, k)[p] == n,
    decreases k,
{
    if k > 0 {
        lemma_reserved(bands, n, (k - 1) as nat, p);
        if reserved(bands, n, k).contains_key(p) && bands[k - 1].param != p {
            let b = choose|b: int| 0 <= b < k - 1 && (#[trigger] bands[b]).param == p;
            assert(0 <= b < k && bands[b].param == p);
        }
    }
}

/// Where the bytes of a band begin at the source.
proof fn lemma_host_starts(bands: Seq<BandPlan>, k: nat, b: int)
    requires
        k <= bands.len(),
        0 <= b < k,
        forall|b: int, c: int|
            0 <= b < c < bands.len() ==> (#[trigger] bands[b]).param != (#[trigger] bands[c]).param,
    ensures
        host_starts(bands, k).contains_key(bands[b].param),
        host_starts(bands, k)[bands[b].param] == host_end(bands, b as nat) as u64,
    decreases k,
{
    if b < k - 1 {
        lemma_host_starts(bands, (k - 1) as nat, b);
        assert(bands[b].param != bands[k - 1].param);
    }
}

/// Where the bytes of the bands end at the source, band after band.
proof fn lemma_host_ends(bands: Seq<BandPlan>, k: nat, m: nat)
    requires
        k <= m <= bands.len(),
    ensures
        0 <= host_end(bands, k) <= host_end(bands, m),
    decreases m,
{
    if m > 0 {
        let band = bands[m - 1];
        assert(band.experts * band.stride >= 0) by (nonlinear_arith)
            requires
                band.experts >= 0,
                band.stride >= 0,
        ;
        if k < m {
            lemma_host_ends(bands, k, (m - 1) as nat);
        } else {
            lemma_host_ends(bands, (k - 1) as nat, (m - 1) as nat);
        }
    }
}

/// Groups of one expert count make as many pairs as groups by experts.
proof fn lemma_pairs(groups: Seq<GroupView>, experts: u32, k: nat)
    requires
        k <= groups.len(),
        forall|g: int| 0 <= g < groups.len() ==> (#[trigger] groups[g]).experts == experts,
    ensures
        pairs_of(groups, k) == k * experts,
    decreases k,
{
    if k > 0 {
        lemma_pairs(groups, experts, (k - 1) as nat);
        assert(k * experts == (k - 1) * experts + experts) by (nonlinear_arith)
            requires
                k > 0,
        ;
    }
}

/// The rows a prefill is worth a ring at: as many as the knob says, or the
/// fewest, from 32 on, that name every expert twice over.
pub open spec fn worth_a_ring(prefill: Option<u32>, experts: u32, top_k: u32, rows: int) -> bool {
    match prefill {
        Some(said) => rows == said,
        None => {
            &&& rows >= 32
            &&& rows * top_k >= 2 * experts
            &&& rows > 32 ==> (rows - 1) * top_k < 2 * experts
        },
    }
}

/// A division that rounds up is the least factor that reaches.
proof fn lemma_rounds_up(a: int, b: int)
    requires
        a >= 0,
        b > 0,
    ensures
        (a + b - 1) / b * b >= a,
        (a + b - 1) / b > 0 ==> ((a + b - 1) / b - 1) * b < a,
        0 <= (a + b - 1) / b <= a,
{
    let q = (a + b - 1) / b;
    vstd::arithmetic::div_mod::lemma_fundamental_div_mod(a + b - 1, b);
    let r = (a + b - 1) % b;
    assert(q * b == b * q) by (nonlinear_arith);
    assert((q - 1) * b == q * b - b) by (nonlinear_arith);
    assert(0 <= q <= a) by (nonlinear_arith)
        requires
            q == (a + b - 1) / b,
            a >= 0,
            b > 0,
    ;
}

/// What a plan that streams adds up to. Its ring is two seats an expert,
/// where a prefill may borrow one at all; its seats and its ring are what
/// every band's plane is placed with; the device holds the planes that are
/// neither streamed nor held elsewhere, the seats of every region and, but
/// in passes, a seat table a group.
pub proof fn a_plan_adds_up(
    trace: Trace,
    planes: Map<usize, Vec<usize>>,
    weights: Weights,
    policy: Policy,
    prefill: Option<u32>,
    passes: Option<bool>,
    held: Set<usize>,
    free: Option<u64>,
)
    requires
        trace.wf(),
        trace.nodes@.len() <= usize::MAX,
        weights.align > 0,
        weights.bytes@.len() == trace.params@.len(),
        countable(trace, planes, weights, policy, prefill, passes, held, free),
        drawn(trace, planes, weights, policy, prefill, passes, held, free) is Ok,
        (drawn(trace, planes, weights, policy, prefill, passes, held, free)->Ok_0).bands.len() > 0,
    ensures
        ({
            let plan = drawn(trace, planes, weights, policy, prefill, passes, held, free)->Ok_0;
            let align = weights.align as int;
            let experts = plan.groups[0].experts;
            let total = plan.slots + plan.ring;
            &&& plan.groups.len() > 0 && experts > 0
            &&& forall|g: int|
                0 <= g < plan.groups.len() ==> (#[trigger] plan.groups[g]).experts == experts
            &&& plan.pairs == plan.groups.len() * experts
            &&& plan.per_slot == seat_bytes(plan.regions, 1, 1)
            &&& match policy {
                Policy::Budget(budget) => plan.policy == Word::Budget(budget),
                Policy::Slots(n) => plan.policy == Word::Slots(n),
                Policy::Auto { headroom } => plan.policy == (Word::Auto {
                    free: free->0,
                    headroom,
                    dense: weights.sum(set_aside(held, plan.bands)) as u64,
                }),
                Policy::Off => false,
            }
            &&& match passes {
                None => {
                    &&& worth_a_ring(
                        prefill,
                        experts,
                        widest(trace, plan.groups, plan.groups.len()),
                        plan.prefill_min as int,
                    )
                    &&& plan.ring == if plan.prefill_min > 0 {
                        2 * experts
                    } else {
                        0
                    }
                },
                Some(_) => plan.prefill_min == 0 && plan.ring == 0,
            }
            &&& plan.device_bytes == weights.sum(set_aside(held, plan.bands)) + seat_bytes(
                plan.regions,
                align,
                total,
            ) + match passes {
                None => plan.groups.len() * align_up(4 * experts, align),
                Some(_) => 0,
            }
            &&& forall|p: usize| #[trigger]
                plan.resident_of.contains_key(p) <==> exists|b: int|
                    0 <= b < plan.bands.len() && (#[trigger] plan.bands[b]).param == p
            &&& forall|p: usize| #[trigger]
                plan.resident_of.contains_key(p) ==> plan.resident_of[p] == total
        }),
{
    let f = all_found(trace, planes, weights.bytes@);
    let m = measured(trace, weights, prefill, passes, held, f);
    let plan = drawn(trace, planes, weights, policy, prefill, passes, held, free)->Ok_0;
    let align = weights.align as int;
    lemma_order_short(trace, trace.nodes@.len());
    bands_divide_and_belong(trace, planes, weights.bytes@);
    lemma_fits(m, align, policy, free);
    lemma_set_aside(held, f.bands, plan.slots);
    lemma_widest_seated(trace, f.groups, plan.slots, f.groups.len());
    let experts = f.groups[0].experts;
    let wide = widest(trace, f.groups, f.groups.len());
    the_widest_is_reached(trace, f.groups);
    assert(experts == f.declared->0);
    lemma_pairs(f.groups, experts, f.groups.len());
    lemma_rounds_up(2 * experts, wide as int);
    let rows = (2 * experts + wide - 1) / wide as int;
    assert(rows <= 32 ==> 32 * wide >= rows * wide) by (nonlinear_arith)
        requires
            wide >= 1,
    ;
    assert(plan.bands =~= seated_bands(f.bands, plan.slots));
    assert(plan.groups =~= seated_groups(f.groups, plan.slots));
    let stride = align_up(4 * experts, align);
    let n = f.groups.len() as int;
    assert(stride * n == n * stride) by (nonlinear_arith);
    let total = plan.slots + plan.ring;
    lemma_one_seat(m.regions, m.regions.len());
    lemma_strides_mono(m.regions, m.regions.len(), m.regions.len());
    let cap = most_drawn(m, policy, free)->0;
    lemma_seats(m.regions, align, total, cap, m.regions.len(), m.regions.len());
    lemma_seats(m.regions, align, 0, total, m.regions.len(), m.regions.len());
    lemma_dense(weights, streamed(f.bands, f.bands.len()).union(held));
    lemma_align_up(4 * experts, align);
    assert(n * stride >= 0) by (nonlinear_arith)
        requires
            n >= 0,
            stride >= 0,
    ;
    assert forall|p: usize| #[trigger]
        plan.resident_of.contains_key(p) <==> exists|b: int|
            0 <= b < plan.bands.len() && (#[trigger] plan.bands[b]).param == p by {
        lemma_reserved(f.bands, total as u32, f.bands.len(), p);
        if exists|b: int| 0 <= b < f.bands.len() && (#[trigger] f.bands[b]).param == p {
            let b = choose|b: int| 0 <= b < f.bands.len() && (#[trigger] f.bands[b]).param == p;
            assert(plan.bands[b].param == p);
        }
        if exists|b: int| 0 <= b < plan.bands.len() && (#[trigger] plan.bands[b]).param == p {
            let b = choose|b: int| 0 <= b < plan.bands.len() && (#[trigger] plan.bands[b]).param == p;
            assert(f.bands[b].param == p);
        }
    }
    assert forall|p: usize| #[trigger] plan.resident_of.contains_key(p) implies plan.resident_of[p]
        == total by {
        lemma_reserved(f.bands, total as u32, f.bands.len(), p);
    }
}

/// The bands' bytes lie end to end at the source, each band's all experts of
/// it, from zero to what the plan counts there.
pub proof fn bands_lie_end_to_end_at_the_source(
    trace: Trace,
    planes: Map<usize, Vec<usize>>,
    weights: Weights,
    policy: Policy,
    prefill: Option<u32>,
    passes: Option<bool>,
    held: Set<usize>,
    free: Option<u64>,
    b: int,
)
    requires
        trace.wf(),
        trace.nodes@.len() <= usize::MAX,
        weights.align > 0,
        weights.bytes@.len() == trace.params@.len(),
        countable(trace, planes, weights, policy, prefill, passes, held, free),
        drawn(trace, planes, weights, policy, prefill, passes, held, free) is Ok,
        0 <= b < (drawn(trace, planes, weights, policy, prefill, passes, held, free)->Ok_0).bands.len(),
    ensures
        ({
            let plan = drawn(trace, planes, weights, policy, prefill, passes, held, free)->Ok_0;
            let band = plan.bands[b];
            let start = plan.host_of[band.param];
            let end = start + weights.bytes@[band.param as int];
            &&& plan.host_of.contains_key(band.param)
            &&& b == 0 ==> start == 0
            &&& if b + 1 < plan.bands.len() {
                end == plan.host_of[plan.bands[b + 1].param]
            } else {
                end == plan.host_bytes
            }
        }),
{
    let f = all_found(trace, planes, weights.bytes@);
    let plan = drawn(trace, planes, weights, policy, prefill, passes, held, free)->Ok_0;
    lemma_order_short(trace, trace.nodes@.len());
    bands_divide_and_belong(trace, planes, weights.bytes@);
    assert(plan.bands =~= seated_bands(f.bands, plan.slots));
    let n = f.bands.len();
    let band = f.bands[b];
    assert(plan.bands[b].param == band.param);
    lemma_host_starts(f.bands, n, b);
    lemma_host_ends(f.bands, b as nat, n);
    lemma_host_ends(f.bands, (b + 1) as nat, n);
    assert(band.experts * band.stride == band.stride * band.experts) by (nonlinear_arith);
    if b + 1 < n {
        lemma_host_starts(f.bands, n, b + 1);
        assert(plan.bands[b + 1].param == f.bands[b + 1].param);
    }
}

/// The widest fan-out is no less than any group's, nor than one, and is one
/// of these.
pub proof fn the_widest_is_reached(trace: Trace, groups: Seq<GroupView>)
    ensures
        ({
            let wide = widest(trace, groups, groups.len());
            let n = trace.nodes@.len();
            &&& wide >= 1
            &&& forall|g: int|
                0 <= g < groups.len() ==> (fan(trace, (#[trigger] groups[g]).routes, n) matches Some(
                    top_k,
                ) ==> top_k <= wide)
            &&& wide == 1 || exists|g: int|
                0 <= g < groups.len() && fan(trace, (#[trigger] groups[g]).routes, n) == Some(wide)
        }),
{
    lemma_widest(trace, groups, groups.len());
}

proof fn lemma_widest(trace: Trace, groups: Seq<GroupView>, k: nat)
    requires
        k <= groups.len(),
    ensures
        ({
            let wide = widest(trace, groups, k);
            let n = trace.nodes@.len();
            &&& wide >= 1
            &&& forall|g: int|
                0 <= g < k ==> (fan(trace, (#[trigger] groups[g]).routes, n) matches Some(top_k)
                    ==> top_k <= wide)
            &&& wide == 1 || exists|g: int|
                0 <= g < k && fan(trace, (#[trigger] groups[g]).routes, n) == Some(wide)
        }),
    decreases k,
{
    if k > 0 {
        lemma_widest(trace, groups, (k - 1) as nat);
        let n = trace.nodes@.len();
        let before = widest(trace, groups, (k - 1) as nat);
        let wide = widest(trace, groups, k);
        if wide == before && before != 1 {
            let g = choose|g: int|
                0 <= g < k - 1 && fan(trace, (#[trigger] groups[g]).routes, n) == Some(before);
            assert(0 <= g < k && fan(trace, groups[g].routes, n) == Some(wide));
        } else if wide != before {
            assert(fan(trace, groups[k - 1].routes, n) == Some(wide));
        }
    }
}

/// When a pool is refused: under a budget or in free memory, just when the
/// dense planes, a whole layer's seats and the ring do not fit; by number,
/// just when they seat no layer.
pub proof fn a_pool_is_refused_when_a_layer_does_not_fit(
    trace: Trace,
    planes: Map<usize, Vec<usize>>,
    weights: Weights,
    policy: Policy,
    prefill: Option<u32>,
    passes: Option<bool>,
    held: Set<usize>,
    free: Option<u64>,
)
    requires
        trace.wf(),
        trace.nodes@.len() <= usize::MAX,
        weights.align > 0,
        weights.bytes@.len() == trace.params@.len(),
        countable(trace, planes, weights, policy, prefill, passes, held, free),
        policy != Policy::Off,
        policy matches Policy::Budget(budget) ==> budget < weights.sum(held),
        all_found(trace, planes, weights.bytes@).fault is None,
        all_found(trace, planes, weights.bytes@).bands.len() > 0,
    ensures
        ({
            let f = all_found(trace, planes, weights.bytes@);
            let said = drawn(trace, planes, weights, policy, prefill, passes, held, free);
            let align = weights.align as int;
            let dense = weights.sum(set_aside(held, f.bands));
            let need = match passes {
                None => f.groups[0].experts,
                Some(half) => fewest(widest(trace, f.groups, f.groups.len()), half),
            };
            let ring = if passes is Some || prefill == Some(0u32) {
                0
            } else {
                2 * f.groups[0].experts
            };
            let fan = match passes {
                None => None,
                Some(_) => Some(widest(trace, f.groups, f.groups.len())),
            };
            let regions = placed(f.bands, f.bands.len());
            let ring_bytes = seat_bytes(regions, align, ring);
            let floor = dense + seat_bytes(regions, align, need + ring);
            let refused = |refusal: Refusal| said == Err::<PlanView, Fault>(Fault::Residency(refusal));
            match policy {
                Policy::Budget(budget) => if floor <= budget {
                    said is Ok
                } else {
                    refused(
                        Refusal::BudgetBelowFloor {
                            budget,
                            dense: dense as u64,
                            bands: f.bands.len() as usize,
                            need,
                            fan,
                            ring: ring as u32,
                            ring_bytes: ring_bytes as u64,
                            floor: floor as u64,
                        },
                    )
                },
                Policy::Slots(n) => if need <= n {
                    said is Ok
                } else {
                    refused(Refusal::SlotsBelowFloor { slots: n, need, fan })
                },
                Policy::Auto { headroom } => match free {
                    Some(free) => if floor <= free - headroom {
                        said is Ok
                    } else {
                        refused(
                            Refusal::RamBelowFloor {
                                free,
                                headroom,
                                dense: dense as u64,
                                usable: if free - headroom < dense {
                                    0
                                } else {
                                    (free - headroom - dense) as u64
                                },
                                need,
                                per_slot: seat_bytes(regions, 1, 1) as u64,
                                ring: ring as u32,
                                ring_bytes: ring_bytes as u64,
                            },
                        )
                    },
                    None => refused(Refusal::NoFreeRam),
                },
                Policy::Off => true,
            }
        }),
{
    let f = all_found(trace, planes, weights.bytes@);
    let m = measured(trace, weights, prefill, passes, held, f);
    let align = weights.align as int;
    lemma_order_short(trace, trace.nodes@.len());
    bands_divide_and_belong(trace, planes, weights.bytes@);
    lemma_set_aside(held, f.bands, f.declared->0);
    assert(seated_bands(f.bands, f.declared->0) =~= f.bands);
    the_widest_is_reached(trace, f.groups);
    assert(m.need > 0);
    lemma_seats_take(f.bands, align, m.need + m.ring);
    lemma_dense(weights, set_aside(held, f.bands));
    lemma_one_seat(m.regions, m.regions.len());
    lemma_rounds_up(2 * f.groups[0].experts, widest(trace, f.groups, f.groups.len()) as int);
}

/// One seat, packed, is a stride of every region.
proof fn lemma_one_seat(regions: Seq<RegionView>, k: nat)
    requires
        k <= regions.len(),
    ensures
        seats(regions, 1, 1, k) == strides_sum(regions, k),
    decreases k,
{
    if k > 0 {
        lemma_one_seat(regions, (k - 1) as nat);
        lemma_align_up(regions[k - 1].stride as int, 1);
    }
}

/// Nothing streams where the policy is off, where the budget holds every
/// plane, or where no plane is routed; the device then holds every plane
/// that is not held elsewhere, and a budget that does not is refused.
pub proof fn a_plan_that_streams_nothing_holds_all(
    trace: Trace,
    planes: Map<usize, Vec<usize>>,
    weights: Weights,
    policy: Policy,
    prefill: Option<u32>,
    passes: Option<bool>,
    held: Set<usize>,
    free: Option<u64>,
)
    requires
        trace.wf(),
        trace.nodes@.len() <= usize::MAX,
        weights.align > 0,
        weights.bytes@.len() == trace.params@.len(),
        countable(trace, planes, weights, policy, prefill, passes, held, free),
    ensures
        ({
            let f = all_found(trace, planes, weights.bytes@);
            let said = drawn(trace, planes, weights, policy, prefill, passes, held, free);
            let full = weights.sum(held);
            let held_whole = policy is Off || (policy matches Policy::Budget(budget) && budget >= full);
            &&& held_whole ==> said is Ok
            &&& said matches Ok(plan) ==> (plan.bands.len() == 0 <==> held_whole || f.bands.len() == 0)
            &&& said matches Ok(plan) ==> plan.bands.len() == 0 ==> {
                &&& plan.device_bytes == full
                &&& plan.policy == if policy is Off {
                    Word::Off
                } else if policy is Budget {
                    Word::Whole
                } else {
                    Word::Dense
                }
                &&& plan.groups.len() == 0 && plan.regions.len() == 0
                &&& plan.slots == 0 && plan.ring == 0 && plan.host_bytes == 0
                &&& plan.resident_of.dom() =~= Set::empty()
            }
            &&& !held_whole && f.fault is Some ==> said == Err::<PlanView, Fault>(f.fault->0)
            &&& !held_whole && f.fault is None && f.bands.len() == 0 ==> match policy {
                Policy::Budget(budget) => said == Err::<PlanView, Fault>(
                    Fault::Residency(Refusal::NothingStreams { budget, demand: full as u64 }),
                ),
                _ => said is Ok,
            }
        }),
{
    lemma_dense(weights, held);
}

/// A region adds, for so many seats, the least multiple of the alignment
/// that holds that many of its stride.
pub proof fn a_region_takes_its_stride_a_seat(regions: Seq<RegionView>, region: RegionView, align: int, n: int)
    requires
        align > 0,
        n >= 0,
    ensures
        seat_bytes(Seq::<RegionView>::empty(), align, n) == 0,
        ({
            let more = seat_bytes(regions.push(region), align, n) - seat_bytes(regions, align, n);
            &&& more % align == 0
            &&& n * region.stride <= more < n * region.stride + align
        }),
{
    lemma_same_seats(regions, regions.push(region), align, n, regions.len());
    let bytes = n * region.stride;
    assert(bytes >= 0) by (nonlinear_arith)
        requires
            n >= 0,
            bytes == n * region.stride,
    ;
    lemma_align_up(bytes, align);
}

proof fn lemma_same_seats(a: Seq<RegionView>, b: Seq<RegionView>, align: int, n: int, k: nat)
    requires
        k <= a.len(),
        k <= b.len(),
        forall|i: int| 0 <= i < k ==> a[i] == b[i],
    ensures
        seats(a, align, n, k) == seats(b, align, n, k),
    decreases k,
{
    if k > 0 {
        lemma_same_seats(a, b, align, n, (k - 1) as nat);
    }
}

} // verus!
