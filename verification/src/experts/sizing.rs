//! How many seats the pool gets, and where every slab of it lies.

use std::collections::{BTreeMap, BTreeSet};
use vstd::prelude::*;

use crate::experts::plan::{
    aliases, countable, drawn, host_end, host_starts, measured, most, most_drawn, pairs_of, placed,
    region_views, reserved, seat_bytes, seated_bands, seated_groups, seats, sized, slot, streamed,
    streaming, strides_sum, whole, widest, BandPlan, Knobs, Plan, PlanView, Policy, RegionPlan,
    RegionView, Word,
};
use crate::experts::shape::{
    bands_divide_and_belong, lemma_few_bands, lemma_few_groups, lemma_grouped, position,
};
use crate::experts::trace::{
    all_found, fan_out, found, group_views, order, planes_wf, Attachments, GroupPlan, GroupView,
};
use crate::fault::{Fault, Refusal};
use crate::gather;
use crate::trace::Trace;
use crate::weights::{
    align_up, lemma_align_up, lemma_align_up_mono, lemma_laid_out_fewer, lemma_laid_out_mono,
    next_multiple, Weights,
};

verus! {

/// A slot found is the first at its key.
pub proof fn lemma_slot(regions: Seq<RegionView>, position: nat, stride: u64, n: nat)
    ensures
        match slot(regions, position, stride, n) {
            Some(i) => {
                &&& i < n
                &&& regions[i as int].position == position
                &&& regions[i as int].stride == stride
                &&& forall|j: int|
                    0 <= j < i ==> (#[trigger] regions[j]).position != position || regions[j].stride
                        != stride
            },
            None => forall|j: int|
                0 <= j < n ==> (#[trigger] regions[j]).position != position || regions[j].stride
                    != stride,
        },
    decreases n,
{
    if n > 0 {
        lemma_slot(regions, position, stride, (n - 1) as nat);
    }
}

fn find_region(regions: &Vec<RegionPlan>, at: usize, stride: u64) -> (found: Option<usize>)
    ensures
        match found {
            Some(i) => slot(region_views(regions@), at as nat, stride, regions@.len()) == Some(
                i as nat,
            ) && i < regions@.len(),
            None => slot(region_views(regions@), at as nat, stride, regions@.len()) is None,
        },
{
    let ghost views = region_views(regions@);
    let mut i: usize = 0;
    while i < regions.len()
        invariant
            i <= regions@.len(),
            views == region_views(regions@),
            slot(views, at as nat, stride, i as nat) is None,
        decreases regions@.len() - i,
    {
        assert(views[i as int] == regions@[i as int]@);
        if regions[i].position == at && regions[i].stride == stride {
            proof {
                lemma_slot_stays(views, at as nat, stride, (i + 1) as nat, regions@.len());
            }
            return Some(i);
        }
        i += 1;
    }
    None
}

proof fn lemma_slot_stays(regions: Seq<RegionView>, position: nat, stride: u64, n: nat, m: nat)
    requires
        n <= m,
        slot(regions, position, stride, n) is Some,
    ensures
        slot(regions, position, stride, m) == slot(regions, position, stride, n),
    decreases m,
{
    if n < m {
        lemma_slot_stays(regions, position, stride, n, (m - 1) as nat);
    }
}

/// The pool's regions: bands of one position and stride across every group
/// alias one slab. The head is the lowest param of the region, so it is
/// placed before any band that aliases it.
fn place(bands: &Vec<BandPlan>) -> (regions: Vec<RegionPlan>)
    ensures
        region_views(regions@) == placed(bands@, bands@.len()),
{
    let mut regions: Vec<RegionPlan> = Vec::new();
    let mut at: usize = 0;
    let mut b: usize = 0;
    assert(region_views(regions@) =~= Seq::<RegionView>::empty());
    while b < bands.len()
        invariant
            b <= bands@.len(),
            at <= b,
            b < bands@.len() ==> at == position(bands@, b as int),
            region_views(regions@) == placed(bands@, b as nat),
        decreases bands@.len() - b,
    {
        let ghost before = region_views(regions@);
        let stride: u64 = bands[b].stride;
        let param: usize = bands[b].param;
        match find_region(&regions, at, stride) {
            Some(i) => {
                assert(before[i as int] == regions@[i as int]@);
                regions[i].bands.push(b);
                if param < regions[i].head {
                    regions[i].head = param;
                }
                assert(region_views(regions@) =~= placed(bands@, (b + 1) as nat));
            },
            None => {
                let mut first: Vec<usize> = Vec::new();
                first.push(b);
                assert(first@ =~= seq![b]);
                regions.push(RegionPlan { position: at, stride, head: param, bands: first });
                assert(region_views(regions@) =~= placed(bands@, (b + 1) as nat));
            },
        }
        if b + 1 < bands.len() && bands[b].group == bands[b + 1].group {
            at = at + 1;
        } else {
            at = 0;
        }
        b += 1;
    }
    regions
}

/// The param each band's param aliases, if not its own.
fn alias(regions: &Vec<RegionPlan>, bands: &Vec<BandPlan>) -> (aliased: BTreeMap<usize, usize>)
    ensures
        aliased@ == aliases(region_views(regions@), bands@, bands@.len()),
{
    let ghost views = region_views(regions@);
    let mut aliased: BTreeMap<usize, usize> = BTreeMap::new();
    let mut at: usize = 0;
    let mut b: usize = 0;
    assert(aliased@ =~= Map::<usize, usize>::empty());
    while b < bands.len()
        invariant
            b <= bands@.len(),
            at <= b,
            b < bands@.len() ==> at == position(bands@, b as int),
            views == region_views(regions@),
            aliased@ == aliases(views, bands@, b as nat),
        decreases bands@.len() - b,
    {
        let param: usize = bands[b].param;
        let head: usize = match find_region(regions, at, bands[b].stride) {
            Some(i) => {
                assert(views[i as int] == regions@[i as int]@);
                regions[i].head
            },
            None => param,
        };
        if head != param {
            aliased.insert(param, head);
        }
        if b + 1 < bands.len() && bands[b].group == bands[b + 1].group {
            at = at + 1;
        } else {
            at = 0;
        }
        b += 1;
    }
    aliased
}

pub proof fn lemma_strides_mono(regions: Seq<RegionView>, n: nat, m: nat)
    requires
        n <= m <= regions.len(),
    ensures
        0 <= strides_sum(regions, n) <= strides_sum(regions, m),
    decreases m,
{
    if n < m {
        lemma_strides_mono(regions, n, (m - 1) as nat);
    } else if n > 0 {
        lemma_strides_mono(regions, (n - 1) as nat, (n - 1) as nat);
    }
}

fn per_slot(regions: &Vec<RegionPlan>) -> (bytes: u64)
    requires
        strides_sum(region_views(regions@), regions@.len()) <= u64::MAX,
    ensures
        bytes == strides_sum(region_views(regions@), regions@.len()),
{
    let ghost views = region_views(regions@);
    let mut bytes: u64 = 0;
    let mut i: usize = 0;
    while i < regions.len()
        invariant
            i <= regions@.len(),
            views == region_views(regions@),
            strides_sum(views, regions@.len()) <= u64::MAX,
            bytes == strides_sum(views, i as nat),
        decreases regions@.len() - i,
    {
        proof {
            lemma_strides_mono(views, (i + 1) as nat, regions@.len());
            assert(views[i as int] == regions@[i as int]@);
        }
        bytes = bytes + regions[i].stride;
        i += 1;
    }
    bytes
}

/// Seats take at least their strides, and more seats and more regions take
/// no less.
pub proof fn lemma_seats(regions: Seq<RegionView>, align: int, n: int, m: int, k: nat, l: nat)
    requires
        align > 0,
        0 <= n <= m,
        k <= l <= regions.len(),
    ensures
        0 <= n * strides_sum(regions, k) <= seats(regions, align, n, k),
        seats(regions, align, n, k) <= seats(regions, align, m, k) <= seats(regions, align, m, l),
    decreases l,
{
    if l > 0 {
        let stride = regions[l - 1].stride as int;
        assert(0 <= n * stride <= m * stride) by (nonlinear_arith)
            requires
                0 <= n <= m,
                stride >= 0,
        ;
        lemma_align_up(n * stride, align);
        lemma_align_up(m * stride, align);
        lemma_align_up_mono(n * stride, m * stride, align);
        if k < l {
            lemma_seats(regions, align, n, m, k, (l - 1) as nat);
        } else {
            lemma_seats(regions, align, n, m, (k - 1) as nat, (k - 1) as nat);
            let sum = strides_sum(regions, (k - 1) as nat);
            assert(n * (sum + stride) == n * sum + n * stride) by (nonlinear_arith);
        }
    }
}

fn bytes_of_seats(regions: &Vec<RegionPlan>, align: u64, n: u32) -> (bytes: u64)
    requires
        align > 0,
        seat_bytes(region_views(regions@), align as int, n as int) <= u64::MAX,
    ensures
        bytes == seat_bytes(region_views(regions@), align as int, n as int),
{
    let ghost views = region_views(regions@);
    let mut bytes: u64 = 0;
    let mut i: usize = 0;
    while i < regions.len()
        invariant
            align > 0,
            i <= regions@.len(),
            views == region_views(regions@),
            seat_bytes(views, align as int, n as int) <= u64::MAX,
            bytes == seats(views, align as int, n as int, i as nat),
        decreases regions@.len() - i,
    {
        let stride: u64 = regions[i].stride;
        proof {
            assert(views[i as int] == regions@[i as int]@);
            lemma_seats(views, align as int, n as int, n as int, i as nat, i as nat);
            lemma_seats(
                views,
                align as int,
                n as int,
                n as int,
                (i + 1) as nat,
                regions@.len(),
            );
            assert(0 <= n * stride) by (nonlinear_arith)
                requires
                    n >= 0,
                    stride >= 0,
            ;
            lemma_align_up(n * stride, align as int);
        }
        bytes = bytes + next_multiple(n as u64 * stride, align);
        i += 1;
    }
    bytes
}

/// Between two counts none of which fits, the most seats are the same.
proof fn lemma_most_skip(regions: Seq<RegionView>, align: int, usable: int, n: nat, cap: nat)
    requires
        n <= cap,
        forall|i: int| n < i <= cap ==> #[trigger] seat_bytes(regions, align, i) > usable,
    ensures
        most(regions, align, usable, cap) == most(regions, align, usable, n),
    decreases cap,
{
    if n < cap {
        assert(seat_bytes(regions, align, cap as int) > usable);
        lemma_most_skip(regions, align, usable, n, (cap - 1) as nat);
    }
}

/// The most seats, up to `cap`, whose bytes fit `usable`.
fn most_seats(regions: &Vec<RegionPlan>, align: u64, usable: u64, cap: u32, one: u64) -> (n: u32)
    requires
        align > 0,
        one > 0,
        one == strides_sum(region_views(regions@), regions@.len()),
        seat_bytes(region_views(regions@), align as int, cap as int) <= u64::MAX,
    ensures
        n == most(region_views(regions@), align as int, usable as int, cap as nat),
{
    let ghost views = region_views(regions@);
    let ghost a = align as int;
    let bound: u64 = usable / one;
    let mut n: u32 = if bound < cap as u64 { bound as u32 } else { cap };
    proof {
        assert forall|i: int| n < i <= cap implies #[trigger] seat_bytes(views, a, i) > usable by {
            lemma_seats(views, a, i, i, views.len(), views.len());
            assert(i * one > usable) by (nonlinear_arith)
                requires
                    i > usable as int / one as int,
                    one > 0,
            ;
        }
        lemma_most_skip(views, a, usable as int, n as nat, cap as nat);
        lemma_seats(views, a, n as int, cap as int, views.len(), views.len());
        lemma_seats(views, a, 0, 0, views.len(), views.len());
        lemma_no_seats(views, a, views.len());
    }
    while bytes_of_seats(regions, align, n) > usable
        invariant
            align > 0,
            a == align as int,
            views == region_views(regions@),
            n <= cap,
            seat_bytes(views, a, n as int) <= u64::MAX,
            seat_bytes(views, a, 0) <= usable,
            most(views, a, usable as int, n as nat) == most(views, a, usable as int, cap as nat),
        decreases n,
    {
        n = n - 1;
        proof {
            lemma_seats(views, a, n as int, n + 1, views.len(), views.len());
        }
    }
    n
}

proof fn lemma_no_seats(regions: Seq<RegionView>, align: int, k: nat)
    requires
        align > 0,
        k <= regions.len(),
    ensures
        seats(regions, align, 0, k) == 0,
    decreases k,
{
    if k > 0 {
        lemma_no_seats(regions, align, (k - 1) as nat);
        assert(0 * regions[k - 1].stride == 0);
        lemma_align_up(0, align);
        assert(0int % align == 0) by (nonlinear_arith)
            requires
                align > 0,
        ;
    }
}

/// The planes that are not dense: those that stream, and those gathered.
fn not_dense(bands: &Vec<BandPlan>, held: &BTreeSet<usize>) -> (out: BTreeSet<usize>)
    ensures
        out@ == streamed(bands@, bands@.len()).union(held@),
{
    let mut out: BTreeSet<usize> = held.clone();
    let mut b: usize = 0;
    assert(out@ =~= streamed(bands@, 0).union(held@));
    while b < bands.len()
        invariant
            b <= bands@.len(),
            out@ == streamed(bands@, b as nat).union(held@),
        decreases bands@.len() - b,
    {
        out.insert(bands[b].param);
        b += 1;
        assert(out@ =~= streamed(bands@, b as nat).union(held@));
    }
    out
}

proof fn lemma_host_end_mono(bands: Seq<BandPlan>, n: nat, m: nat)
    requires
        n <= m <= bands.len(),
    ensures
        0 <= host_end(bands, n) <= host_end(bands, m),
    decreases m,
{
    if m > 0 {
        let band = bands[m - 1];
        assert(band.experts * band.stride >= 0) by (nonlinear_arith)
            requires
                band.experts >= 0,
                band.stride >= 0,
        ;
        if n < m {
            lemma_host_end_mono(bands, n, (m - 1) as nat);
        } else {
            lemma_host_end_mono(bands, (n - 1) as nat, (n - 1) as nat);
        }
    }
}

/// Where every band's plane starts on the host, end to end, and where the
/// last one ends.
fn lay_host(bands: &Vec<BandPlan>) -> (laid: (BTreeMap<usize, u64>, u64))
    requires
        host_end(bands@, bands@.len()) <= u64::MAX,
    ensures
        laid.0@ == host_starts(bands@, bands@.len()),
        laid.1 == host_end(bands@, bands@.len()),
{
    let mut starts: BTreeMap<usize, u64> = BTreeMap::new();
    let mut end: u64 = 0;
    let mut b: usize = 0;
    assert(starts@ =~= Map::<usize, u64>::empty());
    while b < bands.len()
        invariant
            b <= bands@.len(),
            host_end(bands@, bands@.len()) <= u64::MAX,
            starts@ == host_starts(bands@, b as nat),
            end == host_end(bands@, b as nat),
        decreases bands@.len() - b,
    {
        proof {
            lemma_host_end_mono(bands@, b as nat, b as nat);
            lemma_host_end_mono(bands@, (b + 1) as nat, bands@.len());
            let band = bands@[b as int];
            assert(band.experts * band.stride >= 0) by (nonlinear_arith)
                requires
                    band.experts >= 0,
                    band.stride >= 0,
            ;
        }
        starts.insert(bands[b].param, end);
        end = end + bands[b].experts as u64 * bands[b].stride;
        b += 1;
    }
    (starts, end)
}

/// The reservation a band's region is placed at: the pool and the ring.
fn reserve(bands: &Vec<BandPlan>, n: u32) -> (map: BTreeMap<usize, u32>)
    ensures
        map@ == reserved(bands@, n, bands@.len()),
{
    let mut map: BTreeMap<usize, u32> = BTreeMap::new();
    let mut b: usize = 0;
    assert(map@ =~= Map::<usize, u32>::empty());
    while b < bands.len()
        invariant
            b <= bands@.len(),
            map@ == reserved(bands@, n, b as nat),
        decreases bands@.len() - b,
    {
        map.insert(bands[b].param, n);
        b += 1;
    }
    map
}

proof fn lemma_pairs_mono(groups: Seq<GroupView>, n: nat, m: nat)
    requires
        n <= m <= groups.len(),
    ensures
        0 <= pairs_of(groups, n) <= pairs_of(groups, m),
    decreases m,
{
    if n < m {
        lemma_pairs_mono(groups, n, (m - 1) as nat);
    } else if n > 0 {
        lemma_pairs_mono(groups, (n - 1) as nat, (n - 1) as nat);
    }
}

fn count_pairs(groups: &Vec<GroupPlan>) -> (pairs: u64)
    requires
        pairs_of(group_views(groups@), groups@.len()) <= u64::MAX,
    ensures
        pairs == pairs_of(group_views(groups@), groups@.len()),
{
    let ghost views = group_views(groups@);
    let mut pairs: u64 = 0;
    let mut g: usize = 0;
    while g < groups.len()
        invariant
            g <= groups@.len(),
            views == group_views(groups@),
            pairs_of(views, groups@.len()) <= u64::MAX,
            pairs == pairs_of(views, g as nat),
        decreases groups@.len() - g,
    {
        proof {
            lemma_pairs_mono(views, (g + 1) as nat, groups@.len());
            assert(views[g as int] == groups@[g as int]@);
        }
        pairs = pairs + groups[g].experts as u64;
        g += 1;
    }
    pairs
}

fn widest_fan(trace: &Trace, groups: &Vec<GroupPlan>) -> (wide: u32)
    ensures
        wide == widest(*trace, group_views(groups@), groups@.len()),
{
    let ghost views = group_views(groups@);
    let mut wide: u32 = 1;
    let mut g: usize = 0;
    while g < groups.len()
        invariant
            g <= groups@.len(),
            views == group_views(groups@),
            wide == widest(*trace, views, g as nat),
        decreases groups@.len() - g,
    {
        assert(views[g as int] == groups@[g as int]@);
        if let Some(top_k) = fan_out(trace, groups[g].routes) {
            if top_k > wide {
                wide = top_k;
            }
        }
        g += 1;
    }
    wide
}

/// Give every band and group the pool's seats in place of its experts'.
fn seat_all(bands: &mut Vec<BandPlan>, groups: &mut Vec<GroupPlan>, slots: u32)
    ensures
        final(bands)@ == seated_bands(old(bands)@, slots),
        group_views(final(groups)@) == seated_groups(group_views(old(groups)@), slots),
{
    let mut b: usize = 0;
    while b < bands.len()
        invariant
            b <= bands@.len(),
            bands@.len() == old(bands)@.len(),
            forall|i: int|
                0 <= i < b ==> #[trigger] bands@[i] == (BandPlan { slots, ..old(bands)@[i] }),
            forall|i: int| b <= i < bands@.len() ==> #[trigger] bands@[i] == old(bands)@[i],
        decreases bands@.len() - b,
    {
        bands[b].slots = slots;
        b += 1;
    }
    assert(bands@ =~= seated_bands(old(bands)@, slots));
    let mut g: usize = 0;
    while g < groups.len()
        invariant
            g <= groups@.len(),
            groups@.len() == old(groups)@.len(),
            forall|i: int|
                0 <= i < g ==> #[trigger] groups@[i] == (GroupPlan { slots, ..old(groups)@[i] }),
            forall|i: int| g <= i < groups@.len() ==> #[trigger] groups@[i] == old(groups)@[i],
        decreases groups@.len() - g,
    {
        groups[g].slots = slots;
        g += 1;
    }
    assert(group_views(groups@) =~= seated_groups(group_views(old(groups)@), slots));
}

/// A plan that streams nothing.
fn hold_whole(full: u64, policy: Word, knobs: Knobs, gathered: gather::plan::Plan) -> (plan: Plan)
    ensures
        plan@ == whole(full as int, policy),
        plan.knobs == knobs,
        plan.gathered == gathered,
{
    let plan = Plan {
        bands: Vec::new(),
        groups: Vec::new(),
        regions: Vec::new(),
        alias_of: BTreeMap::new(),
        resident_of: BTreeMap::new(),
        host_of: BTreeMap::new(),
        slots: 0,
        ring: 0,
        prefill_min: 0,
        per_slot: 0,
        pairs: 0,
        policy,
        knobs,
        device_bytes: full,
        host_bytes: 0,
        gathered,
    };
    proof {
        let said = whole(full as int, policy);
        assert(plan@.groups =~= said.groups);
        assert(plan@.regions =~= said.regions);
        assert(plan@.alias_of =~= said.alias_of);
        assert(plan@.resident_of =~= said.resident_of);
        assert(plan@.host_of =~= said.host_of);
    }
    plan
}

/// Bands that divide have regions with strides.
proof fn lemma_placed_strides(bands: Seq<BandPlan>, k: nat)
    requires
        k <= bands.len(),
        forall|b: int| 0 <= b < bands.len() ==> (#[trigger] bands[b]).stride > 0,
    ensures
        k > 0 ==> placed(bands, k).len() > 0,
        forall|r: int| 0 <= r < placed(bands, k).len() ==> (#[trigger] placed(bands, k)[r]).stride > 0,
    decreases k,
{
    if k > 0 {
        lemma_placed_strides(bands, (k - 1) as nat);
        let r = placed(bands, (k - 1) as nat);
        lemma_slot(r, position(bands, k - 1), bands[k - 1].stride, r.len());
        assert(bands[k - 1].stride > 0);
    }
}

/// The fewest seats a pool may have fit under any cap past them.
pub proof fn lemma_most_at_least(regions: Seq<RegionView>, align: int, usable: int, least: int, cap: nat)
    requires
        0 <= least <= cap,
        seat_bytes(regions, align, least) <= usable,
    ensures
        least <= most(regions, align, usable, cap) <= cap,
        most(regions, align, usable, cap) > 0 ==> seat_bytes(
            regions,
            align,
            most(regions, align, usable, cap) as int,
        ) <= usable,
        most(regions, align, usable, cap) < cap ==> seat_bytes(
            regions,
            align,
            (most(regions, align, usable, cap) + 1) as int,
        ) > usable,
    decreases cap,
{
    if cap > 0 && seat_bytes(regions, align, cap as int) > usable {
        lemma_most_at_least(regions, align, usable, least, (cap - 1) as nat);
    }
}

impl Plan {
    /// The plan a load runs under these knobs, beside what it gathers, with
    /// this much memory free on the host: one whose segments seat everything
    /// they read at once.
    pub fn under(
        trace: &Trace,
        planes: &Attachments,
        weights: &Weights,
        knobs: Knobs,
        gathered: gather::plan::Plan,
        free: Option<u64>,
    ) -> (plan: Result<Plan, Fault>)
        requires
            trace.wf(),
            planes_wf(*trace, planes@),
            weights.align > 0,
            weights.bytes@.len() == trace.params@.len(),
            countable(
                *trace,
                planes@,
                *weights,
                knobs.policy,
                knobs.prefill,
                None,
                gathered.held(),
                free,
            ),
        ensures
            ({
                let said = drawn(
                    *trace,
                    planes@,
                    *weights,
                    knobs.policy,
                    knobs.prefill,
                    None,
                    gathered.held(),
                    free,
                );
                match plan {
                    Ok(plan) => {
                        &&& said == Ok::<PlanView, Fault>(plan@)
                        &&& plan@.wf()
                        &&& plan.knobs == knobs
                        &&& plan.gathered == gathered
                    },
                    Err(fault) => said == Err::<PlanView, Fault>(fault),
                }
            }),
    {
        Plan::draw(trace, planes, weights, knobs, None, gathered, free)
    }

    /// The plan a load runs under these knobs, its segments seating all they
    /// read at once or running in passes.
    pub fn draw(
        trace: &Trace,
        planes: &Attachments,
        weights: &Weights,
        knobs: Knobs,
        passes: Option<bool>,
        gathered: gather::plan::Plan,
        free: Option<u64>,
    ) -> (plan: Result<Plan, Fault>)
        requires
            trace.wf(),
            planes_wf(*trace, planes@),
            weights.align > 0,
            weights.bytes@.len() == trace.params@.len(),
            countable(
                *trace,
                planes@,
                *weights,
                knobs.policy,
                knobs.prefill,
                passes,
                gathered.held(),
                free,
            ),
        ensures
            ({
                let said = drawn(
                    *trace,
                    planes@,
                    *weights,
                    knobs.policy,
                    knobs.prefill,
                    passes,
                    gathered.held(),
                    free,
                );
                match plan {
                    Ok(plan) => {
                        &&& said == Ok::<PlanView, Fault>(plan@)
                        &&& plan@.wf()
                        &&& plan.knobs == knobs
                        &&& plan.gathered == gathered
                    },
                    Err(fault) => said == Err::<PlanView, Fault>(fault),
                }
            }),
    {
        let policy: Policy = knobs.policy;
        let ghost given = free;
        let nodes: usize = trace.nodes.len();
        proof {
            assert(nodes == trace.nodes@.len());
            lemma_drawn(
                *trace,
                planes@,
                *weights,
                policy,
                knobs.prefill,
                passes,
                gathered.held(),
                free,
            );
        }
        let held: BTreeSet<usize> = gathered.params();
        let full: u64 = weights.total(&held);
        match policy {
            Policy::Off => {
                return Ok(hold_whole(full, Word::Off, knobs, gathered));
            },
            Policy::Budget(budget) => {
                if budget >= full {
                    return Ok(hold_whole(full, Word::Whole, knobs, gathered));
                }
            },
            _ => {},
        }
        let (bands, groups) = match found(trace, planes, &weights.bytes) {
            Ok(said) => said,
            Err(why) => {
                return Err(why);
            },
        };
        if bands.len() == 0 {
            return match policy {
                Policy::Budget(budget) => Err(
                    Fault::Residency(Refusal::NothingStreams { budget, demand: full }),
                ),
                _ => Ok(hold_whole(full, Word::Dense, knobs, gathered)),
            };
        }
        let ghost f = all_found(*trace, planes@, weights.bytes@);
        let ghost m = measured(*trace, *weights, knobs.prefill, passes, gathered.held(), f);
        let ghost align = weights.align as int;
        proof {
            lemma_order_short(*trace, trace.nodes@.len());
            bands_divide_and_belong(*trace, planes@, weights.bytes@);
            assert(f.groups[0] == groups@[0]@);
            lemma_placed_strides(f.bands, f.bands.len());
        }
        let experts: u32 = groups[0].experts;
        let pairs: u64 = count_pairs(&groups);
        let wide: u32 = widest_fan(trace, &groups);
        let (need, fan, prefill_min): (u32, Option<u32>, u32) = match passes {
            None => (experts, None, knobs.prefill_min(experts, wide)),
            Some(half) => (
                if !half || wide <= 1 || wide > 0x7fff_ffff {
                    wide
                } else {
                    2 * wide
                },
                Some(wide),
                0,
            ),
        };
        let ring: u32 = if prefill_min > 0 { 2 * experts } else { 0 };
        let capped: u32 = if pairs > 0xffff_ffff { 0xffff_ffff } else { pairs as u32 };
        let ceiling: u32 = if capped < need { need } else { capped };
        let regions: Vec<RegionPlan> = place(&bands);
        let one: u64 = per_slot(&regions);
        let sparse: BTreeSet<usize> = not_dense(&bands, &held);
        proof {
            lemma_align_up(4 * experts, align);
            assert(align_up(4 * experts, align) * f.groups.len() >= align_up(4 * experts, align))
                by (nonlinear_arith)
                requires
                    align_up(4 * experts, align) >= 0,
                    f.groups.len() >= 1,
            ;
            lemma_laid_out_mono(weights.bytes@, align, sparse@, 0, weights.bytes@.len());
            lemma_laid_out_fewer(
                weights.bytes@,
                align,
                gathered.held(),
                sparse@,
                weights.bytes@.len(),
            );
        }
        let dense: u64 = weights.total(&sparse);
        proof {
            assert(m.regions == region_views(regions@));
            assert(m.ring == ring && m.ceiling == ceiling && m.dense == dense && m.need == need);
            lemma_strides_mono(m.regions, 1, m.regions.len());
            assert(strides_sum(m.regions, 1) == strides_sum(m.regions, 0) + m.regions[0].stride);
            if let Some(n) = most_drawn(m, policy, free) {
                lemma_seats(m.regions, align, 0, n, m.regions.len(), m.regions.len());
                lemma_seats(m.regions, align, ring as int, n, m.regions.len(), m.regions.len());
                lemma_seats(m.regions, align, need + ring, n, m.regions.len(), m.regions.len());
            }
        }
        let (slots, word): (u32, Word) = match policy {
            Policy::Off => (0, Word::Off),
            Policy::Budget(budget) => {
                let ring_bytes: u64 = bytes_of_seats(&regions, weights.align, ring);
                let floor: u64 = dense + bytes_of_seats(&regions, weights.align, need + ring);
                if budget < floor {
                    return Err(
                        Fault::Residency(
                            Refusal::BudgetBelowFloor {
                                budget,
                                dense,
                                bands: bands.len(),
                                need,
                                fan,
                                ring,
                                ring_bytes,
                                floor,
                            },
                        ),
                    );
                }
                let total: u32 = most_seats(
                    &regions,
                    weights.align,
                    budget - dense,
                    ceiling + ring,
                    one,
                );
                proof {
                    lemma_most_at_least(
                        m.regions,
                        align,
                        budget - dense,
                        need + ring,
                        (ceiling + ring) as nat,
                    );
                }
                (total - ring, Word::Budget(budget))
            },
            Policy::Slots(n) => {
                if n < need {
                    return Err(Fault::Residency(Refusal::SlotsBelowFloor { slots: n, need, fan }));
                }
                (n, Word::Slots(n))
            },
            Policy::Auto { headroom } => {
                let free: u64 = match free {
                    Some(free) => free,
                    None => {
                        return Err(Fault::Residency(Refusal::NoFreeRam));
                    },
                };
                let usable: u64 = free.saturating_sub(headroom).saturating_sub(dense);
                let ring_bytes: u64 = bytes_of_seats(&regions, weights.align, ring);
                if bytes_of_seats(&regions, weights.align, need + ring) > usable {
                    return Err(
                        Fault::Residency(
                            Refusal::RamBelowFloor {
                                free,
                                headroom,
                                dense,
                                usable,
                                need,
                                per_slot: one,
                                ring,
                                ring_bytes,
                            },
                        ),
                    );
                }
                let total: u32 = most_seats(&regions, weights.align, usable, ceiling + ring, one);
                proof {
                    lemma_most_at_least(
                        m.regions,
                        align,
                        usable as int,
                        need + ring,
                        (ceiling + ring) as nat,
                    );
                }
                (total - ring, Word::Auto { free, headroom, dense })
            },
        };
        assert(sized(m, f.bands.len(), align, policy, free) == Ok::<(u32, Word), Fault>(
            (slots, word),
        ));
        proof {
            let n = most_drawn(m, policy, given)->0;
            assert(slots + ring <= n);
            lemma_seats(m.regions, align, slots + ring, n, m.regions.len(), m.regions.len());
        }
        let resident_of: BTreeMap<usize, u32> = reserve(&bands, slots + ring);
        let alias_of: BTreeMap<usize, usize> = alias(&regions, &bands);
        let (host_of, host_bytes): (BTreeMap<usize, u64>, u64) = lay_host(&bands);
        let pool: u64 = bytes_of_seats(&regions, weights.align, slots + ring);
        let tables: u64 = match passes {
            None => next_multiple(4 * experts as u64, weights.align) * groups.len() as u64,
            Some(_) => 0,
        };
        let mut bands: Vec<BandPlan> = bands;
        let mut groups: Vec<GroupPlan> = groups;
        seat_all(&mut bands, &mut groups, slots);
        let plan = Plan {
            bands,
            groups,
            regions,
            alias_of,
            resident_of,
            host_of,
            slots,
            ring,
            prefill_min,
            per_slot: one,
            pairs,
            policy: word,
            knobs,
            device_bytes: dense + pool + tables,
            host_bytes,
            gathered,
        };
        proof {
            assert(plan@ == streaming(f, m, align, slots, word));
        }
        Ok(plan)
    }
}

/// A plan that is drawn is well formed.
pub proof fn lemma_drawn(
    trace: Trace,
    planes: Map<usize, Vec<usize>>,
    weights: Weights,
    policy: Policy,
    prefill: Option<u32>,
    passes: Option<bool>,
    held: Set<usize>,
    free: Option<u64>,
)
    requires
        trace.wf(),
        trace.nodes@.len() <= usize::MAX,
        weights.align > 0,
        weights.bytes@.len() == trace.params@.len(),
        countable(trace, planes, weights, policy, prefill, passes, held, free),
    ensures
        drawn(trace, planes, weights, policy, prefill, passes, held, free) matches Ok(plan) ==> plan.wf(),
{
    let f = all_found(trace, planes, weights.bytes@);
    if let Ok(plan) = drawn(trace, planes, weights, policy, prefill, passes, held, free) {
        if plan.bands.len() > 0 {
            let bytes = weights.bytes@;
            lemma_order_short(trace, trace.nodes@.len());
            bands_divide_and_belong(trace, planes, bytes);
            lemma_grouped(trace, planes, bytes, order(trace, trace.nodes@.len()).len());
            lemma_few_bands(f, trace, bytes);
            lemma_few_groups(f);
            let m = measured(trace, weights, prefill, passes, held, f);
            assert(f.fault is None && f.bands.len() > 0);
            assert(plan.groups =~= seated_groups(f.groups, plan.slots));
            assert(plan.ring == m.ring && plan.groups[0].experts == f.groups[0].experts);
            assert forall|g: int| 0 <= g < plan.groups.len() implies {
                &&& (#[trigger] plan.groups[g]).bands.len() > 0
                &&& plan.groups[g].experts == plan.groups[0].experts
            } by {
                assert(plan.groups[g].bands == f.groups[g].bands);
                assert(f.groups[g].experts == f.declared->0 && f.groups[0].experts == f.declared->0);
            }
            assert forall|g: int, i: int|
                0 <= g < plan.groups.len() && 0 <= i < plan.groups[g].bands.len() implies #[trigger] plan.groups[g].bands[i]
                < plan.bands.len() by {
                assert(plan.groups[g].bands[i] == f.groups[g].bands[i]);
            }
            assert forall|g: int, h: int| 0 <= g < h < plan.groups.len() implies (#[trigger] plan.groups[g]).routes
                != (#[trigger] plan.groups[h]).routes by {
                assert(f.groups[g].routes != f.groups[h].routes);
            }
        }
    }
}

/// There are no more routing vectors than nodes.
pub proof fn lemma_order_short(trace: Trace, n: nat)
    ensures
        order(trace, n).len() <= n,
    decreases n,
{
    if n > 0 {
        lemma_order_short(trace, (n - 1) as nat);
    }
}

} // verus!
