//! Opening a tier over a plan.

use std::collections::BTreeMap;
use vstd::prelude::*;

use crate::experts::plan::{BandPlan, Plan};
use crate::experts::pool::{Pool, PoolView};
use crate::experts::seats::{lemma_nobody_seen, Band, Group, Seats, SeatsView};
use crate::experts::source::Source;
use crate::experts::tally::Tally;
use crate::experts::tier::{Ring, RingView, Terms, Tier, TierView};
use crate::experts::trace::{group_views, GroupView};
use crate::fault::{Fault, Refusal};
use crate::trace::ValueId;

verus! {

pub const PREFETCH_K: usize = 4;

/// Where a band lies, by the store's offsets and the source's.
pub open spec fn laid(band: BandPlan, offsets: Seq<u64>, bands: Map<usize, u64>) -> Band {
    Band {
        name: band.name,
        at: offsets[band.param as int],
        from: bands[band.param],
        stride: band.stride,
    }
}

/// The first `k` groups by their routing vectors.
pub open spec fn routes_map(groups: Seq<GroupView>, k: nat) -> Map<u32, usize>
    decreases k,
{
    if k == 0 {
        Map::empty()
    } else {
        routes_map(groups, (k - 1) as nat).insert(groups[k - 1].routes.0, (k - 1) as usize)
    }
}

/// The predictions of the first `k` groups, by their routing vectors.
pub open spec fn hints_map(groups: Seq<GroupView>, k: nat) -> Map<u32, ValueId>
    decreases k,
{
    if k == 0 {
        Map::empty()
    } else {
        match groups[k - 1].hint {
            Some(hint) => hints_map(groups, (k - 1) as nat).insert(groups[k - 1].routes.0, hint),
            None => hints_map(groups, (k - 1) as nat),
        }
    }
}

/// A ring nothing has borrowed for.
pub open spec fn idle_ring(experts: u32) -> RingView {
    RingView {
        experts,
        seats: Seq::empty(),
        holds: (None, None),
        filling: None,
        fills: 0,
        copied: 0,
        read: 0,
        bytes: 0,
        lookups: 0,
        wait_ns: 0,
    }
}

/// Every seat empty: an expert is read the first time a router names it, and
/// not before.
pub open spec fn unseated(groups: Seq<GroupView>, slots: u32) -> SeatsView {
    SeatsView {
        pool: PoolView::empty(slots as nat),
        seat_of: Seq::new(
            groups.len(),
            |g: int| Seq::new(groups[g].experts as nat, |e: int| None),
        ),
        ever: Seq::new(
            groups.len(),
            |g: int| Seq::new(groups[g].experts as nat, |e: int| false),
        ),
        distinct: 0,
    }
}

/// A tier as it opens.
pub open spec fn opened(plan: Plan, tally: Tally) -> TierView {
    let groups = group_views(plan.groups@);
    TierView {
        seats: unseated(groups, plan.slots),
        ring: if plan.ring > 0 { Some(idle_ring(groups[0].experts)) } else { None },
        tally,
        landing: Seq::empty(),
        inflight: false,
        whole: false,
        blocked: false,
        predicted: Seq::new(groups.len(), |g: int| None),
    }
}

/// The bands of one group, laid, or the first the source says nothing of.
fn lay_group(plan: &Plan, g: usize, source: &Source, offsets: &Vec<u64>) -> (bands: Result<
    Vec<Band>,
    Fault,
>)
    requires
        plan@.wf(),
        g < plan.groups@.len(),
        forall|b: int|
            0 <= b < plan.bands@.len() ==> (#[trigger] plan.bands@[b]).param < offsets@.len(),
    ensures
        match bands {
            Ok(bands) => {
                let of = plan.groups@[g as int].bands@;
                &&& bands@.len() == of.len()
                &&& forall|i: int|
                    0 <= i < of.len() ==> source.bands@.contains_key(
                        plan.bands@[(#[trigger] of[i]) as int].param,
                    )
                &&& forall|i: int|
                    0 <= i < of.len() ==> #[trigger] bands@[i] == laid(
                        plan.bands@[of[i] as int],
                        offsets@,
                        source.bands@,
                    )
            },
            Err(fault) => exists|i: int|
                #![trigger plan.groups@[g as int].bands@[i]]
                0 <= i < plan.groups@[g as int].bands@.len() && {
                    let band = plan.bands@[plan.groups@[g as int].bands@[i] as int];
                    &&& !source.bands@.contains_key(band.param)
                    &&& fault == Fault::Residency(
                        Refusal::NoBandOffset { name: band.name, param: band.param },
                    )
                    &&& forall|j: int|
                        0 <= j < i ==> source.bands@.contains_key(
                            plan.bands@[(#[trigger] plan.groups@[g as int].bands@[j]) as int].param,
                        )
                },
        },
{
    let of = &plan.groups[g].bands;
    let mut bands: Vec<Band> = Vec::new();
    let mut i: usize = 0;
    while i < of.len()
        invariant
            plan@.wf(),
            g < plan.groups@.len(),
            of@ == plan.groups@[g as int].bands@,
            forall|b: int|
                0 <= b < plan.bands@.len() ==> (#[trigger] plan.bands@[b]).param < offsets@.len(),
            i <= of@.len(),
            bands@.len() == i,
            forall|j: int|
                0 <= j < i ==> source.bands@.contains_key(
                    plan.bands@[(#[trigger] of@[j]) as int].param,
                ),
            forall|j: int|
                0 <= j < i ==> #[trigger] bands@[j] == laid(
                    plan.bands@[of@[j] as int],
                    offsets@,
                    source.bands@,
                ),
        decreases of@.len() - i,
    {
        proof {
            assert(group_views(plan.groups@)[g as int] == plan.groups@[g as int]@);
            assert(plan@.groups[g as int].bands[i as int] < plan@.bands.len());
        }
        let band = &plan.bands[of[i]];
        match source.at(band.param) {
            Some(from) => {
                bands.push(
                    Band {
                        name: band.name.clone(),
                        at: offsets[band.param],
                        from,
                        stride: band.stride,
                    },
                );
            },
            None => {
                assert(plan.groups@[g as int].bands@[i as int] == of@[i as int]);
                return Err(
                    Fault::Residency(
                        Refusal::NoBandOffset { name: band.name.clone(), param: band.param },
                    ),
                );
            },
        }
        i += 1;
    }
    Ok(bands)
}

fn nobody(n: u32) -> (seat_of: Vec<Option<u32>>)
    ensures
        seat_of@ == Seq::new(n as nat, |e: int| None::<u32>),
{
    let mut seat_of: Vec<Option<u32>> = Vec::new();
    let mut e: u32 = 0;
    while e < n
        invariant
            e <= n,
            seat_of@ == Seq::new(e as nat, |e: int| None::<u32>),
        decreases n - e,
    {
        seat_of.push(None);
        e += 1;
        assert(seat_of@ =~= Seq::new(e as nat, |e: int| None::<u32>));
    }
    seat_of
}

fn never(n: u32) -> (ever: Vec<bool>)
    ensures
        ever@ == Seq::new(n as nat, |e: int| false),
{
    let mut ever: Vec<bool> = Vec::new();
    let mut e: u32 = 0;
    while e < n
        invariant
            e <= n,
            ever@ == Seq::new(e as nat, |e: int| false),
        decreases n - e,
    {
        ever.push(false);
        e += 1;
        assert(ever@ =~= Seq::new(e as nat, |e: int| false));
    }
    ever
}

/// Seats nobody sits in are in order.
proof fn lemma_unseated(groups: Seq<GroupView>, slots: u32)
    requires
        groups.len() <= u32::MAX,
    ensures
        unseated(groups, slots).inv(),
{
    let v = unseated(groups, slots);
    let p = v.pool;
    assert forall|s: u32| s < slots implies #[trigger] p.free.contains(s) by {
        assert(p.free[slots - 1 - s] == s);
    }
    assert(p.free.no_duplicates());
    assert forall|g: int, e: int| v.names(g, e) implies (#[trigger] v.seat(g, e) matches Some(s) ==> {
        &&& s < p.holds.len()
        &&& p.in_seat[s as int] == Some((g as u32, e as u32))
    }) by {
        assert(v.seat(g, e) is None);
    }
    lemma_nobody_seen(v.ever);
}

/// The groups a routing vector is said to be of are groups.
proof fn lemma_routes_map(groups: Seq<GroupView>, k: nat)
    requires
        k <= groups.len() <= u32::MAX,
    ensures
        forall|r: u32| #[trigger] routes_map(groups, k).contains_key(r) ==> routes_map(groups, k)[r] < k,
    decreases k,
{
    if k > 0 {
        lemma_routes_map(groups, (k - 1) as nat);
        let m = routes_map(groups, (k - 1) as nat);
        assert forall|r: u32| #[trigger] routes_map(groups, k).contains_key(r) implies routes_map(groups, k)[r]
            < k by {
            if r != groups[k - 1].routes.0 {
                assert(m.contains_key(r));
            }
        }
    }
}

/// The groups of a plan, laid over a store and a source.
pub struct Laid {
    pub groups: Vec<Group>,
    pub of_routes: BTreeMap<u32, usize>,
    pub hint_of: BTreeMap<u32, ValueId>,
    pub predicted: Vec<Option<Vec<Vec<u32>>>>,
}

/// A plan's groups with nobody of them seated, every band where the store
/// and the source have it.
pub open spec fn laid_groups(
    plan: Plan,
    source: Source,
    offsets: Seq<u64>,
    groups: Seq<Group>,
) -> bool {
    let views = group_views(plan.groups@);
    &&& groups.len() == views.len()
    &&& forall|g: int|
        0 <= g < views.len() ==> {
            &&& (#[trigger] groups[g]).wf()
            &&& groups[g].experts == views[g].experts
            &&& groups[g].bands@.len() == views[g].bands.len()
            &&& groups[g].seat_of@ == Seq::new(views[g].experts as nat, |e: int| None::<u32>)
            &&& groups[g].ever@ == Seq::new(views[g].experts as nat, |e: int| false)
        }
    &&& forall|g: int, i: int|
        0 <= g < views.len() && 0 <= i < views[g].bands.len() ==> #[trigger] groups[g].bands@[i]
            == laid(plan.bands@[views[g].bands[i] as int], offsets, source.bands@)
}

/// The source says where every band a plan streams starts.
pub open spec fn sourced(plan: Plan, source: Source) -> bool {
    forall|g: int, i: int|
        #![trigger plan.groups@[g].bands@[i]]
        0 <= g < plan.groups@.len() && 0 <= i < plan.groups@[g].bands@.len()
            ==> source.bands@.contains_key(plan.bands@[plan.groups@[g].bands@[i] as int].param)
}

/// The fault names the first band the source says nothing of.
pub open spec fn unsourced(plan: Plan, source: Source, fault: Fault) -> bool {
    exists|g: int, i: int|
        #![trigger plan.groups@[g].bands@[i]]
        0 <= g < plan.groups@.len() && 0 <= i < plan.groups@[g].bands@.len() && {
            let band = plan.bands@[plan.groups@[g].bands@[i] as int];
            &&& !source.bands@.contains_key(band.param)
            &&& fault == Fault::Residency(
                Refusal::NoBandOffset { name: band.name, param: band.param },
            )
            &&& forall|h: int, j: int|
                #![trigger plan.groups@[h].bands@[j]]
                0 <= h <= g && 0 <= j < plan.groups@[h].bands@.len() && (h < g || j < i)
                    ==> source.bands@.contains_key(
                    plan.bands@[plan.groups@[h].bands@[j] as int].param,
                )
        }
}

/// Lay every group of a plan over a store and a source.
pub fn lay_groups(plan: &Plan, source: &Source, offsets: &Vec<u64>) -> (laid: Result<Laid, Fault>)
    requires
        plan@.wf(),
        forall|b: int|
            0 <= b < plan.bands@.len() ==> (#[trigger] plan.bands@[b]).param < offsets@.len(),
    ensures
        match laid {
            Ok(laid) => {
                let views = group_views(plan.groups@);
                &&& laid_groups(*plan, *source, offsets@, laid.groups@)
                &&& laid.of_routes@ == routes_map(views, views.len())
                &&& laid.hint_of@ == hints_map(views, views.len())
                &&& laid.predicted@ == Seq::new(views.len(), |g: int| None::<Vec<Vec<u32>>>)
                &&& forall|k: u32| #[trigger] laid.of_routes@.contains_key(k) ==> laid.of_routes@[k]
                    < views.len()
            },
            Err(fault) => unsourced(*plan, *source, fault),
        },
        laid is Ok <==> sourced(*plan, *source),
{
    let ghost views = group_views(plan.groups@);
    let mut groups: Vec<Group> = Vec::new();
    let mut of_routes: BTreeMap<u32, usize> = BTreeMap::new();
    let mut hint_of: BTreeMap<u32, ValueId> = BTreeMap::new();
    let mut predicted: Vec<Option<Vec<Vec<u32>>>> = Vec::new();
    let mut g: usize = 0;
    proof {
        assert(of_routes@ =~= Map::<u32, usize>::empty());
        assert(hint_of@ =~= Map::<u32, ValueId>::empty());
    }
    while g < plan.groups.len()
        invariant
            plan@.wf(),
            views == group_views(plan.groups@),
            forall|b: int|
                0 <= b < plan.bands@.len() ==> (#[trigger] plan.bands@[b]).param
                    < offsets@.len(),
            g <= plan.groups@.len(),
            groups@.len() == g,
            predicted@.len() == g,
            forall|h: int| 0 <= h < g ==> #[trigger] predicted@[h] is None,
            of_routes@ == routes_map(views, g as nat),
            hint_of@ == hints_map(views, g as nat),
            forall|h: int|
                0 <= h < g ==> {
                    &&& (#[trigger] groups@[h]).wf()
                    &&& groups@[h].experts == views[h].experts
                    &&& groups@[h].bands@.len() == views[h].bands.len()
                    &&& groups@[h].seat_of@ == Seq::new(
                        views[h].experts as nat,
                        |e: int| None::<u32>,
                    )
                    &&& groups@[h].ever@ == Seq::new(views[h].experts as nat, |e: int| false)
                },
            forall|h: int, i: int|
                0 <= h < g && 0 <= i < views[h].bands.len()
                    ==> #[trigger] groups@[h].bands@[i] == laid(
                    plan.bands@[views[h].bands[i] as int],
                    offsets@,
                    source.bands@,
                ),
            forall|h: int, i: int|
                0 <= h < g && 0 <= i < views[h].bands.len() ==> source.bands@.contains_key(
                    plan.bands@[(#[trigger] plan.groups@[h].bands@[i]) as int].param,
                ),
        decreases plan.groups@.len() - g,
    {
        let group = &plan.groups[g];
        assert(views[g as int] == group@);
        let bands: Vec<Band> = match lay_group(plan, g, source, offsets) {
            Ok(bands) => bands,
            Err(why) => {
                return Err(why);
            },
        };
        of_routes.insert(group.routes.0, g);
        if let Some(hint) = group.hint {
            hint_of.insert(group.routes.0, hint);
        }
        predicted.push(None);
        assert(plan@.groups[g as int].bands.len() > 0);
        groups.push(
            Group {
                experts: group.experts,
                bands,
                seat_of: nobody(group.experts),
                ever: never(group.experts),
            },
        );
        g += 1;
    }
    proof {
        lemma_routes_map(views, views.len());
        assert(predicted@ =~= Seq::new(views.len(), |g: int| None::<Vec<Vec<u32>>>));
        assert forall|a: int, i: int|
            #![trigger plan.groups@[a].bands@[i]]
            0 <= a < plan.groups@.len() && 0 <= i < plan.groups@[a].bands@.len() implies source.bands@.contains_key(
            plan.bands@[plan.groups@[a].bands@[i] as int].param,
        ) by {
            assert(views[a] == plan.groups@[a]@);
        }
    }
    Ok(Laid { groups, of_routes, hint_of, predicted })
}

impl Tier {
    /// A tier over a plan: its seats at `offsets` in the store, its experts'
    /// bytes in `source`. `tables` is where this load's seat tables start in
    /// the store: one of `experts` words per group, saying where each expert
    /// sits. Every cut rewrites its group's before the matmuls read it.
    pub fn open(
        plan: &Plan,
        source: &Source,
        offsets: &Vec<u64>,
        tables: u64,
        align: u64,
        prefetch: bool,
        prefetch_k: Option<usize>,
    ) -> (tier: Result<Tier, Fault>)
        requires
            plan@.wf(),
            align > 0,
            plan.table_stride(align) <= u64::MAX,
            forall|b: int|
                0 <= b < plan.bands@.len() ==> (#[trigger] plan.bands@[b]).param < offsets@.len(),
        ensures
            match tier {
                Ok(tier) => {
                    let groups = group_views(plan.groups@);
                    &&& tier.wf()
                    &&& tier.tally.fresh(plan.knobs.report_every)
                    &&& tier@ == opened(*plan, tier.tally)
                    &&& tier.seats.pool.slots == plan.slots
                    &&& laid_groups(*plan, *source, offsets@, tier.seats.groups@)
                    &&& tier.terms.of_routes@ == routes_map(groups, groups.len())
                    &&& tier.terms.hint_of@ == hints_map(groups, groups.len())
                    &&& tier.terms.prefill_min == if plan.ring > 0 { plan.prefill_min } else { 0 }
                    &&& tier.terms.per_slot == plan.per_slot
                    &&& tier.terms.pairs == plan.pairs
                    &&& tier.terms.policy == plan.policy
                    &&& tier.terms.tables == (tables, plan.table_stride(align) as u64)
                    &&& tier.terms.filed == source.filed
                    &&& tier.terms.prefetch == prefetch
                    &&& tier.terms.prefetch_k == match prefetch_k {
                        Some(k) => k,
                        None => PREFETCH_K,
                    }
                },
                Err(fault) => unsourced(*plan, *source, fault),
            },
            tier is Ok <==> sourced(*plan, *source),
    {
        let ghost views = group_views(plan.groups@);
        let laid: Laid = match lay_groups(plan, source, offsets) {
            Ok(laid) => laid,
            Err(why) => {
                return Err(why);
            },
        };
        let ring: Option<Ring> = if plan.ring > 0 {
            assert(views[0] == plan.groups@[0]@);
            Some(
                Ring {
                    experts: plan.groups[0].experts,
                    seats: Vec::new(),
                    holds: (None, None),
                    filling: None,
                    fills: 0,
                    copied: 0,
                    read: 0,
                    bytes: 0,
                    lookups: 0,
                    wait_ns: 0,
                },
            )
        } else {
            None
        };
        let stride: u64 = plan.seat_table_stride(align);
        let tier = Tier {
            seats: Seats { groups: laid.groups, pool: Pool::new(plan.slots), distinct: 0 },
            ring,
            tally: Tally::new(plan.knobs.report_every),
            landing: Vec::new(),
            inflight: false,
            whole: false,
            blocked: false,
            predicted: laid.predicted,
            terms: Terms {
                of_routes: laid.of_routes,
                hint_of: laid.hint_of,
                prefill_min: if plan.ring > 0 { plan.prefill_min } else { 0 },
                per_slot: plan.per_slot,
                pairs: plan.pairs,
                policy: plan.policy,
                tables: (tables, stride),
                filed: source.filed,
                prefetch,
                prefetch_k: match prefetch_k {
                    Some(k) => k,
                    None => PREFETCH_K,
                },
            },
        };
        proof {
            lemma_unseated(views, plan.slots);
            let said = opened(*plan, tier.tally);
            assert(tier@.seats.seat_of =~= said.seats.seat_of);
            assert(tier@.seats.ever =~= said.seats.ever);
            assert(tier@.predicted =~= said.predicted);
            if plan.ring > 0 {
                assert(tier@.ring->0.seats =~= Seq::<u32>::empty());
                assert forall|h: int| 0 <= h < tier@.seats.seat_of.len() implies (#[trigger] tier@.seats.seat_of[h]).len()
                    == plan.groups@[0].experts by {
                    assert(plan@.groups[h].experts == plan@.groups[0].experts);
                    assert(views[h].experts == views[0].experts);
                }
            }
            assert(tier@ =~= said);
            assert(tier@.wf());
        }
        Ok(tier)
    }
}

} // verus!
