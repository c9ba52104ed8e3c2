//! Opening a tier in passes over a plan, and the plan it opens over.

use vstd::prelude::*;

use crate::experts::opening::{
    hints_map, laid_groups, lay_groups, routes_map, sourced, unsourced, Laid, PREFETCH_K,
};
use crate::experts::plan::{countable, drawn, Knobs, Plan, PlanView, Policy};
use crate::experts::seats::lemma_nobody_seen;
use crate::experts::source::Source;
use crate::experts::tally::Prediction;
use crate::experts::trace::{group_views, planes_wf, Attachments, GroupView};
use crate::fault::Fault;
use crate::gather;
use crate::passing::passes::Passing;
use crate::passing::room::{Pool, Room, RoomView};
use crate::passing::tier::{Counts, Terms, Tier, TierView};
use crate::trace::Trace;
use crate::weights::Weights;

verus! {

/// Nothing counted yet.
pub open spec fn zero() -> Counts {
    Counts {
        swaps: 0,
        segments: 0,
        hits: 0,
        misses: 0,
        bytes_read: 0,
        cut_ns: 0,
        copy_ns: 0,
        wait_ns: 0,
        gpu_ns: 0,
        prediction: Prediction {
            total: 0,
            covered: [0, 0, 0, 0],
            misses: 0,
            saved: [0, 0, 0, 0],
            prefetched: 0,
        },
    }
}

/// Every seat empty: an expert is read the first time a router names it, and
/// not before.
pub open spec fn unseated(groups: Seq<GroupView>, slots: u32) -> RoomView {
    RoomView {
        in_seat: Seq::new(slots as nat, |s: int| None),
        pinned: Seq::new(slots as nat, |s: int| false),
        last_used: Seq::new(slots as nat, |s: int| 0),
        seat_of: Seq::new(
            groups.len(),
            |g: int| Seq::new(groups[g].experts as nat, |e: int| None),
        ),
        ever: Seq::new(
            groups.len(),
            |g: int| Seq::new(groups[g].experts as nat, |e: int| false),
        ),
        distinct: 0,
        tick: 1,
    }
}

/// A tier as it opens.
pub open spec fn opened(plan: Plan) -> TierView {
    let groups = group_views(plan.groups@);
    TierView {
        room: unseated(groups, plan.slots),
        pending: Seq::empty(),
        counts: zero(),
        inflight: false,
        predicted: Seq::new(groups.len(), |g: int| None),
        passing: Seq::new(groups.len(), |g: int| None),
    }
}

/// The plan of a load whose segments run in passes over a pool under this
/// policy, beside what it gathers, with this much memory free on the host.
/// `half` says whether a pass takes half the pool.
pub fn plan_under(
    trace: &Trace,
    planes: &Attachments,
    weights: &Weights,
    policy: Policy,
    half: bool,
    gathered: gather::plan::Plan,
    free: Option<u64>,
) -> (plan: Result<Plan, Fault>)
    requires
        trace.wf(),
        planes_wf(*trace, planes@),
        weights.align > 0,
        weights.bytes@.len() == trace.params@.len(),
        countable(
            *trace,
            planes@,
            *weights,
            policy,
            None,
            Some(half),
            gathered.held(),
            free,
        ),
    ensures
        ({
            let said = drawn(
                *trace,
                planes@,
                *weights,
                policy,
                None,
                Some(half),
                gathered.held(),
                free,
            );
            match plan {
                Ok(plan) => {
                    &&& said == Ok::<PlanView, Fault>(plan@)
                    &&& plan@.wf()
                    &&& plan.knobs.policy == policy
                    &&& plan.gathered == gathered
                },
                Err(fault) => said == Err::<PlanView, Fault>(fault),
            }
        }),
{
    Plan::draw(trace, planes, weights, Knobs::under(policy), Some(half), gathered, free)
}

/// A room nobody sits in is in order.
proof fn lemma_unseated(groups: Seq<GroupView>, slots: u32)
    requires
        groups.len() <= u32::MAX,
    ensures
        unseated(groups, slots).inv(),
{
    let v = unseated(groups, slots);
    assert forall|g: int, e: int| v.names(g, e) implies (#[trigger] v.seat(g, e) matches Some(s) ==> {
        &&& s < v.in_seat.len()
        &&& v.in_seat[s as int] == Some((g as u32, e as u32))
    }) by {
        assert(v.seat(g, e) is None);
    }
    lemma_nobody_seen(v.ever);
}

impl Tier {
    /// A tier in passes over a plan: its seats at `offsets` in the store, its
    /// experts' bytes in `source`.
    pub fn open(
        plan: &Plan,
        source: &Source,
        offsets: &Vec<u64>,
        half: bool,
        prefetch: bool,
        prefetch_k: Option<usize>,
    ) -> (tier: Result<Tier, Fault>)
        requires
            plan@.wf(),
            forall|b: int|
                0 <= b < plan.bands@.len() ==> (#[trigger] plan.bands@[b]).param < offsets@.len(),
        ensures
            match tier {
                Ok(tier) => {
                    let groups = group_views(plan.groups@);
                    &&& tier.wf()
                    &&& tier@ == opened(*plan)
                    &&& tier.room.pool.slots == plan.slots
                    &&& laid_groups(*plan, *source, offsets@, tier.room.groups@)
                    &&& tier.terms.of_routes@ == routes_map(groups, groups.len())
                    &&& tier.terms.hint_of@ == hints_map(groups, groups.len())
                    &&& tier.terms.per_slot == plan.per_slot
                    &&& tier.terms.pairs == plan.pairs
                    &&& tier.terms.policy == plan.policy
                    &&& tier.terms.filed == source.filed
                    &&& tier.terms.prefetch == prefetch
                    &&& tier.terms.prefetch_k == match prefetch_k {
                        Some(k) => k,
                        None => PREFETCH_K,
                    }
                    &&& tier.terms.half == half
                },
                Err(fault) => unsourced(*plan, *source, fault),
            },
            tier is Ok <==> sourced(*plan, *source),
    {
        let ghost views = group_views(plan.groups@);
        let laid: Laid = match lay_groups(plan, source, offsets) {
            Ok(laid) => laid,
            Err(why) => {
                return Err(why);
            },
        };
        let n: usize = laid.groups.len();
        let mut passing: Vec<Option<Passing>> = Vec::new();
        while passing.len() < n
            invariant
                passing@.len() <= n,
                forall|g: int| 0 <= g < passing@.len() ==> #[trigger] passing@[g] is None,
            decreases n - passing@.len(),
        {
            passing.push(None);
        }
        let tier = Tier {
            room: Room { groups: laid.groups, pool: Pool::new(plan.slots), distinct: 0, tick: 1 },
            pending: Vec::new(),
            counts: Counts {
                swaps: 0,
                segments: 0,
                hits: 0,
                misses: 0,
                bytes_read: 0,
                cut_ns: 0,
                copy_ns: 0,
                wait_ns: 0,
                gpu_ns: 0,
                prediction: Prediction {
                    total: 0,
                    covered: [0, 0, 0, 0],
                    misses: 0,
                    saved: [0, 0, 0, 0],
                    prefetched: 0,
                },
            },
            inflight: false,
            predicted: laid.predicted,
            passing,
            terms: Terms {
                of_routes: laid.of_routes,
                hint_of: laid.hint_of,
                per_slot: plan.per_slot,
                pairs: plan.pairs,
                policy: plan.policy,
                filed: source.filed,
                prefetch,
                prefetch_k: match prefetch_k {
                    Some(k) => k,
                    None => PREFETCH_K,
                },
                half,
            },
        };
        proof {
            lemma_unseated(views, plan.slots);
            let said = opened(*plan);
            assert(tier@.room.seat_of =~= said.room.seat_of);
            assert(tier@.room.ever =~= said.room.ever);
            assert(tier@.predicted =~= said.predicted);
            assert(tier@.passing =~= said.passing);
            assert(tier@ =~= said);
            assert(tier@.wf());
        }
        Ok(tier)
    }
}

} // verus!
