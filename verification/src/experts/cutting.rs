//! Where a streamed load cuts its command buffers.

use vstd::prelude::*;

use crate::cuts::{a_cut_serves_one_value, scan, Scan};
use crate::experts::plan::Plan;
use crate::experts::trace::GroupPlan;
use crate::fault::{Fault, Refusal};
use crate::trace::{Region, Trace, ValueId};

verus! {

/// Whether some group streams by this routing vector.
pub open spec fn streams_by(groups: Seq<GroupPlan>, routes: ValueId) -> bool {
    exists|g: int| 0 <= g < groups.len() && (#[trigger] groups[g]).routes == routes
}

/// What the nodes of a region show: the routing vectors its routers write,
/// of those some group streams by.
pub open spec fn routed(trace: Trace, groups: Seq<GroupPlan>, nodes: Seq<u32>) -> Seq<Option<ValueId>> {
    Seq::new(
        nodes.len(),
        |i: int|
            if nodes[i] < trace.nodes@.len() {
                match trace.router_at(nodes[i] as int) {
                    Some(router) => if streams_by(groups, router.routes) {
                        Some(router.routes)
                    } else {
                        None
                    },
                    None => None,
                }
            } else {
                None
            },
    )
}

fn group_streams(groups: &Vec<GroupPlan>, routes: ValueId) -> (streams: bool)
    ensures
        streams == streams_by(groups@, routes),
{
    let mut g: usize = 0;
    while g < groups.len()
        invariant
            g <= groups@.len(),
            forall|h: int| 0 <= h < g ==> (#[trigger] groups@[h]).routes != routes,
        decreases groups@.len() - g,
    {
        if groups[g].routes == routes {
            assert(groups@[g as int].routes == routes);
            return true;
        }
        g += 1;
    }
    false
}

/// Where a streamed load cuts each region: behind its router, of which it
/// may hold one.
pub fn cuts(trace: &Trace, template: &Vec<Region>, plan: &Plan) -> (cuts: Result<
    Vec<Option<ValueId>>,
    Fault,
>)
    ensures
        match cuts {
            Ok(cuts) => {
                &&& cuts@.len() == template@.len()
                &&& forall|at: int|
                    0 <= at < template@.len() ==> {
                        let s = scan(
                            routed(*trace, plan.groups@, (#[trigger] template@[at]).nodes@),
                        );
                        &&& plan.bands@.len() > 0 ==> s.clash is None
                        &&& cuts@[at] == s.first
                    }
            },
            Err(fault) => plan.bands@.len() > 0 && exists|at: int|
                0 <= at < template@.len() && {
                    let s = scan(
                        routed(*trace, plan.groups@, (#[trigger] template@[at]).nodes@),
                    );
                    &&& s.clash is Some
                    &&& fault == Fault::Residency(
                        Refusal::TwoRouters {
                            region: at as usize,
                            first: s.two().0,
                            second: s.two().1,
                        },
                    )
                    &&& forall|b: int|
                        0 <= b < at ==> scan(
                            routed(*trace, plan.groups@, (#[trigger] template@[b]).nodes@),
                        ).clash is None
                },
        },
{
    let streams: bool = plan.streams();
    let mut cuts: Vec<Option<ValueId>> = Vec::new();
    let mut at: usize = 0;
    while at < template.len()
        invariant
            streams == (plan.bands@.len() > 0),
            at <= template@.len(),
            cuts@.len() == at,
            forall|b: int|
                0 <= b < at ==> {
                    let s = scan(routed(*trace, plan.groups@, (#[trigger] template@[b]).nodes@));
                    &&& streams ==> s.clash is None
                    &&& cuts@[b] == s.first
                },
        decreases template@.len() - at,
    {
        let nodes = &template[at].nodes;
        let ghost all = routed(*trace, plan.groups@, nodes@);
        let mut here = Scan { first: None, clash: None };
        let mut i: usize = 0;
        assert(all.take(0) =~= Seq::<Option<ValueId>>::empty());
        while i < nodes.len()
            invariant
                i <= nodes@.len(),
                all == routed(*trace, plan.groups@, nodes@),
                here == scan(all.take(i as int)),
            decreases nodes@.len() - i,
        {
            assert(all.take(i + 1).drop_last() =~= all.take(i as int));
            let node: usize = nodes[i] as usize;
            if node < trace.nodes.len() {
                if let Some(router) = trace.nodes[node].router() {
                    if group_streams(&plan.groups, router.routes) {
                        here.see(router.routes);
                    }
                }
            }
            i += 1;
        }
        assert(all.take(all.len() as int) =~= all);
        proof {
            a_cut_serves_one_value(all);
        }
        if streams {
            if let Some(second) = here.clash {
                let first: u32 = match here.first {
                    Some(first) => first.0,
                    None => 0,
                };
                assert(template@[at as int].nodes@ == nodes@);
                return Err(
                    Fault::Residency(Refusal::TwoRouters { region: at, first, second: second.0 }),
                );
            }
        }
        cuts.push(here.first);
        at += 1;
    }
    Ok(cuts)
}

} // verus!
