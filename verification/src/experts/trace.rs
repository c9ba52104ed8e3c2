//! Reading the model trace for routed groups.

use std::collections::BTreeMap;
use vstd::prelude::*;

use crate::experts::plan::BandPlan;
use crate::fault::{Fault, Name, Refusal, Why};
use crate::trace::{Reader, Router, Trace, ValueId};

verus! {

/// The companion planes of a plane: its scales, its zero points.
pub type Attachments = BTreeMap<usize, Vec<usize>>;

/// One router's mixture, as planned.
#[derive(Debug, Clone)]
pub struct GroupPlan {
    pub routes: ValueId,
    pub experts: u32,
    pub slots: u32,
    pub bands: Vec<usize>,
    pub hint: Option<ValueId>,
}

pub struct GroupView {
    pub routes: ValueId,
    pub experts: u32,
    pub slots: u32,
    pub bands: Seq<usize>,
    pub hint: Option<ValueId>,
}

impl View for GroupPlan {
    type V = GroupView;

    open spec fn view(&self) -> GroupView {
        GroupView {
            routes: self.routes,
            experts: self.experts,
            slots: self.slots,
            bands: self.bands@,
            hint: self.hint,
        }
    }
}

pub open spec fn group_views(groups: Seq<GroupPlan>) -> Seq<GroupView> {
    Seq::new(groups.len(), |g: int| groups[g]@)
}

/// Every companion plane is a declared parameter.
pub open spec fn planes_wf(trace: Trace, planes: Map<usize, Vec<usize>>) -> bool {
    forall|k: usize, j: int|
        planes.contains_key(k) && 0 <= j < planes[k]@.len() ==> #[trigger] planes[k]@[j]
            < trace.params@.len()
}

/// The expert count each routing vector's last router declares, of the
/// first `n` nodes.
pub open spec fn arity(trace: Trace, n: nat) -> Map<u32, u32>
    decreases n,
{
    if n == 0 {
        Map::empty()
    } else {
        match trace.router_at(n - 1) {
            Some(r) => arity(trace, (n - 1) as nat).insert(r.routes.0, r.experts),
            None => arity(trace, (n - 1) as nat),
        }
    }
}

/// The routing vectors in the order their routers first write them.
pub open spec fn order(trace: Trace, n: nat) -> Seq<ValueId>
    decreases n,
{
    if n == 0 {
        Seq::empty()
    } else {
        let o = order(trace, (n - 1) as nat);
        match trace.router_at(n - 1) {
            Some(r) => if arity(trace, (n - 1) as nat).contains_key(r.routes.0) {
                o
            } else {
                o.push(r.routes)
            },
            None => o,
        }
    }
}

/// The value each routing vector's prediction is read from.
pub open spec fn hints(trace: Trace, n: nat) -> Map<u32, ValueId>
    decreases n,
{
    if n == 0 {
        Map::empty()
    } else {
        match trace.router_at(n - 1) {
            Some(Router { routes, hint: Some(hint), .. }) => hints(trace, (n - 1) as nat).insert(
                routes.0,
                hint,
            ),
            _ => hints(trace, (n - 1) as nat),
        }
    }
}

/// Whether indexing `id` indexes parameter `p`: its own weight, and every
/// plane attached to that.
pub open spec fn indexes(trace: Trace, planes: Map<usize, Vec<usize>>, id: ValueId, p: int) -> bool {
    trace.weight(id) matches Some(w) && {
        ||| p == w
        ||| attached(planes, w, p)
    }
}

pub open spec fn attached(planes: Map<usize, Vec<usize>>, w: int, p: int) -> bool {
    planes.contains_key(w as usize) && planes[w as usize]@.contains(p as usize)
}

/// Whether a reader indexes parameter `p`.
pub open spec fn touches(trace: Trace, planes: Map<usize, Vec<usize>>, reader: Reader, p: int) -> bool {
    ||| indexes(trace, planes, reader.first, p)
    ||| reader.second matches Some(id) && indexes(trace, planes, id, p)
}

/// Whether node `i` indexes parameter `p` by a routing vector.
pub open spec fn reads(trace: Trace, planes: Map<usize, Vec<usize>>, i: int, p: int) -> bool {
    trace.reader_at(i) matches Some(reader) && touches(trace, planes, reader, p)
}

/// Who indexes a parameter.
#[derive(Debug, Clone, Copy, PartialEq, Eq, Structural)]
pub enum Owner {
    Nobody,
    One(ValueId),
    Many,
}

impl Owner {
    pub open spec fn and(self, routes: ValueId) -> Owner {
        match self {
            Owner::Nobody => Owner::One(routes),
            Owner::One(other) => if other == routes {
                self
            } else {
                Owner::Many
            },
            Owner::Many => Owner::Many,
        }
    }
}

/// Who indexes parameter `p` among the first `n` nodes.
pub open spec fn owner(trace: Trace, planes: Map<usize, Vec<usize>>, p: int, n: nat) -> Owner
    decreases n,
{
    if n == 0 {
        Owner::Nobody
    } else {
        let o = owner(trace, planes, p, (n - 1) as nat);
        if reads(trace, planes, n - 1, p) {
            o.and(trace.reader_at(n - 1)->0.routes)
        } else {
            o
        }
    }
}

/// The parameters below `p` that one routing vector alone indexes, in order.
pub open spec fn owned(trace: Trace, planes: Map<usize, Vec<usize>>, routes: ValueId, p: nat) -> Seq<usize>
    decreases p,
{
    if p == 0 {
        Seq::empty()
    } else {
        let o = owned(trace, planes, routes, (p - 1) as nat);
        if owner(trace, planes, p - 1, trace.nodes@.len()) == Owner::One(routes) {
            o.push((p - 1) as usize)
        } else {
            o
        }
    }
}

/// Why node `i` cannot be read by, if it cannot.
pub open spec fn read_fault(trace: Trace, i: int) -> Option<Fault> {
    match trace.reader_at(i) {
        None => None,
        Some(reader) => if !arity(trace, trace.nodes@.len()).contains_key(reader.routes.0) {
            Some(
                Fault::Residency(
                    Refusal::NoRouter { value: reader.routes.0, op: trace.nodes@[i].name },
                ),
            )
        } else if trace.weight(reader.first) is None {
            Some(Fault::Param { name: Name::Value(reader.first.0), why: Why::BandNotWeight })
        } else {
            match reader.second {
                Some(id) => if trace.weight(id) is None {
                    Some(Fault::Param { name: Name::Value(id.0), why: Why::BandNotWeight })
                } else {
                    None
                },
                None => None,
            }
        },
    }
}

/// The first such fault among the first `n` nodes.
pub open spec fn first_read_fault(trace: Trace, n: nat) -> Option<Fault>
    decreases n,
{
    if n == 0 {
        None
    } else if first_read_fault(trace, (n - 1) as nat) is Some {
        first_read_fault(trace, (n - 1) as nat)
    } else {
        read_fault(trace, n - 1)
    }
}

/// The expert axis a plane declares; one too long for a count is none.
pub open spec fn leading(shape: Seq<u64>) -> int {
    if shape.len() == 0 || shape[0] > u32::MAX {
        0
    } else {
        shape[0] as int
    }
}

/// Why parameter `p` cannot be a band of `experts` equal experts.
pub open spec fn band_fault(trace: Trace, bytes: Seq<u64>, p: int, experts: u32) -> Option<Fault> {
    let param = trace.params@[p];
    if leading(param.shape@) != experts || param.shape@.len() < 2 {
        Some(Fault::Param { name: Name::Param(param.name), why: Why::BandShape })
    } else if bytes[p] == 0 || experts == 0 || bytes[p] as int % experts as int != 0 {
        Some(Fault::Param { name: Name::Param(param.name), why: Why::BandBytes })
    } else {
        None
    }
}

/// What was found: the bands, the groups over them, the one expert count
/// they share, or the fault that ended the search.
pub struct Found {
    pub bands: Seq<BandPlan>,
    pub groups: Seq<GroupView>,
    pub declared: Option<u32>,
    pub fault: Option<Fault>,
}

/// `found` with the first `k` of `params` made bands of its next group.
pub open spec fn with_bands(
    found: Found,
    trace: Trace,
    bytes: Seq<u64>,
    params: Seq<usize>,
    experts: u32,
    k: nat,
) -> Found
    decreases k,
{
    if k == 0 {
        found
    } else {
        let f = with_bands(found, trace, bytes, params, experts, (k - 1) as nat);
        let p = params[k - 1];
        if f.fault is Some {
            f
        } else if band_fault(trace, bytes, p as int, experts) is Some {
            Found { fault: band_fault(trace, bytes, p as int, experts), ..f }
        } else {
            Found {
                bands: f.bands.push(
                    BandPlan {
                        param: p,
                        name: trace.params@[p as int].name,
                        experts,
                        slots: experts,
                        stride: (bytes[p as int] as int / experts as int) as u64,
                        group: found.groups.len() as usize,
                    },
                ),
                ..f
            }
        }
    }
}

/// `found` with the group of one more routing vector.
pub open spec fn with_group(
    found: Found,
    trace: Trace,
    planes: Map<usize, Vec<usize>>,
    bytes: Seq<u64>,
    routes: ValueId,
) -> Found {
    let n = trace.nodes@.len();
    let params = owned(trace, planes, routes, trace.params@.len());
    let experts = arity(trace, n)[routes.0];
    if found.fault is Some || params.len() == 0 {
        found
    } else if found.declared is Some && found.declared != Some(experts) {
        Found {
            fault: Some(
                Fault::Param {
                    name: Name::Param(trace.params@[params[0] as int].name),
                    why: Why::ArityDiffers,
                },
            ),
            ..found
        }
    } else {
        let f = with_bands(
            Found { declared: Some(experts), ..found },
            trace,
            bytes,
            params,
            experts,
            params.len(),
        );
        if f.fault is Some {
            f
        } else {
            Found {
                groups: f.groups.push(
                    GroupView {
                        routes,
                        experts,
                        slots: experts,
                        bands: Seq::new(params.len(), |i: int| (found.bands.len() + i) as usize),
                        hint: if hints(trace, n).contains_key(routes.0) {
                            Some(hints(trace, n)[routes.0])
                        } else {
                            None
                        },
                    },
                ),
                ..f
            }
        }
    }
}

/// What the first `k` routing vectors' groups come to.
pub open spec fn grouped(
    trace: Trace,
    planes: Map<usize, Vec<usize>>,
    bytes: Seq<u64>,
    k: nat,
) -> Found
    decreases k,
{
    if k == 0 {
        Found { bands: Seq::empty(), groups: Seq::empty(), declared: None, fault: None }
    } else {
        with_group(
            grouped(trace, planes, bytes, (k - 1) as nat),
            trace,
            planes,
            bytes,
            order(trace, trace.nodes@.len())[k - 1],
        )
    }
}

/// The routed groups of a trace, or why there are none to be had.
pub open spec fn all_found(trace: Trace, planes: Map<usize, Vec<usize>>, bytes: Seq<u64>) -> Found {
    let n = trace.nodes@.len();
    match first_read_fault(trace, n) {
        Some(fault) => Found {
            bands: Seq::empty(),
            groups: Seq::empty(),
            declared: None,
            fault: Some(fault),
        },
        None => grouped(trace, planes, bytes, order(trace, n).len()),
    }
}

/// The width a router fans a row out to: its first node's.
pub open spec fn fan(trace: Trace, routes: ValueId, n: nat) -> Option<u32>
    decreases n,
{
    if n == 0 {
        None
    } else if fan(trace, routes, (n - 1) as nat) is Some {
        fan(trace, routes, (n - 1) as nat)
    } else {
        match trace.router_at(n - 1) {
            Some(r) => if r.routes == routes {
                Some(r.top_k)
            } else {
                None
            },
            None => None,
        }
    }
}

/// How many experts the router of `routes` names for one row.
pub fn fan_out(trace: &Trace, routes: ValueId) -> (top_k: Option<u32>)
    ensures
        top_k == fan(*trace, routes, trace.nodes@.len()),
{
    let mut i: usize = 0;
    while i < trace.nodes.len()
        invariant
            i <= trace.nodes@.len(),
            fan(*trace, routes, i as nat) is None,
        decreases trace.nodes@.len() - i,
    {
        if let Some(router) = trace.nodes[i].router() {
            if router.routes == routes {
                proof {
                    lemma_fan_stays(*trace, routes, (i + 1) as nat, trace.nodes@.len());
                }
                return Some(router.top_k);
            }
        }
        i += 1;
    }
    None
}

proof fn lemma_fan_stays(trace: Trace, routes: ValueId, n: nat, m: nat)
    requires
        n <= m,
        fan(trace, routes, n) is Some,
    ensures
        fan(trace, routes, m) == fan(trace, routes, n),
    decreases m,
{
    if n < m {
        lemma_fan_stays(trace, routes, n, (m - 1) as nat);
    }
}

/// The parameter a routed matmul indexes, which only a weight is.
pub fn weight_of(trace: &Trace, id: ValueId) -> (param: Result<usize, Fault>)
    ensures
        match param {
            Ok(w) => trace.weight(id) == Some(w as int),
            Err(fault) => trace.weight(id) is None && fault == (Fault::Param {
                name: Name::Value(id.0),
                why: Why::BandNotWeight,
            }),
        },
{
    match trace.weight_at(id) {
        Some(w) => Ok(w),
        None => Err(Fault::Param { name: Name::Value(id.0), why: Why::BandNotWeight }),
    }
}

/// Every router of a trace: how many experts each routing vector is over,
/// the order they come in, and where their predictions are read.
fn routers(trace: &Trace) -> (said: (BTreeMap<u32, u32>, Vec<ValueId>, BTreeMap<u32, ValueId>))
    ensures
        said.0@ == arity(*trace, trace.nodes@.len()),
        said.1@ == order(*trace, trace.nodes@.len()),
        said.2@ == hints(*trace, trace.nodes@.len()),
{
    let mut counts: BTreeMap<u32, u32> = BTreeMap::new();
    let mut hinted: BTreeMap<u32, ValueId> = BTreeMap::new();
    let mut seen: Vec<ValueId> = Vec::new();
    let mut i: usize = 0;
    proof {
        assert(counts@ =~= Map::<u32, u32>::empty());
        assert(hinted@ =~= Map::<u32, ValueId>::empty());
    }
    while i < trace.nodes.len()
        invariant
            i <= trace.nodes@.len(),
            counts@ == arity(*trace, i as nat),
            seen@ == order(*trace, i as nat),
            hinted@ == hints(*trace, i as nat),
        decreases trace.nodes@.len() - i,
    {
        if let Some(router) = trace.nodes[i].router() {
            if let Some(hint) = router.hint {
                hinted.insert(router.routes.0, hint);
            }
            if counts.insert(router.routes.0, router.experts).is_none() {
                seen.push(router.routes);
            }
        }
        i += 1;
    }
    (counts, seen, hinted)
}

/// Say that `routes` indexes parameter `w` and every plane attached to it.
fn mark(owners: &mut Vec<Owner>, planes: &Attachments, w: usize, routes: ValueId)
    requires
        w < old(owners)@.len(),
        forall|k: usize, j: int|
            planes@.contains_key(k) && 0 <= j < planes@[k]@.len() ==> #[trigger] planes@[k]@[j]
                < old(owners)@.len(),
    ensures
        final(owners)@.len() == old(owners)@.len(),
        forall|p: int|
            0 <= p < old(owners)@.len() ==> #[trigger] final(owners)@[p] == if p == w || attached(
                planes@,
                w as int,
                p,
            ) {
                old(owners)@[p].and(routes)
            } else {
                old(owners)@[p]
            },
{
    let n: usize = owners.len();
    let was: Owner = owners[w];
    owners.set(w, joined_by(was, routes));
    if let Some(companions) = planes.get(&w) {
        let ghost all = companions@;
        let mut j: usize = 0;
        while j < companions.len()
            invariant
                j <= companions@.len(),
                n == old(owners)@.len(),
                all == companions@,
                planes@.contains_key(w),
                all == planes@[w]@,
                forall|k: usize, j: int|
                    planes@.contains_key(k) && 0 <= j < planes@[k]@.len() ==> #[trigger] planes@[k]@[j]
                        < old(owners)@.len(),
                owners@.len() == old(owners)@.len(),
                forall|p: int|
                    0 <= p < old(owners)@.len() ==> #[trigger] owners@[p] == if p == w || all.take(
                        j as int,
                    ).contains(p as usize) {
                        old(owners)@[p].and(routes)
                    } else {
                        old(owners)@[p]
                    },
            decreases companions@.len() - j,
        {
            let p: usize = companions[j];
            assert(planes@[w]@[j as int] < old(owners)@.len());
            let was: Owner = owners[p];
            owners.set(p, joined_by(was, routes));
            proof {
                assert forall|q: usize| #[trigger] all.take(j + 1).contains(q) <==> all.take(
                    j as int,
                ).contains(q) || q == p by {
                    let head = all.take(j as int);
                    let more = all.take(j + 1);
                    assert(more[j as int] == p);
                    if head.contains(q) {
                        assert(more[head.index_of(q)] == q);
                    }
                    if more.contains(q) && q != p {
                        assert(head[more.index_of(q)] == q);
                    }
                }
            }
            j += 1;
        }
        assert(all.take(all.len() as int) =~= all);
    }
}

fn joined_by(owner: Owner, routes: ValueId) -> (now: Owner)
    ensures
        now == owner.and(routes),
{
    match owner {
        Owner::Nobody => Owner::One(routes),
        Owner::One(other) => if other == routes {
            owner
        } else {
            Owner::Many
        },
        Owner::Many => Owner::Many,
    }
}

/// Who indexes every parameter, or the first read that cannot be.
fn owners(trace: &Trace, planes: &Attachments, counts: &BTreeMap<u32, u32>) -> (owners: Result<
    Vec<Owner>,
    Fault,
>)
    requires
        trace.wf(),
        planes_wf(*trace, planes@),
        counts@ == arity(*trace, trace.nodes@.len()),
    ensures
        match owners {
            Ok(owners) => {
                &&& first_read_fault(*trace, trace.nodes@.len()) is None
                &&& owners@.len() == trace.params@.len()
                &&& forall|p: int|
                    0 <= p < owners@.len() ==> #[trigger] owners@[p] == owner(
                        *trace,
                        planes@,
                        p,
                        trace.nodes@.len(),
                    )
            },
            Err(fault) => first_read_fault(*trace, trace.nodes@.len()) == Some(fault),
        },
{
    let n: usize = trace.params.len();
    let mut owners: Vec<Owner> = Vec::new();
    let mut p: usize = 0;
    while p < n
        invariant
            p <= n,
            owners@.len() == p,
            forall|q: int| 0 <= q < p ==> #[trigger] owners@[q] == Owner::Nobody,
        decreases n - p,
    {
        owners.push(Owner::Nobody);
        p += 1;
    }
    let mut i: usize = 0;
    while i < trace.nodes.len()
        invariant
            trace.wf(),
            planes_wf(*trace, planes@),
            counts@ == arity(*trace, trace.nodes@.len()),
            n == trace.params@.len(),
            i <= trace.nodes@.len(),
            first_read_fault(*trace, i as nat) is None,
            owners@.len() == n,
            forall|p: int|
                0 <= p < n ==> #[trigger] owners@[p] == owner(*trace, planes@, p, i as nat),
        decreases trace.nodes@.len() - i,
    {
        let ghost before = owners@;
        if let Some(reader) = trace.nodes[i].reader() {
            if !counts.contains_key(&reader.routes.0) {
                let op = trace.nodes[i].name.clone();
                proof {
                    lemma_read_fault_stays(*trace, (i + 1) as nat, trace.nodes@.len());
                }
                return Err(Fault::Residency(Refusal::NoRouter { value: reader.routes.0, op }));
            }
            match weight_of(trace, reader.first) {
                Ok(w) => {
                    proof {
                        lemma_weight_bound(*trace, reader.first);
                    }
                    mark(&mut owners, planes, w, reader.routes);
                },
                Err(why) => {
                    proof {
                        lemma_read_fault_stays(*trace, (i + 1) as nat, trace.nodes@.len());
                    }
                    return Err(why);
                },
            }
            let ghost between = owners@;
            if let Some(id) = reader.second {
                match weight_of(trace, id) {
                    Ok(w) => {
                        proof {
                            lemma_weight_bound(*trace, id);
                        }
                        mark(&mut owners, planes, w, reader.routes);
                    },
                    Err(why) => {
                        proof {
                            lemma_read_fault_stays(*trace, (i + 1) as nat, trace.nodes@.len());
                        }
                        return Err(why);
                    },
                }
            }
            assert forall|p: int| 0 <= p < n implies #[trigger] owners@[p] == owner(
                *trace,
                planes@,
                p,
                (i + 1) as nat,
            ) by {
                assert(before[p] == owner(*trace, planes@, p, i as nat));
                assert(between[p] == if indexes(*trace, planes@, reader.first, p) {
                    before[p].and(reader.routes)
                } else {
                    before[p]
                });
            }
        }
        i += 1;
    }
    Ok(owners)
}

proof fn lemma_weight_bound(trace: Trace, id: ValueId)
    requires
        trace.wf(),
        trace.weight(id) is Some,
    ensures
        0 <= trace.weight(id)->0 < trace.params@.len(),
{
    assert(trace.values@[id.0 as int] is Weight);
}

proof fn lemma_read_fault_stays(trace: Trace, n: nat, m: nat)
    requires
        n <= m,
        first_read_fault(trace, n) is Some,
    ensures
        first_read_fault(trace, m) == first_read_fault(trace, n),
    decreases m,
{
    if n < m {
        lemma_read_fault_stays(trace, n, (m - 1) as nat);
    }
}

/// The parameters one routing vector alone indexes, in order.
fn owned_by(owners: &Vec<Owner>, routes: ValueId, trace: &Trace, planes: &Attachments) -> (params: Vec<usize>)
    requires
        owners@.len() == trace.params@.len(),
        forall|p: int|
            0 <= p < owners@.len() ==> #[trigger] owners@[p] == owner(
                *trace,
                planes@,
                p,
                trace.nodes@.len(),
            ),
    ensures
        params@ == owned(*trace, planes@, routes, trace.params@.len()),
        forall|i: int| 0 <= i < params@.len() ==> #[trigger] params@[i] < trace.params@.len(),
{
    let mut params: Vec<usize> = Vec::new();
    let mut p: usize = 0;
    while p < owners.len()
        invariant
            owners@.len() == trace.params@.len(),
            forall|p: int|
                0 <= p < owners@.len() ==> #[trigger] owners@[p] == owner(
                    *trace,
                    planes@,
                    p,
                    trace.nodes@.len(),
                ),
            p <= owners@.len(),
            params@ == owned(*trace, planes@, routes, p as nat),
            forall|i: int| 0 <= i < params@.len() ==> #[trigger] params@[i] < trace.params@.len(),
        decreases owners@.len() - p,
    {
        if owners[p] == Owner::One(routes) {
            params.push(p);
        }
        p += 1;
    }
    params
}

/// Why parameter `p` cannot be a band of `experts` equal experts, if it
/// cannot.
fn check_band(trace: &Trace, bytes: &[u64], p: usize, experts: u32) -> (fault: Option<Fault>)
    requires
        p < trace.params@.len(),
        p < bytes@.len(),
    ensures
        fault == band_fault(*trace, bytes@, p as int, experts),
{
    let param = &trace.params[p];
    let lead: u64 = if param.shape.len() == 0 || param.shape[0] > 0xffff_ffff {
        0
    } else {
        param.shape[0]
    };
    if lead != experts as u64 || param.shape.len() < 2 {
        return Some(Fault::Param { name: Name::Param(param.name.clone()), why: Why::BandShape });
    }
    let plane: u64 = bytes[p];
    if plane == 0 || experts == 0 || plane % experts as u64 != 0 {
        return Some(Fault::Param { name: Name::Param(param.name.clone()), why: Why::BandBytes });
    }
    None
}

/// The routed groups of a trace: one per router whose vector alone indexes
/// some plane, in the order the routers come, and the planes it indexes,
/// each of them a band of equal experts. `bytes` is what every plane takes.
pub fn found(trace: &Trace, planes: &Attachments, bytes: &[u64]) -> (said: Result<
    (Vec<BandPlan>, Vec<GroupPlan>),
    Fault,
>)
    requires
        trace.wf(),
        planes_wf(*trace, planes@),
        bytes@.len() == trace.params@.len(),
    ensures
        ({
            let f = all_found(*trace, planes@, bytes@);
            match said {
                Ok((bands, groups)) => {
                    &&& f.fault is None
                    &&& bands@ == f.bands
                    &&& group_views(groups@) == f.groups
                },
                Err(fault) => f.fault == Some(fault),
            }
        }),
{
    let (counts, seen, hinted) = routers(trace);
    let owners: Vec<Owner> = match owners(trace, planes, &counts) {
        Ok(owners) => owners,
        Err(why) => {
            return Err(why);
        },
    };
    let mut bands: Vec<BandPlan> = Vec::new();
    let mut groups: Vec<GroupPlan> = Vec::new();
    let mut declared: Option<u32> = None;
    let ghost n = trace.nodes@.len();
    let mut k: usize = 0;
    proof {
        assert(group_views(groups@) =~= Seq::<GroupView>::empty());
    }
    while k < seen.len()
        invariant
            trace.wf(),
            planes_wf(*trace, planes@),
            bytes@.len() == trace.params@.len(),
            n == trace.nodes@.len(),
            counts@ == arity(*trace, n),
            seen@ == order(*trace, n),
            hinted@ == hints(*trace, n),
            owners@.len() == trace.params@.len(),
            forall|p: int|
                0 <= p < owners@.len() ==> #[trigger] owners@[p] == owner(*trace, planes@, p, n),
            first_read_fault(*trace, n) is None,
            k <= seen@.len(),
            ({
                let f = grouped(*trace, planes@, bytes@, k as nat);
                &&& f.fault is None
                &&& f.bands == bands@
                &&& f.groups == group_views(groups@)
                &&& f.declared == declared
            }),
        decreases seen@.len() - k,
    {
        let routes: ValueId = seen[k];
        let ghost f = grouped(*trace, planes@, bytes@, k as nat);
        let ghost m = grouped(*trace, planes@, bytes@, (k + 1) as nat);
        assert(m == with_group(f, *trace, planes@, bytes@, routes));
        let params: Vec<usize> = owned_by(&owners, routes, trace, planes);
        if params.len() == 0 {
            k += 1;
            continue ;
        }
        proof {
            lemma_order_counted(*trace, n, k as int);
        }
        let experts: u32 = match counts.get(&routes.0) {
            Some(experts) => *experts,
            None => 0,
        };
        if let Some(first) = declared {
            if first != experts {
                let name = trace.params[params[0]].name.clone();
                proof {
                    lemma_grouped_stops(*trace, planes@, bytes@, (k + 1) as nat, seen@.len());
                }
                return Err(Fault::Param { name: Name::Param(name), why: Why::ArityDiffers });
            }
        }
        declared = Some(experts);
        let group: usize = groups.len();
        let ghost begun = Found { declared: Some(experts), ..f };
        let ghost base = bands@.len();
        let mut of_this: Vec<usize> = Vec::new();
        let mut i: usize = 0;
        while i < params.len()
            invariant
                i <= params@.len(),
                bytes@.len() == trace.params@.len(),
                forall|i: int| 0 <= i < params@.len() ==> #[trigger] params@[i] < trace.params@.len(),
                m == with_group(f, *trace, planes@, bytes@, routes),
                m == grouped(*trace, planes@, bytes@, (k + 1) as nat),
                k < seen@.len(),
                seen@ == order(*trace, trace.nodes@.len()),
                first_read_fault(*trace, trace.nodes@.len()) is None,
                params@ == owned(*trace, planes@, routes, trace.params@.len()),
                params@.len() > 0,
                experts == arity(*trace, trace.nodes@.len())[routes.0],
                f.fault is None,
                f.declared is None || f.declared == Some(experts),
                begun == (Found { declared: Some(experts), ..f }),
                group == f.groups.len(),
                base == f.bands.len(),
                bands@.len() == base + i,
                of_this@.len() == i,
                forall|j: int| 0 <= j < i ==> #[trigger] of_this@[j] == base + j,
                ({
                    let g = with_bands(begun, *trace, bytes@, params@, experts, i as nat);
                    &&& g.fault is None
                    &&& g.bands == bands@
                    &&& g.groups == f.groups
                    &&& g.declared == Some(experts)
                }),
            decreases params@.len() - i,
        {
            let p: usize = params[i];
            if let Some(why) = check_band(trace, bytes, p, experts) {
                proof {
                    lemma_bands_stop(
                        begun,
                        *trace,
                        bytes@,
                        params@,
                        experts,
                        (i + 1) as nat,
                        params@.len(),
                    );
                    lemma_grouped_stops(*trace, planes@, bytes@, (k + 1) as nat, seen@.len());
                }
                return Err(why);
            }
            of_this.push(bands.len());
            bands.push(
                BandPlan {
                    param: p,
                    name: trace.params[p].name.clone(),
                    experts,
                    slots: experts,
                    stride: bytes[p] / experts as u64,
                    group,
                },
            );
            i += 1;
        }
        let hint: Option<ValueId> = match hinted.get(&routes.0) {
            Some(hint) => Some(*hint),
            None => None,
        };
        let ghost had = group_views(groups@);
        groups.push(GroupPlan { routes, experts, slots: experts, bands: of_this, hint });
        proof {
            assert(groups@.last()@.bands =~= Seq::new(params@.len(), |i: int| (base + i) as usize));
            assert(group_views(groups@) =~= had.push(groups@.last()@));
            assert(m.groups =~= group_views(groups@));
        }
        k += 1;
    }
    Ok((bands, groups))
}

/// Every routing vector in order is one a router counted.
proof fn lemma_order_counted(trace: Trace, n: nat, k: int)
    requires
        0 <= k < order(trace, n).len(),
    ensures
        arity(trace, n).contains_key(order(trace, n)[k].0),
    decreases n,
{
    if n > 0 {
        if k < order(trace, (n - 1) as nat).len() {
            lemma_order_counted(trace, (n - 1) as nat, k);
        }
    }
}

proof fn lemma_bands_stop(
    found: Found,
    trace: Trace,
    bytes: Seq<u64>,
    params: Seq<usize>,
    experts: u32,
    k: nat,
    m: nat,
)
    requires
        k <= m,
        with_bands(found, trace, bytes, params, experts, k).fault is Some,
    ensures
        with_bands(found, trace, bytes, params, experts, m) == with_bands(
            found,
            trace,
            bytes,
            params,
            experts,
            k,
        ),
    decreases m,
{
    if k < m {
        lemma_bands_stop(found, trace, bytes, params, experts, k, (m - 1) as nat);
    }
}

proof fn lemma_grouped_stops(
    trace: Trace,
    planes: Map<usize, Vec<usize>>,
    bytes: Seq<u64>,
    k: nat,
    m: nat,
)
    requires
        k <= m,
        grouped(trace, planes, bytes, k).fault is Some,
    ensures
        grouped(trace, planes, bytes, m) == grouped(trace, planes, bytes, k),
    decreases m,
{
    if k < m {
        lemma_grouped_stops(trace, planes, bytes, k, (m - 1) as nat);
    }
}

} // verus!
