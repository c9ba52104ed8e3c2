//! What a search of a trace finds, and what it must not pass over.

use vstd::prelude::*;

use crate::experts::shape::{
    a_plane_belongs_to_the_one_router_that_indexes_it, lemma_grouped, lemma_order_distinct, lemma_owned,
    lemma_with_bands,
};
use crate::experts::sizing::lemma_order_short;
use crate::experts::trace::{
    all_found, arity, band_fault, fan, first_read_fault, grouped, hints, order, owned, owner,
    read_fault, reads, with_bands, with_group, Found, Owner,
};
use crate::trace::{Trace, ValueId};

verus! {

/// Node `i` is a router of this routing vector.
pub open spec fn routes_at(trace: Trace, i: int, routes: ValueId) -> bool {
    trace.router_at(i) is Some && trace.router_at(i)->0.routes == routes
}

/// Of the routers of one routing vector the last says how many experts there
/// are, and the last that has one says the hint; the first says the fan-out.
/// A routing vector without a router has none of these.
pub proof fn a_router_speaks_for_its_routing_vector(trace: Trace, n: nat, routes: ValueId)
    requires
        n <= trace.nodes@.len(),
    ensures
        arity(trace, n).contains_key(routes.0) <==> exists|i: int|
            0 <= i < n && #[trigger] routes_at(trace, i, routes),
        fan(trace, routes, n) is Some <==> exists|i: int|
            0 <= i < n && #[trigger] routes_at(trace, i, routes),
        hints(trace, n).contains_key(routes.0) <==> exists|i: int|
            0 <= i < n && #[trigger] routes_at(trace, i, routes) && trace.router_at(i)->0.hint is Some,
        forall|i: int|
            0 <= i < n && #[trigger] routes_at(trace, i, routes) && (forall|j: int|
                i < j < n ==> !#[trigger] routes_at(trace, j, routes)) ==> arity(trace, n)[routes.0]
                == trace.router_at(i)->0.experts,
        forall|i: int|
            0 <= i < n && #[trigger] routes_at(trace, i, routes) && (forall|j: int|
                0 <= j < i ==> !#[trigger] routes_at(trace, j, routes)) ==> fan(trace, routes, n) == Some(
                trace.router_at(i)->0.top_k,
            ),
        forall|i: int|
            0 <= i < n && #[trigger] routes_at(trace, i, routes) && trace.router_at(i)->0.hint is Some && (
            forall|j: int|
                i < j < n && #[trigger] routes_at(trace, j, routes) ==> trace.router_at(j)->0.hint is None)
                ==> Some(hints(trace, n)[routes.0]) == trace.router_at(i)->0.hint,
{
    lemma_arity(trace, n, routes);
    lemma_fan(trace, n, routes);
    lemma_hints(trace, n, routes);
}

proof fn lemma_arity(trace: Trace, n: nat, routes: ValueId)
    ensures
        arity(trace, n).contains_key(routes.0) <==> exists|i: int|
            0 <= i < n && #[trigger] routes_at(trace, i, routes),
        forall|i: int|
            0 <= i < n && #[trigger] routes_at(trace, i, routes) && (forall|j: int|
                i < j < n ==> !#[trigger] routes_at(trace, j, routes)) ==> arity(trace, n)[routes.0]
                == trace.router_at(i)->0.experts,
    decreases n,
{
    if n > 0 {
        let m = (n - 1) as nat;
        lemma_arity(trace, m, routes);
        let last = routes_at(trace, n - 1, routes);
        if let Some(r) = trace.router_at(n - 1) {
            assert(r.routes.0 == routes.0 ==> r.routes == routes);
        }
        assert forall|i: int|
            0 <= i < n && #[trigger] routes_at(trace, i, routes) && (forall|j: int|
                i < j < n ==> !#[trigger] routes_at(trace, j, routes)) implies arity(trace, n)[routes.0]
            == trace.router_at(i)->0.experts by {
            if i < n - 1 {
                assert(!last);
                assert(arity(trace, n)[routes.0] == arity(trace, m)[routes.0]);
            }
        }
        if arity(trace, n).contains_key(routes.0) && !last {
            assert(arity(trace, m).contains_key(routes.0));
        }
    }
}

proof fn lemma_fan(trace: Trace, n: nat, routes: ValueId)
    ensures
        fan(trace, routes, n) is Some <==> exists|i: int|
            0 <= i < n && #[trigger] routes_at(trace, i, routes),
        forall|i: int|
            0 <= i < n && #[trigger] routes_at(trace, i, routes) && (forall|j: int|
                0 <= j < i ==> !#[trigger] routes_at(trace, j, routes)) ==> fan(trace, routes, n) == Some(
                trace.router_at(i)->0.top_k,
            ),
    decreases n,
{
    if n > 0 {
        let m = (n - 1) as nat;
        lemma_fan(trace, m, routes);
        let last = routes_at(trace, n - 1, routes);
        assert forall|i: int|
            0 <= i < n && #[trigger] routes_at(trace, i, routes) && (forall|j: int|
                0 <= j < i ==> !#[trigger] routes_at(trace, j, routes)) implies fan(trace, routes, n)
            == Some(trace.router_at(i)->0.top_k) by {
            if i == n - 1 {
                assert(fan(trace, routes, m) is None);
            }
        }
    }
}

/// A router of this routing vector that has a hint.
spec fn hints_at(trace: Trace, i: int, routes: ValueId) -> bool {
    routes_at(trace, i, routes) && trace.router_at(i)->0.hint is Some
}

proof fn lemma_hinted(trace: Trace, n: nat, routes: ValueId)
    ensures
        hints(trace, n).contains_key(routes.0) <==> exists|i: int|
            0 <= i < n && #[trigger] hints_at(trace, i, routes),
        forall|i: int|
            0 <= i < n && #[trigger] hints_at(trace, i, routes) && (forall|j: int|
                i < j < n ==> !#[trigger] hints_at(trace, j, routes)) ==> Some(hints(trace, n)[routes.0])
                == trace.router_at(i)->0.hint,
    decreases n,
{
    if n > 0 {
        let m = (n - 1) as nat;
        lemma_hinted(trace, m, routes);
        let last = hints_at(trace, n - 1, routes);
        if let Some(r) = trace.router_at(n - 1) {
            assert(r.routes.0 == routes.0 ==> r.routes == routes);
        }
        assert forall|i: int|
            0 <= i < n && #[trigger] hints_at(trace, i, routes) && (forall|j: int|
                i < j < n ==> !#[trigger] hints_at(trace, j, routes)) implies Some(
            hints(trace, n)[routes.0],
        ) == trace.router_at(i)->0.hint by {
            if i < n - 1 {
                assert(!last);
                assert(hints(trace, n)[routes.0] == hints(trace, m)[routes.0]);
            }
        }
        if hints(trace, n).contains_key(routes.0) && !last {
            assert(hints(trace, m).contains_key(routes.0));
        }
    }
}

proof fn lemma_hints(trace: Trace, n: nat, routes: ValueId)
    ensures
        hints(trace, n).contains_key(routes.0) <==> exists|i: int|
            0 <= i < n && #[trigger] routes_at(trace, i, routes) && trace.router_at(i)->0.hint is Some,
        forall|i: int|
            0 <= i < n && #[trigger] routes_at(trace, i, routes) && trace.router_at(i)->0.hint is Some && (
            forall|j: int|
                i < j < n && #[trigger] routes_at(trace, j, routes) ==> trace.router_at(j)->0.hint is None)
                ==> Some(hints(trace, n)[routes.0]) == trace.router_at(i)->0.hint,
{
    lemma_hinted(trace, n, routes);
    if hints(trace, n).contains_key(routes.0) {
        let i = choose|i: int| 0 <= i < n && #[trigger] hints_at(trace, i, routes);
        assert(routes_at(trace, i, routes));
    }
    if exists|i: int|
        0 <= i < n && #[trigger] routes_at(trace, i, routes) && trace.router_at(i)->0.hint is Some {
        let i = choose|i: int|
            0 <= i < n && #[trigger] routes_at(trace, i, routes) && trace.router_at(i)->0.hint is Some;
        assert(hints_at(trace, i, routes));
    }
    assert forall|i: int|
        0 <= i < n && #[trigger] routes_at(trace, i, routes) && trace.router_at(i)->0.hint is Some && (
        forall|j: int|
            i < j < n && #[trigger] routes_at(trace, j, routes) ==> trace.router_at(j)->0.hint is None)
        implies Some(hints(trace, n)[routes.0]) == trace.router_at(i)->0.hint by {
        assert(hints_at(trace, i, routes));
        assert forall|j: int| i < j < n implies !#[trigger] hints_at(trace, j, routes) by {
            if routes_at(trace, j, routes) {
                assert(trace.router_at(j)->0.hint is None);
            }
        }
    }
}

/// Routing vectors are taken in the order their routers come in, each once:
/// a trace that goes on only adds to the end.
pub proof fn routing_vectors_come_in_order(trace: Trace, m: nat, n: nat, routes: ValueId)
    requires
        m <= n <= trace.nodes@.len(),
    ensures
        order(trace, m).is_prefix_of(order(trace, n)),
        order(trace, n).no_duplicates(),
        order(trace, n).contains(routes) <==> exists|i: int|
            0 <= i < n && #[trigger] routes_at(trace, i, routes),
    decreases n,
{
    lemma_order_distinct(trace, n);
    if n > 0 {
        let k = (n - 1) as nat;
        let o = order(trace, k);
        let now = order(trace, n);
        routing_vectors_come_in_order(trace, if m < n { m } else { k }, k, routes);
        if m == n {
            assert(now.is_prefix_of(now));
        } else {
            assert(o.is_prefix_of(now));
            let was = order(trace, m);
            assert(was =~= now.subrange(0, was.len() as int));
        }
        if o.contains(routes) {
            assert(now[o.index_of(routes)] == routes);
        }
        if routes_at(trace, k as int, routes) {
            a_router_speaks_for_its_routing_vector(trace, k, routes);
            if arity(trace, k).contains_key(routes.0) {
                assert(o.contains(routes));
            } else {
                assert(now[o.len() as int] == routes);
            }
        }
        if now.contains(routes) && !o.contains(routes) {
            let i = now.index_of(routes);
            if i < o.len() {
                assert(o[i] == routes);
            }
            assert(routes_at(trace, k as int, routes));
        }
        if exists|i: int| 0 <= i < n && #[trigger] routes_at(trace, i, routes) {
            let i = choose|i: int| 0 <= i < n && #[trigger] routes_at(trace, i, routes);
            if i < k {
                assert(o.contains(routes));
            }
        }
    } else {
        assert(order(trace, m) =~= order(trace, n).subrange(0, 0));
    }
}

/// A plane a reader names, itself or as one attached to what it names, has
/// a router that it is read by.
pub proof fn a_plane_read_is_a_plane_owned(
    trace: Trace,
    planes: Map<usize, Vec<usize>>,
    i: int,
    w: int,
    p: int,
)
    requires
        0 <= i < trace.nodes@.len(),
        trace.reader_at(i) matches Some(reader) && (trace.weight(reader.first) == Some(w) || (
        reader.second matches Some(id) && trace.weight(id) == Some(w))),
        p == w || (planes.contains_key(w as usize) && planes[w as usize]@.contains(p as usize)),
    ensures
        ({
            let routes = trace.reader_at(i)->0.routes;
            let o = owner(trace, planes, p, trace.nodes@.len());
            o == Owner::One(routes) || o == Owner::Many
        }),
{
    let n = trace.nodes@.len();
    let routes = trace.reader_at(i)->0.routes;
    assert(reads(trace, planes, i, p));
    a_plane_belongs_to_the_one_router_that_indexes_it(trace, planes, p, n, routes);
    if let Owner::One(other) = owner(trace, planes, p, n) {
        a_plane_belongs_to_the_one_router_that_indexes_it(trace, planes, p, n, other);
    }
}

proof fn lemma_owned_all(trace: Trace, planes: Map<usize, Vec<usize>>, routes: ValueId, n: nat, p: int)
    requires
        0 <= p < n <= usize::MAX,
        owner(trace, planes, p, trace.nodes@.len()) == Owner::One(routes),
    ensures
        owned(trace, planes, routes, n).contains(p as usize),
    decreases n,
{
    let o = owned(trace, planes, routes, n);
    if p == n - 1 {
        assert(o[o.len() - 1] == p as usize);
    } else {
        lemma_owned_all(trace, planes, routes, (n - 1) as nat, p);
        let before = owned(trace, planes, routes, (n - 1) as nat);
        assert(o[before.index_of(p as usize)] == p as usize);
    }
}

/// Band `b` is plane `p`, in the group of this routing vector, as its router
/// says it.
pub open spec fn is_band_of(f: Found, trace: Trace, routes: ValueId, p: int, b: int) -> bool {
    let n = trace.nodes@.len();
    let band = f.bands[b];
    let group = f.groups[band.group as int];
    &&& 0 <= b < f.bands.len()
    &&& band.param == p
    &&& band.group < f.groups.len()
    &&& group.routes == routes
    &&& group.experts == arity(trace, n)[routes.0]
    &&& group.hint == if hints(trace, n).contains_key(routes.0) {
        Some(hints(trace, n)[routes.0])
    } else {
        None
    }
    &&& group.bands.contains(b as usize)
}

proof fn lemma_group_keeps(
    f: Found,
    trace: Trace,
    planes: Map<usize, Vec<usize>>,
    bytes: Seq<u64>,
    routes: ValueId,
)
    requires
        trace.wf(),
        bytes.len() == trace.params@.len(),
        f.groups.len() <= usize::MAX,
        with_group(f, trace, planes, bytes, routes).fault is None,
    ensures
        f.fault is None,
        ({
            let m = with_group(f, trace, planes, bytes, routes);
            &&& f.bands.len() <= m.bands.len()
            &&& f.groups.len() <= m.groups.len()
            &&& forall|b: int| 0 <= b < f.bands.len() ==> #[trigger] m.bands[b] == f.bands[b]
            &&& forall|g: int| 0 <= g < f.groups.len() ==> #[trigger] m.groups[g] == f.groups[g]
        }),
{
    let params = owned(trace, planes, routes, trace.params@.len());
    let experts = arity(trace, trace.nodes@.len())[routes.0];
    lemma_owned(trace, planes, routes, trace.params@.len());
    if params.len() > 0 && f.fault is None {
        let begun = Found { declared: Some(experts), ..f };
        lemma_with_bands(begun, trace, bytes, params, experts, params.len());
    }
}

proof fn lemma_every_owned_plane(
    trace: Trace,
    planes: Map<usize, Vec<usize>>,
    bytes: Seq<u64>,
    k: nat,
    j: int,
    p: int,
)
    requires
        trace.wf(),
        bytes.len() == trace.params@.len(),
        trace.params@.len() <= usize::MAX,
        order(trace, trace.nodes@.len()).len() <= usize::MAX,
        0 <= j < k <= order(trace, trace.nodes@.len()).len(),
        grouped(trace, planes, bytes, k).fault is None,
        0 <= p < trace.params@.len(),
        owner(trace, planes, p, trace.nodes@.len()) == Owner::One(order(trace, trace.nodes@.len())[j]),
    ensures
        exists|b: int| #[trigger]
            is_band_of(
                grouped(trace, planes, bytes, k),
                trace,
                order(trace, trace.nodes@.len())[j],
                p,
                b,
            ),
    decreases k,
{
    let all = order(trace, trace.nodes@.len());
    let routes = all[j];
    let f = grouped(trace, planes, bytes, (k - 1) as nat);
    let m = grouped(trace, planes, bytes, k);
    assert(f.fault is None);
    lemma_grouped(trace, planes, bytes, (k - 1) as nat);
    lemma_group_keeps(f, trace, planes, bytes, all[k - 1]);
    if j < k - 1 {
        lemma_every_owned_plane(trace, planes, bytes, (k - 1) as nat, j, p);
        let b = choose|b: int| #[trigger] is_band_of(f, trace, routes, p, b);
        assert(m.bands[b] == f.bands[b]);
        assert(m.groups[f.bands[b].group as int] == f.groups[f.bands[b].group as int]);
        assert(is_band_of(m, trace, routes, p, b));
    } else {
        let params = owned(trace, planes, routes, trace.params@.len());
        let experts = arity(trace, trace.nodes@.len())[routes.0];
        lemma_owned_all(trace, planes, routes, trace.params@.len(), p);
        lemma_owned(trace, planes, routes, trace.params@.len());
        let begun = Found { declared: Some(experts), ..f };
        lemma_with_bands(begun, trace, bytes, params, experts, params.len());
        let i = params.index_of(p as usize);
        let b = f.bands.len() + i;
        let g = with_bands(begun, trace, bytes, params, experts, params.len());
        assert(g.bands[begun.bands.len() + i].param == p);
        let group = m.groups[f.groups.len() as int];
        assert(group.bands[i] == b as usize);
        assert(group.bands.contains(b as usize));
        assert(is_band_of(m, trace, routes, p, b as int));
    }
}

proof fn lemma_first_read_fault(trace: Trace, n: nat)
    ensures
        first_read_fault(trace, n) is None <==> forall|i: int|
            0 <= i < n ==> #[trigger] read_fault(trace, i) is None,
        first_read_fault(trace, n) is Some ==> exists|i: int|
            0 <= i < n && first_read_fault(trace, n) == #[trigger] read_fault(trace, i) && forall|j: int|
                0 <= j < i ==> #[trigger] read_fault(trace, j) is None,
    decreases n,
{
    if n > 0 {
        lemma_first_read_fault(trace, (n - 1) as nat);
        if first_read_fault(trace, n) is Some {
            if first_read_fault(trace, (n - 1) as nat) is Some {
                let i = choose|i: int|
                    0 <= i < n - 1 && first_read_fault(trace, (n - 1) as nat) == #[trigger] read_fault(
                        trace,
                        i,
                    ) && forall|j: int| 0 <= j < i ==> #[trigger] read_fault(trace, j) is None;
                assert(first_read_fault(trace, n) == read_fault(trace, i));
            } else {
                assert(first_read_fault(trace, n) == read_fault(trace, n - 1));
            }
        }
    }
}

/// Every plane one router indexes, and no other does, streams: a search that
/// ends without a fault has it as a band of that router's group.
pub proof fn every_plane_of_one_router_streams(
    trace: Trace,
    planes: Map<usize, Vec<usize>>,
    bytes: Seq<u64>,
    routes: ValueId,
    p: int,
)
    requires
        trace.wf(),
        trace.nodes@.len() <= usize::MAX,
        bytes.len() == trace.params@.len(),
        trace.params@.len() <= usize::MAX,
        all_found(trace, planes, bytes).fault is None,
        0 <= p < trace.params@.len(),
        exists|i: int| 0 <= i < trace.nodes@.len() && #[trigger] reads(trace, planes, i, p),
        forall|i: int|
            0 <= i < trace.nodes@.len() && #[trigger] reads(trace, planes, i, p) ==> trace.reader_at(
                i,
            )->0.routes == routes,
    ensures
        exists|b: int| #[trigger]
            is_band_of(all_found(trace, planes, bytes), trace, routes, p, b),
{
    let n = trace.nodes@.len();
    lemma_order_short(trace, n);
    lemma_first_read_fault(trace, n);
    a_plane_belongs_to_the_one_router_that_indexes_it(trace, planes, p, n, routes);
    let i = choose|i: int| 0 <= i < n && #[trigger] reads(trace, planes, i, p);
    assert(read_fault(trace, i) is None);
    assert(arity(trace, n).contains_key(routes.0));
    a_router_speaks_for_its_routing_vector(trace, n, routes);
    routing_vectors_come_in_order(trace, n, n, routes);
    let j = order(trace, n).index_of(routes);
    lemma_every_owned_plane(trace, planes, bytes, order(trace, n).len(), j, p);
}

/// A reader's operands are as they must be: it has a router, and what it
/// indexes are weights.
pub open spec fn reads_well(trace: Trace, i: int) -> bool {
    trace.reader_at(i) matches Some(reader) ==> {
        &&& exists|j: int| 0 <= j < trace.nodes@.len() && #[trigger] routes_at(trace, j, reader.routes)
        &&& trace.weight(reader.first) is Some
        &&& reader.second matches Some(id) ==> trace.weight(id) is Some
    }
}

/// A plane one router owns divides by its experts: they are its leading
/// dimension, it has another, and each has as many bytes as the next.
pub open spec fn cuts_well(trace: Trace, planes: Map<usize, Vec<usize>>, bytes: Seq<u64>, p: int) -> bool {
    let n = trace.nodes@.len();
    owner(trace, planes, p, n) matches Owner::One(routes) ==> {
        let shape = trace.params@[p].shape@;
        let experts = arity(trace, n)[routes.0];
        &&& shape.len() >= 2
        &&& shape[0] == experts
        &&& experts > 0
        &&& bytes[p] > 0
        &&& bytes[p] as int % experts as int == 0
    }
}

proof fn lemma_bands_fault(
    base: Found,
    trace: Trace,
    bytes: Seq<u64>,
    params: Seq<usize>,
    experts: u32,
    k: nat,
)
    requires
        k <= params.len(),
        base.fault is None,
    ensures
        with_bands(base, trace, bytes, params, experts, k).fault is None <==> forall|i: int|
            0 <= i < k ==> band_fault(trace, bytes, #[trigger] params[i] as int, experts) is None,
    decreases k,
{
    if k > 0 {
        lemma_bands_fault(base, trace, bytes, params, experts, (k - 1) as nat);
        if with_bands(base, trace, bytes, params, experts, k).fault is None {
            assert(with_bands(base, trace, bytes, params, experts, (k - 1) as nat).fault is None);
        } else if with_bands(base, trace, bytes, params, experts, (k - 1) as nat).fault is None {
            assert(band_fault(trace, bytes, params[k - 1] as int, experts) is Some);
        }
    }
}

proof fn lemma_grouped_well(trace: Trace, planes: Map<usize, Vec<usize>>, bytes: Seq<u64>, k: nat, q: int)
    requires
        trace.wf(),
        bytes.len() == trace.params@.len(),
        trace.params@.len() <= usize::MAX,
        order(trace, trace.nodes@.len()).len() <= usize::MAX,
        k <= order(trace, trace.nodes@.len()).len(),
        0 <= q < trace.params@.len(),
        owner(trace, planes, q, trace.nodes@.len()) is One,
        forall|p: int| 0 <= p < trace.params@.len() ==> #[trigger] cuts_well(trace, planes, bytes, p),
        forall|p: int|
            0 <= p < trace.params@.len() ==> (#[trigger] owner(trace, planes, p, trace.nodes@.len()) matches Owner::One(
                routes,
            ) ==> arity(trace, trace.nodes@.len())[routes.0] == arity(trace, trace.nodes@.len())[owner(
                trace,
                planes,
                q,
                trace.nodes@.len(),
            )->One_0.0]),
    ensures
        grouped(trace, planes, bytes, k).fault is None,
        grouped(trace, planes, bytes, k).declared matches Some(experts) ==> experts == arity(
            trace,
            trace.nodes@.len(),
        )[owner(trace, planes, q, trace.nodes@.len())->One_0.0],
    decreases k,
{
    if k > 0 {
        let n = trace.nodes@.len();
        lemma_grouped_well(trace, planes, bytes, (k - 1) as nat, q);
        let f = grouped(trace, planes, bytes, (k - 1) as nat);
        let routes = order(trace, n)[k - 1];
        let params = owned(trace, planes, routes, trace.params@.len());
        let experts = arity(trace, n)[routes.0];
        lemma_owned(trace, planes, routes, trace.params@.len());
        lemma_grouped(trace, planes, bytes, (k - 1) as nat);
        if params.len() > 0 {
            let first = params[0] as int;
            assert(owner(trace, planes, first, n) == Owner::One(routes));
            let begun = Found { declared: Some(experts), ..f };
            assert forall|i: int| 0 <= i < params.len() implies band_fault(
                trace,
                bytes,
                #[trigger] params[i] as int,
                experts,
            ) is None by {
                assert(owner(trace, planes, params[i] as int, n) == Owner::One(routes));
                assert(cuts_well(trace, planes, bytes, params[i] as int));
            }
            lemma_bands_fault(begun, trace, bytes, params, experts, params.len());
            lemma_with_bands(begun, trace, bytes, params, experts, params.len());
        }
    }
}

proof fn lemma_nothing_owned(trace: Trace, planes: Map<usize, Vec<usize>>, bytes: Seq<u64>, k: nat)
    requires
        trace.params@.len() <= usize::MAX,
        k <= order(trace, trace.nodes@.len()).len(),
        forall|p: int|
            0 <= p < trace.params@.len() ==> !(#[trigger] owner(trace, planes, p, trace.nodes@.len()) is One),
    ensures
        grouped(trace, planes, bytes, k).fault is None,
    decreases k,
{
    if k > 0 {
        lemma_nothing_owned(trace, planes, bytes, (k - 1) as nat);
        let routes = order(trace, trace.nodes@.len())[k - 1];
        let params = owned(trace, planes, routes, trace.params@.len());
        lemma_owned(trace, planes, routes, trace.params@.len());
        if params.len() > 0 {
            assert(owner(trace, planes, params[0] as int, trace.nodes@.len()) is One);
        }
    }
}

proof fn lemma_bands_cut_well(
    trace: Trace,
    planes: Map<usize, Vec<usize>>,
    bytes: Seq<u64>,
    k: nat,
    j: int,
    p: int,
)
    requires
        trace.wf(),
        bytes.len() == trace.params@.len(),
        trace.params@.len() <= usize::MAX,
        order(trace, trace.nodes@.len()).len() <= usize::MAX,
        0 <= j < k <= order(trace, trace.nodes@.len()).len(),
        grouped(trace, planes, bytes, k).fault is None,
        0 <= p < trace.params@.len(),
        owner(trace, planes, p, trace.nodes@.len()) == Owner::One(order(trace, trace.nodes@.len())[j]),
    ensures
        cuts_well(trace, planes, bytes, p),
        grouped(trace, planes, bytes, k).declared == Some(
            arity(trace, trace.nodes@.len())[order(trace, trace.nodes@.len())[j].0],
        ),
    decreases k,
{
    let n = trace.nodes@.len();
    let f = grouped(trace, planes, bytes, (k - 1) as nat);
    let routes = order(trace, n)[k - 1];
    let params = owned(trace, planes, routes, trace.params@.len());
    let experts = arity(trace, n)[routes.0];
    lemma_owned(trace, planes, routes, trace.params@.len());
    assert(f.fault is None);
    lemma_grouped(trace, planes, bytes, (k - 1) as nat);
    let begun = Found { declared: Some(experts), ..f };
    if params.len() > 0 {
        lemma_with_bands(begun, trace, bytes, params, experts, params.len());
    }
    if j < k - 1 {
        lemma_bands_cut_well(trace, planes, bytes, (k - 1) as nat, j, p);
    } else {
        lemma_owned_all(trace, planes, routes, trace.params@.len(), p);
        lemma_bands_fault(begun, trace, bytes, params, experts, params.len());
        let i = params.index_of(p as usize);
        assert(band_fault(trace, bytes, params[i] as int, experts) is None);
    }
}

/// A search ends without a fault just when every reader has a router and
/// weights to index, every plane one router owns divides by its experts, and
/// all of these routers have as many.
pub proof fn a_search_is_refused_for_these_alone(trace: Trace, planes: Map<usize, Vec<usize>>, bytes: Seq<u64>)
    requires
        trace.wf(),
        trace.nodes@.len() <= usize::MAX,
        bytes.len() == trace.params@.len(),
        trace.params@.len() <= usize::MAX,
    ensures
        all_found(trace, planes, bytes).fault is None <==> {
            let n = trace.nodes@.len();
            &&& forall|i: int| 0 <= i < n ==> #[trigger] reads_well(trace, i)
            &&& forall|p: int| 0 <= p < trace.params@.len() ==> #[trigger] cuts_well(trace, planes, bytes, p)
            &&& forall|p: int, q: int|
                0 <= p < trace.params@.len() && 0 <= q < trace.params@.len() ==> {
                    let r = #[trigger] owner(trace, planes, p, n);
                    let s = #[trigger] owner(trace, planes, q, n);
                    r is One && s is One ==> arity(trace, n)[r->One_0.0] == arity(trace, n)[s->One_0.0]
                }
        },
{
    let n = trace.nodes@.len();
    let f = all_found(trace, planes, bytes);
    let count = order(trace, n).len();
    lemma_order_short(trace, n);
    lemma_first_read_fault(trace, n);
    assert forall|i: int| 0 <= i < n implies (#[trigger] reads_well(trace, i) <==> read_fault(trace, i) is None) by {
        if let Some(reader) = trace.reader_at(i) {
            a_router_speaks_for_its_routing_vector(trace, n, reader.routes);
        }
    }
    if f.fault is None {
        assert(first_read_fault(trace, n) is None);
        assert forall|i: int| 0 <= i < n implies #[trigger] reads_well(trace, i) by {
            assert(read_fault(trace, i) is None);
        }
        assert forall|p: int| 0 <= p < trace.params@.len() implies #[trigger] cuts_well(
            trace,
            planes,
            bytes,
            p,
        ) && (owner(trace, planes, p, n) matches Owner::One(routes) ==> f.declared == Some(
            arity(trace, n)[routes.0],
        )) by {
            if let Owner::One(routes) = owner(trace, planes, p, n) {
                a_plane_belongs_to_the_one_router_that_indexes_it(trace, planes, p, n, routes);
                let i = choose|i: int| 0 <= i < n && #[trigger] reads(trace, planes, i, p);
                assert(read_fault(trace, i) is None);
                a_router_speaks_for_its_routing_vector(trace, n, routes);
                routing_vectors_come_in_order(trace, n, n, routes);
                lemma_bands_cut_well(trace, planes, bytes, count, order(trace, n).index_of(routes), p);
            }
        }
        assert forall|p: int, q: int|
            0 <= p < trace.params@.len() && 0 <= q < trace.params@.len() implies {
            let r = #[trigger] owner(trace, planes, p, n);
            let s = #[trigger] owner(trace, planes, q, n);
            r is One && s is One ==> arity(trace, n)[r->One_0.0] == arity(trace, n)[s->One_0.0]
        } by {
            assert(cuts_well(trace, planes, bytes, p));
            assert(cuts_well(trace, planes, bytes, q));
        }
    }
    if {
        &&& forall|i: int| 0 <= i < n ==> #[trigger] reads_well(trace, i)
        &&& forall|p: int| 0 <= p < trace.params@.len() ==> #[trigger] cuts_well(trace, planes, bytes, p)
        &&& forall|p: int, q: int|
            0 <= p < trace.params@.len() && 0 <= q < trace.params@.len() ==> {
                let r = #[trigger] owner(trace, planes, p, n);
                let s = #[trigger] owner(trace, planes, q, n);
                r is One && s is One ==> arity(trace, n)[r->One_0.0] == arity(trace, n)[s->One_0.0]
            }
    } {
        assert forall|i: int| 0 <= i < n implies #[trigger] read_fault(trace, i) is None by {
            assert(reads_well(trace, i));
        }
        if exists|q: int| 0 <= q < trace.params@.len() && #[trigger] owner(trace, planes, q, n) is One {
            let q = choose|q: int|
                0 <= q < trace.params@.len() && #[trigger] owner(trace, planes, q, n) is One;
            lemma_grouped_well(trace, planes, bytes, count, q);
        } else {
            lemma_nothing_owned(trace, planes, bytes, count);
        }
    }
}

} // verus!
