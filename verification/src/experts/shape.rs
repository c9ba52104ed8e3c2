//! What holds of whatever groups a trace turns out to have.

use vstd::prelude::*;

use crate::experts::plan::BandPlan;
use crate::experts::trace::{
    all_found, arity, band_fault, grouped, order, owned, owner, reads, with_bands, Found, Owner,
};
use crate::trace::{Trace, ValueId};

verus! {

/// Where a band stands in its group: how many of the bands just before it
/// are of the same one.
pub open spec fn position(bands: Seq<BandPlan>, b: int) -> nat
    decreases b,
{
    if b <= 0 || bands[b - 1].group != bands[b].group {
        0
    } else {
        position(bands, b - 1) + 1
    }
}

/// A band as a seat is divided out of it: `experts` equal parts, at least
/// one byte each, that make up its plane.
pub open spec fn divides(band: BandPlan, experts: u32, bytes: Seq<u64>) -> bool {
    &&& band.experts == experts
    &&& band.slots == experts
    &&& experts > 0
    &&& band.stride > 0
    &&& band.param < bytes.len()
    &&& band.stride * experts == bytes[band.param as int]
}

/// The bands of a search, and the groups over them: every band divides at
/// the one expert count, lies in the group that says so, at its own place,
/// and is its group's alone.
pub open spec fn shaped(f: Found, trace: Trace, planes: Map<usize, Vec<usize>>, bytes: Seq<u64>) -> bool {
    &&& f.declared is None ==> f.bands.len() == 0 && f.groups.len() == 0
    &&& f.declared is Some ==> f.bands.len() > 0 && f.groups.len() > 0
    &&& forall|b: int|
        0 <= b < f.bands.len() ==> {
            &&& divides(#[trigger] f.bands[b], f.declared->0, bytes)
            &&& f.bands[b].name == trace.params@[f.bands[b].param as int].name
            &&& f.bands[b].group < f.groups.len()
            &&& owner(trace, planes, f.bands[b].param as int, trace.nodes@.len()) == Owner::One(
                f.groups[f.bands[b].group as int].routes,
            )
        }
    &&& forall|g: int|
        0 <= g < f.groups.len() ==> {
            &&& (#[trigger] f.groups[g]).experts == f.declared->0
            &&& f.groups[g].slots == f.declared->0
            &&& f.groups[g].bands.len() > 0
        }
    &&& forall|g: int, i: int|
        0 <= g < f.groups.len() && 0 <= i < f.groups[g].bands.len() ==> {
            &&& #[trigger] f.groups[g].bands[i] < f.bands.len()
            &&& f.bands[f.groups[g].bands[i] as int].group == g
            &&& position(f.bands, f.groups[g].bands[i] as int) == i
        }
    &&& forall|b: int, c: int|
        0 <= b < c < f.bands.len() ==> {
            &&& (#[trigger] f.bands[b]).param != (#[trigger] f.bands[c]).param
            &&& f.bands[b].group <= f.bands[c].group
        }
}

/// Positions look back only: bands added after change none.
proof fn lemma_position_prefix(bands: Seq<BandPlan>, more: Seq<BandPlan>, b: int)
    requires
        b < bands.len() <= more.len(),
        forall|i: int| 0 <= i < bands.len() ==> #[trigger] more[i] == bands[i],
    ensures
        position(more, b) == position(bands, b),
    decreases b,
{
    if b > 0 {
        assert(more[b] == bands[b] && more[b - 1] == bands[b - 1]);
        lemma_position_prefix(bands, more, b - 1);
    }
}

/// The parameters one routing vector owns ascend, and are its alone.
pub proof fn lemma_owned(trace: Trace, planes: Map<usize, Vec<usize>>, routes: ValueId, p: nat)
    requires
        p <= usize::MAX,
    ensures
        ({
            let o = owned(trace, planes, routes, p);
            &&& forall|i: int|
                0 <= i < o.len() ==> {
                    &&& #[trigger] o[i] < p
                    &&& owner(trace, planes, o[i] as int, trace.nodes@.len()) == Owner::One(routes)
                }
            &&& forall|i: int, j: int| 0 <= i < j < o.len() ==> #[trigger] o[i] < #[trigger] o[j]
        }),
    decreases p,
{
    if p > 0 {
        lemma_owned(trace, planes, routes, (p - 1) as nat);
    }
}

/// Bands of one group under way.
pub open spec fn underway(
    f: Found,
    base: Found,
    trace: Trace,
    bytes: Seq<u64>,
    params: Seq<usize>,
    experts: u32,
    k: nat,
) -> bool {
    &&& f.groups == base.groups
    &&& f.declared == base.declared
    &&& f.bands.len() == base.bands.len() + k
    &&& forall|b: int| 0 <= b < base.bands.len() ==> #[trigger] f.bands[b] == base.bands[b]
    &&& forall|i: int|
        0 <= i < k ==> {
            let band = #[trigger] f.bands[base.bands.len() + i];
            &&& band.param == params[i]
            &&& band.name == trace.params@[params[i] as int].name
            &&& band.group == base.groups.len()
            &&& divides(band, experts, bytes)
        }
}

pub proof fn lemma_with_bands(
    base: Found,
    trace: Trace,
    bytes: Seq<u64>,
    params: Seq<usize>,
    experts: u32,
    k: nat,
)
    requires
        k <= params.len(),
        base.groups.len() <= usize::MAX,
        forall|i: int| 0 <= i < params.len() ==> #[trigger] params[i] < bytes.len(),
        with_bands(base, trace, bytes, params, experts, k).fault is None,
    ensures
        underway(
            with_bands(base, trace, bytes, params, experts, k),
            base,
            trace,
            bytes,
            params,
            experts,
            k,
        ),
    decreases k,
{
    if k > 0 {
        lemma_with_bands(base, trace, bytes, params, experts, (k - 1) as nat);
        let g = with_bands(base, trace, bytes, params, experts, (k - 1) as nat);
        let f = with_bands(base, trace, bytes, params, experts, k);
        let p = params[k - 1];
        assert(p < bytes.len());
        let plane = bytes[p as int] as int;
        assert(band_fault(trace, bytes, p as int, experts) is None);
        let stride = plane / experts as int;
        assert(stride * experts == plane && 0 < stride <= plane) by (nonlinear_arith)
            requires
                stride == plane / experts as int,
                plane % experts as int == 0,
                plane > 0,
                experts > 0,
        ;
        let band = f.bands[base.bands.len() + k - 1];
        assert(divides(band, experts, bytes));
        assert forall|i: int| 0 <= i < k implies {
            let band = #[trigger] f.bands[base.bands.len() + i];
            &&& band.param == params[i]
            &&& band.name == trace.params@[params[i] as int].name
            &&& band.group == base.groups.len()
            &&& divides(band, experts, bytes)
        } by {
            if i < k - 1 {
                assert(g.bands[base.bands.len() + i] == f.bands[base.bands.len() + i]);
            }
        }
    }
}

/// The positions of the bands just added count up from zero.
proof fn lemma_new_positions(bands: Seq<BandPlan>, base: int, group: usize, i: int)
    requires
        0 <= base,
        0 <= i,
        base + i < bands.len(),
        forall|b: int| 0 <= b < base ==> (#[trigger] bands[b]).group < group,
        forall|b: int| base <= b < bands.len() ==> (#[trigger] bands[b]).group == group,
    ensures
        position(bands, base + i) == i,
    decreases i,
{
    if i > 0 {
        lemma_new_positions(bands, base, group, i - 1);
    }
}

/// No routing vector comes twice.
pub proof fn lemma_order_distinct(trace: Trace, n: nat)
    ensures
        forall|i: int|
            0 <= i < order(trace, n).len() ==> arity(trace, n).contains_key(
                (#[trigger] order(trace, n)[i]).0,
            ),
        forall|i: int, j: int|
            0 <= i < j < order(trace, n).len() ==> #[trigger] order(trace, n)[i] != #[trigger] order(
                trace,
                n,
            )[j],
    decreases n,
{
    if n > 0 {
        lemma_order_distinct(trace, (n - 1) as nat);
        let o = order(trace, (n - 1) as nat);
        let m = order(trace, n);
        assert forall|i: int, j: int| 0 <= i < j < m.len() implies #[trigger] m[i] != #[trigger] m[j] by {
            assert(m[i] == o[i]);
            if j < o.len() {
                assert(m[j] == o[j]);
            }
        }
        assert forall|i: int| 0 <= i < m.len() implies arity(trace, n).contains_key(
            (#[trigger] m[i]).0,
        ) by {
            if i < o.len() {
                assert(m[i] == o[i]);
            }
        }
    }
}

/// Every group so far is of a routing vector among the first `k`.
pub open spec fn routed(f: Found, trace: Trace, k: nat) -> bool {
    forall|g: int|
        0 <= g < f.groups.len() ==> exists|i: int|
            0 <= i < k && (#[trigger] f.groups[g]).routes == #[trigger] order(
                trace,
                trace.nodes@.len(),
            )[i]
}

/// Groups as they are found keep their shape.
pub proof fn lemma_grouped(trace: Trace, planes: Map<usize, Vec<usize>>, bytes: Seq<u64>, k: nat)
    requires
        trace.wf(),
        bytes.len() == trace.params@.len(),
        trace.params@.len() <= usize::MAX,
        order(trace, trace.nodes@.len()).len() <= usize::MAX,
        k <= order(trace, trace.nodes@.len()).len(),
        grouped(trace, planes, bytes, k).fault is None,
    ensures
        shaped(grouped(trace, planes, bytes, k), trace, planes, bytes),
        grouped(trace, planes, bytes, k).groups.len() <= k,
        routed(grouped(trace, planes, bytes, k), trace, k),
        forall|g: int, h: int|
            0 <= g < h < grouped(trace, planes, bytes, k).groups.len() ==> (#[trigger] grouped(
                trace,
                planes,
                bytes,
                k,
            ).groups[g]).routes != (#[trigger] grouped(trace, planes, bytes, k).groups[h]).routes,
    decreases k,
{
    if k > 0 {
        lemma_grouped(trace, planes, bytes, (k - 1) as nat);
        let f = grouped(trace, planes, bytes, (k - 1) as nat);
        let m = grouped(trace, planes, bytes, k);
        let all = order(trace, trace.nodes@.len());
        let routes = all[k - 1];
        let params = owned(trace, planes, routes, trace.params@.len());
        let experts = arity(trace, trace.nodes@.len())[routes.0];
        lemma_order_distinct(trace, trace.nodes@.len());
        assert(forall|g: int| 0 <= g < f.groups.len() ==> (#[trigger] f.groups[g]).routes != routes);
        if params.len() > 0 {
            lemma_owned(trace, planes, routes, trace.params@.len());
            let begun = Found { declared: Some(experts), ..f };
            let g = with_bands(begun, trace, bytes, params, experts, params.len());
            lemma_with_bands(begun, trace, bytes, params, experts, params.len());
            let base = f.bands.len();
            assert(m.bands == g.bands);
            assert(m.groups.len() == f.groups.len() + 1);
            assert(forall|h: int| 0 <= h < f.groups.len() ==> #[trigger] m.groups[h] == f.groups[h]);
            assert forall|b: int| 0 <= b < m.bands.len() implies {
                &&& divides(#[trigger] m.bands[b], m.declared->0, bytes)
                &&& m.bands[b].name == trace.params@[m.bands[b].param as int].name
                &&& m.bands[b].group < m.groups.len()
                &&& owner(trace, planes, m.bands[b].param as int, trace.nodes@.len()) == Owner::One(
                    m.groups[m.bands[b].group as int].routes,
                )
            } by {
                if b < base {
                    assert(m.bands[b] == f.bands[b]);
                } else {
                    assert(m.bands[b] == g.bands[base + (b - base)]);
                    assert(params[b - base] == m.bands[b].param);
                }
            }
            assert forall|b: int, c: int| 0 <= b < c < m.bands.len() implies {
                &&& (#[trigger] m.bands[b]).param != (#[trigger] m.bands[c]).param
                &&& m.bands[b].group <= m.bands[c].group
            } by {
                if c < base {
                    assert(m.bands[b] == f.bands[b] && m.bands[c] == f.bands[c]);
                } else {
                    assert(m.bands[c] == g.bands[base + (c - base)]);
                    assert(m.bands[c].param == params[c - base]);
                    if b < base {
                        assert(m.bands[b] == f.bands[b]);
                        assert(f.groups[f.bands[b].group as int].routes != routes);
                    } else {
                        assert(m.bands[b] == g.bands[base + (b - base)]);
                        assert(m.bands[b].param == params[b - base]);
                        assert(params[b - base] < params[c - base]);
                    }
                }
            }
            assert forall|h: int, i: int|
                0 <= h < m.groups.len() && 0 <= i < m.groups[h].bands.len() implies {
                &&& #[trigger] m.groups[h].bands[i] < m.bands.len()
                &&& m.bands[m.groups[h].bands[i] as int].group == h
                &&& position(m.bands, m.groups[h].bands[i] as int) == i
            } by {
                if h < f.groups.len() {
                    let b = f.groups[h].bands[i] as int;
                    assert(m.groups[h].bands[i] == f.groups[h].bands[i]);
                    assert(m.bands[b] == f.bands[b]);
                    lemma_position_prefix(f.bands, m.bands, b);
                } else {
                    assert(base + i <= trace.params@.len()) by {
                        lemma_few_bands(m, trace, bytes);
                    }
                    assert(m.groups[h].bands[i] == base + i);
                    assert(m.bands[base + i] == g.bands[base + i]);
                    assert forall|b: int| 0 <= b < base implies (#[trigger] m.bands[b]).group < f.groups.len() by {
                        assert(m.bands[b] == f.bands[b]);
                    }
                    assert forall|b: int| base <= b < m.bands.len() implies (#[trigger] m.bands[b]).group
                        == f.groups.len() by {
                        assert(m.bands[b] == g.bands[base + (b - base)]);
                    }
                    lemma_new_positions(m.bands, base as int, f.groups.len() as usize, i);
                }
            }
            assert forall|h: int| 0 <= h < m.groups.len() implies exists|i: int|
                0 <= i < k && (#[trigger] m.groups[h]).routes == #[trigger] all[i] by {
                if h < f.groups.len() {
                    assert(m.groups[h] == f.groups[h]);
                    let i = choose|i: int| 0 <= i < k - 1 && f.groups[h].routes == #[trigger] all[i];
                    assert(0 <= i < k && m.groups[h].routes == all[i]);
                } else {
                    assert(m.groups[h].routes == all[k - 1]);
                }
            }
        } else {
            assert(m == f);
            assert forall|h: int| 0 <= h < m.groups.len() implies exists|i: int|
                0 <= i < k && (#[trigger] m.groups[h]).routes == #[trigger] all[i] by {
                let i = choose|i: int| 0 <= i < k - 1 && f.groups[h].routes == #[trigger] all[i];
                assert(0 <= i < k && m.groups[h].routes == all[i]);
            }
        }
    }
}

/// Bands of distinct parameters are no more than there are parameters.
pub proof fn lemma_few_bands(f: Found, trace: Trace, bytes: Seq<u64>)
    requires
        bytes.len() == trace.params@.len(),
        forall|b: int|
            0 <= b < f.bands.len() ==> (#[trigger] f.bands[b]).param < bytes.len(),
        forall|b: int, c: int|
            0 <= b < c < f.bands.len() ==> (#[trigger] f.bands[b]).param != (#[trigger] f.bands[c]).param,
    ensures
        f.bands.len() <= bytes.len(),
{
    let params = Seq::new(f.bands.len(), |b: int| f.bands[b].param as int);
    assert(params.no_duplicates());
    let below = Set::new(|p: int| 0 <= p < bytes.len());
    vstd::set_lib::lemma_int_range(0, bytes.len() as int);
    assert(below =~= vstd::set_lib::set_int_range(0, bytes.len() as int));
    params.unique_seq_to_set();
    assert(params.to_set().subset_of(below));
    vstd::set_lib::lemma_len_subset(params.to_set(), below);
}

/// Groups that each have a band of their own are no more than the bands.
pub proof fn lemma_few_groups(f: Found)
    requires
        forall|g: int| 0 <= g < f.groups.len() ==> (#[trigger] f.groups[g]).bands.len() > 0,
        forall|g: int, i: int|
            0 <= g < f.groups.len() && 0 <= i < f.groups[g].bands.len() ==> {
                &&& #[trigger] f.groups[g].bands[i] < f.bands.len()
                &&& f.bands[f.groups[g].bands[i] as int].group == g
            },
    ensures
        f.groups.len() <= f.bands.len(),
{
    let firsts = Seq::new(f.groups.len(), |g: int| f.groups[g].bands[0] as int);
    assert(firsts.no_duplicates()) by {
        assert forall|g: int, h: int| 0 <= g < firsts.len() && 0 <= h < firsts.len() && g != h implies firsts[g]
            != firsts[h] by {
            assert(f.groups[g].bands.len() > 0 && f.groups[h].bands.len() > 0);
            assert(f.bands[f.groups[g].bands[0] as int].group == g);
            assert(f.bands[f.groups[h].bands[0] as int].group == h);
        }
    }
    let below = Set::new(|b: int| 0 <= b < f.bands.len());
    vstd::set_lib::lemma_int_range(0, f.bands.len() as int);
    assert(below =~= vstd::set_lib::set_int_range(0, f.bands.len() as int));
    firsts.unique_seq_to_set();
    assert(firsts.to_set().subset_of(below)) by {
        assert forall|x: int| firsts.to_set().contains(x) implies below.contains(x) by {
            let g = firsts.index_of(x);
            assert(f.groups[g].bands.len() > 0);
            assert(f.groups[g].bands[0] < f.bands.len());
        }
    }
    vstd::set_lib::lemma_len_subset(firsts.to_set(), below);
}

/// A plane is one group's exactly when some node indexes it and every node
/// that does indexes it by that group's routing vector; a plane two routing
/// vectors index is in no group, and stays dense.
pub proof fn a_plane_belongs_to_the_one_router_that_indexes_it(
    trace: Trace,
    planes: Map<usize, Vec<usize>>,
    p: int,
    n: nat,
    routes: ValueId,
)
    ensures
        owner(trace, planes, p, n) == Owner::One(routes) <==> {
            &&& exists|i: int| 0 <= i < n && #[trigger] reads(trace, planes, i, p)
            &&& forall|i: int|
                0 <= i < n && #[trigger] reads(trace, planes, i, p) ==> trace.reader_at(i)->0.routes
                    == routes
        },
        owner(trace, planes, p, n) == Owner::Nobody <==> forall|i: int|
            0 <= i < n ==> !#[trigger] reads(trace, planes, i, p),
    decreases n,
{
    if n > 0 {
        let m = (n - 1) as nat;
        a_plane_belongs_to_the_one_router_that_indexes_it(trace, planes, p, m, routes);
        if reads(trace, planes, n - 1, p) {
            let last = trace.reader_at(n - 1)->0.routes;
            a_plane_belongs_to_the_one_router_that_indexes_it(trace, planes, p, m, last);
            match owner(trace, planes, p, m) {
                Owner::Nobody => {},
                Owner::One(other) => {
                    a_plane_belongs_to_the_one_router_that_indexes_it(trace, planes, p, m, other);
                },
                Owner::Many => {
                    if forall|i: int|
                        0 <= i < m && #[trigger] reads(trace, planes, i, p) ==> trace.reader_at(i)->0.routes
                            == routes {
                        assert(exists|i: int| 0 <= i < m && #[trigger] reads(trace, planes, i, p));
                    }
                },
            }
        }
    }
}

/// What a search that ends without a fault finds: every band at the one
/// expert count, `experts` equal strides that make up its plane, in one
/// group and no other, at its own place in it.
pub proof fn bands_divide_and_belong(trace: Trace, planes: Map<usize, Vec<usize>>, bytes: Seq<u64>)
    requires
        trace.wf(),
        bytes.len() == trace.params@.len(),
        trace.params@.len() <= usize::MAX,
        order(trace, trace.nodes@.len()).len() <= usize::MAX,
        all_found(trace, planes, bytes).fault is None,
    ensures
        shaped(all_found(trace, planes, bytes), trace, planes, bytes),
{
    lemma_grouped(trace, planes, bytes, order(trace, trace.nodes@.len()).len());
}

} // verus!
