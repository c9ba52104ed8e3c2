//! Which rows a cut or a prefetch reads, and where to.

use vstd::prelude::*;

use crate::experts::deciding::Job;
use crate::fault::{Fault, What};
use crate::gather::slab::{
    cut, in_source, name_lane, name_lanes, past_source, row_jobs, Band, Named, Slab, SlabView,
};
use crate::ids::signed;

verus! {

/// Reads of these rows, band by band, each from its place at the source to
/// its seat.
pub open spec fn reads_rows(jobs: Seq<Job>, bands: Seq<Band>, landing: Seq<(i32, u32)>) -> bool {
    &&& jobs.len() == landing.len() * bands.len()
    &&& forall|k: int| 0 <= k < landing.len() ==> reads_row(jobs, bands, #[trigger] landing[k], k)
}

/// The reads of the row that landed `k`-th.
pub open spec fn reads_row(jobs: Seq<Job>, bands: Seq<Band>, row: (i32, u32), k: int) -> bool {
    forall|b: int|
        0 <= b < bands.len() ==> jobs[k * bands.len() + b] == (
            ((#[trigger] bands[b]).at + row.1 * bands[b].stride) as u64,
            (bands[b].from + row.0 * bands[b].stride) as u64,
            bands[b].stride,
        )
}

/// One row more is one more read a band.
proof fn lemma_reads_more(jobs: Seq<Job>, bands: Seq<Band>, landing: Seq<(i32, u32)>, id: i32, seat: u32)
    requires
        reads_rows(jobs, bands, landing),
    ensures
        reads_rows(jobs + row_jobs(bands, seat, id), bands, landing.push((id, seat))),
{
    let more = row_jobs(bands, seat, id);
    let now = jobs + more;
    let all = landing.push((id, seat));
    let m = bands.len() as int;
    let n = landing.len() as int;
    assert((n + 1) * m == n * m + m) by (nonlinear_arith);
    assert forall|k: int| 0 <= k < all.len() implies reads_row(now, bands, #[trigger] all[k], k) by {
        assert(k * m >= 0) by (nonlinear_arith)
            requires
                k >= 0,
                m >= 0,
        ;
        if k < n {
            assert(all[k] == landing[k]);
            assert(reads_row(jobs, bands, landing[k], k));
            assert(k * m + m <= n * m) by (nonlinear_arith)
                requires
                    k < n,
                    m >= 0,
            ;
            assert forall|b: int| 0 <= b < bands.len() implies now[k * bands.len() + b] == (
                ((#[trigger] bands[b]).at + all[k].1 * bands[b].stride) as u64,
                (bands[b].from + all[k].0 * bands[b].stride) as u64,
                bands[b].stride,
            ) by {
                assert(now[k * m + b] == jobs[k * m + b]);
            }
        } else {
            assert forall|b: int| 0 <= b < bands.len() implies now[k * bands.len() + b] == (
                ((#[trigger] bands[b]).at + all[k].1 * bands[b].stride) as u64,
                (bands[b].from + all[k].0 * bands[b].stride) as u64,
                bands[b].stride,
            ) by {
                assert(now[k * m + b] == more[b]);
            }
        }
    }
}

/// A row some word names.
pub open spec fn word_names(all: Seq<u32>, id: i32) -> bool {
    exists|i: int| 0 <= i < all.len() && signed(#[trigger] all[i] as int) == id
}

/// What a cut reads: each row of the table its words name and no seat holds,
/// once, into the seats after those in use, band by band from the row's own
/// place; and nothing else.
pub proof fn a_cut_reads_each_new_row_once(v: SlabView, of: Slab, all: Seq<u32>)
    requires
        v.wf(of.rows, of.seats),
        cut(v, of, all).fault is None,
    ensures
        ({
            let c = cut(v, of, all);
            &&& c.slab.next == v.next + c.landing.len()
            &&& reads_rows(c.jobs, of.bands@, c.landing)
            &&& forall|k: int|
                0 <= k < c.landing.len() ==> {
                    let (id, seat) = #[trigger] c.landing[k];
                    &&& seat == v.next + k
                    &&& seat < of.seats
                    &&& 0 <= id < of.rows
                    &&& !v.seat_of.contains_key(id)
                    &&& word_names(all, id)
                    &&& c.slab.seat_of.contains_key(id) && c.slab.seat_of[id] == seat
                }
            &&& forall|id: i32| #[trigger]
                c.slab.seat_of.contains_key(id) ==> v.seat_of.contains_key(id) || exists|k: int|
                    0 <= k < c.landing.len() && (#[trigger] c.landing[k]).0 == id
        }),
    decreases all.len(),
{
    if all.len() > 0 {
        let head = all.drop_last();
        let w = all.last();
        let a = cut(v, of, head);
        let c = cut(v, of, all);
        assert(a.fault is None);
        a_cut_reads_each_new_row_once(v, of, head);
        let id = signed(w as int) as i32;
        assert(all[all.len() - 1] == w);
        assert forall|x: i32| word_names(head, x) implies #[trigger] word_names(all, x) by {
            let i = choose|i: int| 0 <= i < head.len() && signed(#[trigger] head[i] as int) == x;
            assert(all[i] == head[i]);
        }
        if 0 <= id < of.rows && !a.slab.seat_of.contains_key(id) {
            let seat = a.slab.next;
            lemma_reads_more(a.jobs, of.bands@, a.landing, id, seat);
            assert(c.landing == a.landing.push((id, seat)));
            assert(word_names(all, id));
            assert forall|k: int| 0 <= k < c.landing.len() implies {
                let (x, s) = #[trigger] c.landing[k];
                &&& s == v.next + k
                &&& s < of.seats
                &&& 0 <= x < of.rows
                &&& !v.seat_of.contains_key(x)
                &&& word_names(all, x)
                &&& c.slab.seat_of.contains_key(x) && c.slab.seat_of[x] == s
            } by {
                if k < a.landing.len() {
                    assert(c.landing[k] == a.landing[k]);
                    assert(word_names(head, a.landing[k].0));
                } else {
                    lemma_keeps(v, of, head, id);
                }
            }
            assert forall|x: i32| #[trigger] c.slab.seat_of.contains_key(x) implies v.seat_of.contains_key(x)
                || exists|k: int| 0 <= k < c.landing.len() && (#[trigger] c.landing[k]).0 == x by {
                if x == id {
                    assert(c.landing[a.landing.len() as int].0 == x);
                } else if !v.seat_of.contains_key(x) {
                    assert(a.slab.seat_of.contains_key(x));
                    let k = choose|k: int| 0 <= k < a.landing.len() && (#[trigger] a.landing[k]).0 == x;
                    assert(c.landing[k].0 == x);
                }
            }
        } else {
            assert(c.landing == a.landing && c.jobs == a.jobs && c.slab == a.slab);
            assert forall|k: int| 0 <= k < c.landing.len() implies word_names(
                all,
                (#[trigger] c.landing[k]).0,
            ) by {
                assert(word_names(head, a.landing[k].0));
            }
        }
    } else {
        assert(0 * of.bands@.len() == 0);
    }
}

/// A row that was seated stays so.
proof fn lemma_keeps(v: SlabView, of: Slab, all: Seq<u32>, id: i32)
    ensures
        v.seat_of.contains_key(id) ==> cut(v, of, all).slab.seat_of.contains_key(id),
    decreases all.len(),
{
    if all.len() > 0 {
        lemma_keeps(v, of, all.drop_last(), id);
    }
}

/// A row some lane names.
pub open spec fn lane_names(lanes: Seq<Seq<i32>>, id: i32) -> bool {
    exists|l: int| 0 <= l < lanes.len() && #[trigger] lanes[l].contains(id)
}

/// What is named ahead so far: rows of the table no seat holds, each in the
/// next seat, for as long as there is one.
pub open spec fn names_ahead(
    v: SlabView,
    n: Named,
    bands: Seq<Band>,
    rows: u64,
    landing: Seq<(i32, u32)>,
) -> bool {
    &&& n.slab.seat_of == v.seat_of
    &&& n.slab.next == v.next + landing.len()
    &&& reads_rows(n.jobs, bands, landing)
    &&& forall|k: int|
        0 <= k < landing.len() ==> {
            let (id, seat) = #[trigger] landing[k];
            &&& seat == v.next + k
            &&& 0 <= id < rows
            &&& !v.seat_of.contains_key(id)
            &&& n.slab.pending.contains_key(id) && n.slab.pending[id] == seat
        }
    &&& forall|id: i32| #[trigger] n.slab.pending.contains_key(id) ==> v.pending.contains_key(id)
        || exists|k: int| 0 <= k < landing.len() && (#[trigger] landing[k]).0 == id
    &&& forall|id: i32| #[trigger] v.pending.contains_key(id) ==> n.slab.pending.contains_key(id)
}

/// One id more is named, or is passed over.
proof fn lemma_name(
    v: SlabView,
    a: Named,
    bands: Seq<Band>,
    rows: u64,
    seats: u32,
    landing: Seq<(i32, u32)>,
    id: i32,
) -> (more: Seq<(i32, u32)>)
    requires
        names_ahead(v, a, bands, rows, landing),
        v.next + landing.len() <= seats,
    ensures
        names_ahead(v, a.name(bands, rows, seats, id), bands, rows, more),
        v.next + more.len() <= seats,
        landing.is_prefix_of(more),
        forall|k: int| landing.len() <= k < more.len() ==> (#[trigger] more[k]).0 == id,
        !a.full && a.name(bands, rows, seats, id).full ==> v.next + more.len() == seats,
        0 <= id < rows && !v.seat_of.contains_key(id) && !a.name(bands, rows, seats, id).full ==> a.name(
            bands,
            rows,
            seats,
            id,
        ).slab.pending.contains_key(id),
{
    let n = a.name(bands, rows, seats, id);
    if a.full || id < 0 || id >= rows || a.slab.seat_of.contains_key(id) || a.slab.pending.contains_key(id)
        || a.slab.next >= seats {
        assert(landing =~= landing.subrange(0, landing.len() as int));
        assert(n.slab == a.slab && n.jobs == a.jobs);
        landing
    } else {
        let seat = a.slab.next;
        let more = landing.push((id, seat));
        lemma_reads_more(a.jobs, bands, landing, id, seat);
        assert forall|k: int| 0 <= k < more.len() implies {
            let (x, s) = #[trigger] more[k];
            &&& s == v.next + k
            &&& 0 <= x < rows
            &&& !v.seat_of.contains_key(x)
            &&& n.slab.pending.contains_key(x) && n.slab.pending[x] == s
        } by {
            if k < landing.len() {
                assert(more[k] == landing[k]);
            }
        }
        assert forall|x: i32| #[trigger] n.slab.pending.contains_key(x) implies v.pending.contains_key(x)
            || exists|k: int| 0 <= k < more.len() && (#[trigger] more[k]).0 == x by {
            if x == id {
                assert(more[landing.len() as int].0 == x);
            } else if !v.pending.contains_key(x) {
                assert(a.slab.pending.contains_key(x));
                let k = choose|k: int| 0 <= k < landing.len() && (#[trigger] landing[k]).0 == x;
                assert(more[k].0 == x);
            }
        }
        assert(landing =~= more.subrange(0, landing.len() as int));
        more
    }
}

proof fn lemma_name_lane(
    v: SlabView,
    a: Named,
    bands: Seq<Band>,
    rows: u64,
    seats: u32,
    landing: Seq<(i32, u32)>,
    lane: Seq<i32>,
) -> (more: Seq<(i32, u32)>)
    requires
        names_ahead(v, a, bands, rows, landing),
        v.next + landing.len() <= seats,
        !a.full,
    ensures
        names_ahead(v, name_lane(a, bands, rows, seats, lane), bands, rows, more),
        v.next + more.len() <= seats,
        landing.is_prefix_of(more),
        forall|k: int| landing.len() <= k < more.len() ==> lane.contains((#[trigger] more[k]).0),
        name_lane(a, bands, rows, seats, lane).full ==> v.next + more.len() == seats,
        !name_lane(a, bands, rows, seats, lane).full ==> forall|i: int|
            0 <= i < lane.len() && 0 <= #[trigger] lane[i] < rows && !v.seat_of.contains_key(lane[i])
                ==> name_lane(a, bands, rows, seats, lane).slab.pending.contains_key(lane[i]),
        forall|id: i32| #[trigger] a.slab.pending.contains_key(id) ==> name_lane(
            a,
            bands,
            rows,
            seats,
            lane,
        ).slab.pending.contains_key(id),
    decreases lane.len(),
{
    if lane.len() == 0 {
        assert(landing =~= landing.subrange(0, landing.len() as int));
        landing
    } else {
        let head = lane.drop_last();
        let mid = lemma_name_lane(v, a, bands, rows, seats, landing, head);
        let b = name_lane(a, bands, rows, seats, head);
        let id = lane.last();
        assert(lane[lane.len() - 1] == id);
        let more = lemma_name(v, b, bands, rows, seats, mid, id);
        let n = name_lane(a, bands, rows, seats, lane);
        assert(n == b.name(bands, rows, seats, id));
        assert(landing =~= more.subrange(0, landing.len() as int));
        assert forall|k: int| landing.len() <= k < more.len() implies lane.contains(
            (#[trigger] more[k]).0,
        ) by {
            if k < mid.len() {
                assert(more[k] == mid[k]);
                assert(head.contains(mid[k].0));
                assert(lane[head.index_of(mid[k].0)] == mid[k].0);
            }
        }
        assert forall|x: i32| #[trigger] b.slab.pending.contains_key(x) implies n.slab.pending.contains_key(x) by {}
        if !n.full {
            assert forall|i: int|
                0 <= i < lane.len() && 0 <= #[trigger] lane[i] < rows && !v.seat_of.contains_key(lane[i])
                implies n.slab.pending.contains_key(lane[i]) by {
                if i < head.len() {
                    assert(head[i] == lane[i]);
                    assert(b.slab.pending.contains_key(head[i]));
                }
            }
        }
        more
    }
}

proof fn lemma_name_lanes(
    v: SlabView,
    bands: Seq<Band>,
    rows: u64,
    seats: u32,
    lanes: Seq<Seq<i32>>,
) -> (landing: Seq<(i32, u32)>)
    requires
        v.next <= seats,
    ensures
        ({
            let start = Named { slab: v, jobs: Seq::empty(), full: false };
            let n = name_lanes(start, bands, rows, seats, lanes);
            &&& names_ahead(v, n, bands, rows, landing)
            &&& v.next + landing.len() <= seats
            &&& forall|k: int| 0 <= k < landing.len() ==> lane_names(lanes, (#[trigger] landing[k]).0)
            &&& v.next + landing.len() < seats ==> forall|l: int, i: int|
                #![trigger lanes[l][i]]
                0 <= l < lanes.len() && 0 <= i < lanes[l].len() && 0 <= lanes[l][i] < rows
                    && !v.seat_of.contains_key(lanes[l][i]) ==> n.slab.pending.contains_key(lanes[l][i])
        }),
    decreases lanes.len(),
{
    let start = Named { slab: v, jobs: Seq::empty(), full: false };
    if lanes.len() == 0 {
        assert(0 * bands.len() == 0);
        Seq::empty()
    } else {
        let head = lanes.drop_last();
        let mid = lemma_name_lanes(v, bands, rows, seats, head);
        let b = name_lanes(start, bands, rows, seats, head);
        let a = Named { full: false, ..b };
        assert(names_ahead(v, a, bands, rows, mid));
        let more = lemma_name_lane(v, a, bands, rows, seats, mid, lanes.last());
        let n = name_lanes(start, bands, rows, seats, lanes);
        let last = lanes.len() - 1;
        assert(lanes[last] == lanes.last());
        assert forall|k: int| 0 <= k < more.len() implies lane_names(lanes, (#[trigger] more[k]).0) by {
            if k < mid.len() {
                assert(more[k] == mid[k]);
                assert(lane_names(head, mid[k].0));
                let l = choose|l: int| 0 <= l < head.len() && #[trigger] head[l].contains(mid[k].0);
                assert(lanes[l].contains(more[k].0));
            } else {
                assert(lanes[last].contains(more[k].0));
            }
        }
        if v.next + more.len() < seats {
            assert forall|l: int, i: int|
                #![trigger lanes[l][i]]
                0 <= l < lanes.len() && 0 <= i < lanes[l].len() && 0 <= lanes[l][i] < rows
                    && !v.seat_of.contains_key(lanes[l][i]) implies n.slab.pending.contains_key(
                lanes[l][i],
            ) by {
                if l < last {
                    assert(head[l] == lanes[l]);
                    assert(a.slab.pending.contains_key(head[l][i]));
                }
            }
        }
        more
    }
}

/// What is prefetched: each row of the table some lane names and no seat
/// holds, once, into the seats after those in use, band by band from the
/// row's own place; nothing else, and all of them while a seat is left.
pub proof fn a_prefetch_reads_each_named_row_once(
    v: SlabView,
    bands: Seq<Band>,
    rows: u64,
    seats: u32,
    lanes: Seq<Seq<i32>>,
)
    requires
        v.wf(rows, seats),
        v.pending == Map::<i32, u32>::empty(),
    ensures
        ({
            let start = Named { slab: v, jobs: Seq::empty(), full: false };
            let n = name_lanes(start, bands, rows, seats, lanes);
            &&& n.slab.seat_of == v.seat_of
            &&& n.slab.next <= seats
            &&& forall|id: i32| #[trigger]
                n.slab.pending.contains_key(id) ==> {
                    &&& 0 <= id < rows
                    &&& !v.seat_of.contains_key(id)
                    &&& lane_names(lanes, id)
                    &&& v.next <= n.slab.pending[id] < n.slab.next
                }
            &&& exists|landing: Seq<(i32, u32)>| #[trigger]
                reads_rows(n.jobs, bands, landing) && landing.len() == n.slab.next - v.next && forall|
                    k: int,
                |
                    0 <= k < landing.len() ==> {
                        let (id, seat) = #[trigger] landing[k];
                        &&& seat == v.next + k
                        &&& n.slab.pending.contains_key(id) && n.slab.pending[id] == seat
                    }
            &&& n.slab.next < seats ==> forall|l: int, i: int|
                #![trigger lanes[l][i]]
                0 <= l < lanes.len() && 0 <= i < lanes[l].len() && 0 <= lanes[l][i] < rows
                    && !v.seat_of.contains_key(lanes[l][i]) ==> n.slab.pending.contains_key(lanes[l][i])
        }),
{
    let start = Named { slab: v, jobs: Seq::empty(), full: false };
    let n = name_lanes(start, bands, rows, seats, lanes);
    let landing = lemma_name_lanes(v, bands, rows, seats, lanes);
    assert(reads_rows(n.jobs, bands, landing));
    assert forall|id: i32| #[trigger] n.slab.pending.contains_key(id) implies {
        &&& 0 <= id < rows
        &&& !v.seat_of.contains_key(id)
        &&& lane_names(lanes, id)
        &&& v.next <= n.slab.pending[id] < n.slab.next
    } by {
        let k = choose|k: int| 0 <= k < landing.len() && (#[trigger] landing[k]).0 == id;
        assert(lane_names(lanes, landing[k].0));
    }
}

/// A read past the source is refused at the first that runs past it, with
/// what it wants and what there is; those before it lie inside.
pub proof fn the_first_read_past_the_source_is_refused(jobs: Seq<Job>, have: u64, n: nat)
    requires
        n <= jobs.len(),
    ensures
        match past_source(jobs, have, n) {
            None => forall|i: int| 0 <= i < n ==> (#[trigger] jobs[i]).1 + jobs[i].2 <= have,
            Some(fault) => {
                let i = in_source(jobs, have, n) as int;
                &&& i < n
                &&& jobs[i].1 + jobs[i].2 > have
                &&& forall|j: int| 0 <= j < i ==> (#[trigger] jobs[j]).1 + jobs[j].2 <= have
                &&& fault == (Fault::Ceiling {
                    what: What::RowSource,
                    need: (jobs[i].1 + jobs[i].2) as u64,
                    have,
                })
            },
        },
    decreases n,
{
    if n > 0 {
        the_first_read_past_the_source_is_refused(jobs, have, (n - 1) as nat);
    }
}

/// A cut is refused for want of a seat only where every seat is in use.
pub proof fn a_slab_is_full_only_when_every_seat_is_used(v: SlabView, of: Slab, all: Seq<u32>)
    requires
        v.wf(of.rows, of.seats),
        cut(v, of, all).fault is Some,
    ensures
        cut(v, of, all).fault == Some(of.is_full()) ==> cut(v, of, all).slab.next >= of.seats,
        of.pread ==> cut(v, of, all).slab.next >= of.seats,
    decreases all.len(),
{
    let head = all.drop_last();
    if cut(v, of, head).fault is Some {
        a_slab_is_full_only_when_every_seat_is_used(v, of, head);
    } else {
        let id = signed(all.last() as int) as i32;
        let jobs = row_jobs(of.bands@, cut(v, of, head).slab.next, id);
        the_first_read_past_the_source_is_refused(jobs, of.have, jobs.len());
    }
}

/// A fire begins with an empty slab: no row is seated or on its way, the
/// first seat is the next, and the fire's own slices start at nothing.
pub proof fn a_fire_begins_with_an_empty_slab(v: SlabView, landed: Result<u64, Fault>, bands: nat, id: i32)
    requires
        v.fires < u64::MAX,
    ensures
        ({
            let w = v.fired(landed, bands);
            &&& !w.seat_of.contains_key(id) && !w.pending.contains_key(id)
            &&& w.next == 0
            &&& w.in_seat == SlabView::empty(0).in_seat + Seq::new(v.in_seat.len(), |s: int| -1i32)
            &&& w.fires == v.fires + 1
            &&& w.reads_at == w.reads && w.missed_at == w.missed && w.read_ns_at == w.read_ns
            &&& w.reads == v.reads && w.missed == v.missed
            &&& !w.inflight
        }),
{
    let w = v.fired(landed, bands);
    assert(w.in_seat =~= SlabView::empty(0).in_seat + Seq::new(v.in_seat.len(), |s: int| -1i32));
}

/// A prefetch that landed seats the rows it named in the seats they were
/// named for, and keeps those seated before it.
pub proof fn a_landed_prefetch_seats_its_rows(v: SlabView, ns: u64, bands: nat, rows: u64, seats: u32, id: i32)
    requires
        v.wf(rows, seats),
        v.inflight,
        v.read_ns + ns <= u64::MAX,
        v.copies + v.pending.dom().len() * bands <= u64::MAX,
    ensures
        ({
            let w = v.joined(Ok(ns), bands);
            &&& v.pending.contains_key(id) ==> w.seat_of.contains_key(id) && w.seat_of[id] == v.pending[id]
            &&& v.seat_of.contains_key(id) ==> w.seat_of.contains_key(id) && w.seat_of[id] == v.seat_of[id]
            &&& w.seat_of.contains_key(id) ==> v.seat_of.contains_key(id) || v.pending.contains_key(id)
            &&& !w.pending.contains_key(id) && !w.inflight
            &&& w.next == v.next && w.in_seat == v.in_seat
            &&& w.read_ns == v.read_ns + ns
            &&& w.copies == v.copies + v.pending.dom().len() * bands
        }),
{
    if v.seat_of.contains_key(id) && v.pending.contains_key(id) {
        assert(v.pending.dom().contains(id) && v.seat_of.dom().contains(id));
        assert(v.pending.dom().disjoint(v.seat_of.dom()));
    }
    assert(v.pending.dom().len() * bands >= 0) by (nonlinear_arith);
}

} // verus!
