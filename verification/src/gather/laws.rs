//! What holds of a slab and the plan it is sized by.

use vstd::prelude::*;
use vstd::set_lib::lemma_len_subset;

use crate::experts::deciding::Job;
use crate::fault::Fault;
use crate::gather::plan::seats_for;
use crate::gather::slab::{
    cut, just_seated, lemma_cut_undone, name_lane, name_lanes, past_source, row_jobs, Band, Named,
    Slab, SlabView,
};
use crate::ids::signed;

verus! {

/// So many ids there are from zero to below `n`.
proof fn lemma_ids_below(n: int)
    requires
        0 <= n <= 0x8000_0000,
    ensures
        Set::new(|id: i32| 0 <= id < n).finite(),
        Set::new(|id: i32| 0 <= id < n).len() == n,
    decreases n,
{
    let all = Set::new(|id: i32| 0 <= id < n);
    if n == 0 {
        assert(all =~= Set::empty());
    } else {
        lemma_ids_below(n - 1);
        let rest = Set::new(|id: i32| 0 <= id < n - 1);
        assert(all =~= rest.insert((n - 1) as i32));
        assert(!rest.contains((n - 1) as i32));
    }
}

/// A seat taken for every row named, while none is refused; and one is
/// refused for want of seats only when every seat holds another row.
proof fn lemma_a_seat_a_row(v: SlabView, of: Slab, all: Seq<u32>)
    requires
        v.wf(of.rows, of.seats),
        v.next == 0,
        v.seat_of == Map::<i32, u32>::empty(),
    ensures
        cut(v, of, all).fault is None ==> {
            let s = cut(v, of, all).slab;
            &&& s.seat_of.dom().finite()
            &&& s.seat_of.dom().len() == s.next
            &&& s.next <= all.len()
            &&& forall|id: i32| #[trigger] s.seat_of.contains_key(id) ==> 0 <= id < of.rows
        },
        cut(v, of, all).fault matches Some(fault) ==> fault is Ceiling || (of.seats < all.len() && of.seats
            < of.rows && of.seats < 0x8000_0000),
    decreases all.len(),
{
    if all.len() == 0 {
        assert(v.seat_of.dom() =~= Set::empty());
    } else {
        let head = all.drop_last();
        lemma_a_seat_a_row(v, of, head);
        let p = cut(v, of, head);
        let c = cut(v, of, all);
        let id = signed(all.last() as int) as i32;
        if p.fault is None {
            if 0 <= id < of.rows && !p.slab.seat_of.contains_key(id) {
                if p.slab.next >= of.seats {
                    let top = if of.rows < 0x8000_0000 { of.rows as int } else { 0x8000_0000int };
                    lemma_ids_below(top);
                    let named = p.slab.seat_of.dom().insert(id);
                    let ids = Set::new(|id: i32| 0 <= id < top);
                    assert(named.subset_of(ids)) by {
                        assert forall|r: i32| named.contains(r) implies ids.contains(r) by {
                            if r != id {
                                assert(p.slab.seat_of.contains_key(r));
                            }
                        }
                    }
                    lemma_len_subset(named, ids);
                } else {
                    lemma_past_is_ceiling(
                        row_jobs(of.bands@, p.slab.next, id),
                        of.have,
                        of.bands@.len(),
                    );
                    assert(c.fault is None ==> c.slab.seat_of.dom() =~= p.slab.seat_of.dom().insert(id));
                }
            }
        }
    }
}

proof fn lemma_past_is_ceiling(jobs: Seq<Job>, have: u64, n: nat)
    ensures
        past_source(jobs, have, n) matches Some(fault) ==> fault is Ceiling,
    decreases n,
{
    if n > 0 {
        lemma_past_is_ceiling(jobs, have, (n - 1) as nat);
    }
}

/// A slab sized for a fire is never short of seats for it: a fire of no more
/// than `max_tokens` tokens, `heads` rows each, finds a seat for every row
/// it names, if nothing was guessed at before.
pub proof fn a_fire_fits_its_slab(v: SlabView, of: Slab, all: Seq<u32>, max_tokens: u32, heads: nat)
    requires
        v.wf(of.rows, of.seats),
        v.next == 0,
        v.seat_of == Map::<i32, u32>::empty(),
        of.seats == seats_for(max_tokens, heads, of.rows),
        all.len() <= max_tokens * heads,
    ensures
        cut(v, of, all).fault matches Some(fault) ==> fault is Ceiling,
{
    lemma_a_seat_a_row(v, of, all);
}

/// Copies that stop part of the way leave the rows that were copied whole in
/// their seats, and no other of theirs; whoever sat before still sits.
pub proof fn stopped_copies_leave_whole_rows(
    v: SlabView,
    rows: u64,
    seats: u32,
    landing: Seq<(i32, u32)>,
    bands: nat,
    made: nat,
)
    requires
        v.wf(rows, seats),
        just_seated(v, landing),
        bands > 0,
        made < landing.len() * bands,
    ensures
        ({
            let w = v.stopped_after(landing, bands, made);
            &&& forall|k: int|
                0 <= k < landing.len() ==> (w.seat_of.contains_key((#[trigger] landing[k]).0) <==> (k
                    + 1) * bands <= made)
            &&& forall|id: i32|
                v.seat_of.contains_key(id) && v.seat_of[id] < landing[0].1
                    ==> #[trigger] w.seat_of.contains_key(id) && w.seat_of[id] == v.seat_of[id]
        }),
{
    let row = made as int / bands as int;
    assert(0 <= row < landing.len() && bands * row <= made < bands * (row + 1)) by (nonlinear_arith)
        requires
            bands > 0,
            made < landing.len() * bands,
            row == made as int / bands as int,
            made >= 0,
    ;
    let w = v.stopped_after(landing, bands, made);
    assert(landing[row].1 == landing[0].1 + row);
    assert forall|k: int| 0 <= k < landing.len() implies (w.seat_of.contains_key(
        (#[trigger] landing[k]).0,
    ) <==> (k + 1) * bands <= made) by {
        assert(k < row <==> (k + 1) * bands <= made) by (nonlinear_arith)
            requires
                bands * row <= made < bands * (row + 1),
                bands > 0,
        ;
    }
}

/// Rows read all at once that could not be read are in no seat: the slab is
/// as it was before the cut that named them, and the next cut that names
/// them reads them.
pub proof fn a_failed_read_seats_no_row(v: SlabView, of: Slab, all: Seq<u32>)
    requires
        v.wf(of.rows, of.seats),
        of.bands@.len() > 0,
    ensures
        ({
            let c = cut(v, of, all);
            c.slab.stopped_after(c.landing, of.bands@.len(), 0) == v
        }),
{
    lemma_cut_undone(v, of, all);
    let c = cut(v, of, all);
    let n = of.bands@.len();
    assert(0int / n as int == 0) by (nonlinear_arith)
        requires
            n > 0,
    ;
    assert((SlabView { copies: (c.slab.copies + 0) as u64, ..c.slab }) =~= c.slab);
}

/// What naming rows does to a slab: a seat for each, one after another, and
/// nothing else.
spec fn named_on(v: SlabView, n: SlabView) -> bool {
    let many = n.pending.dom().len();
    &&& n == (SlabView { pending: n.pending, in_seat: n.in_seat, next: n.next, ..v })
    &&& n.in_seat.len() == v.in_seat.len()
    &&& n.pending.dom().finite()
    &&& n.next == v.next + many
    &&& n.next <= v.in_seat.len()
    &&& forall|id: i32| #[trigger] n.pending.contains_key(id) ==> v.next <= n.pending[id] < n.next
    &&& forall|q: int|
        0 <= q < v.in_seat.len() ==> if v.next <= q < n.next {
            n.pending.contains_key(#[trigger] n.in_seat[q]) && n.pending[n.in_seat[q]] == q
        } else {
            n.in_seat[q] == v.in_seat[q]
        }
}

proof fn lemma_name_lane(v: SlabView, a: Named, bands: Seq<Band>, rows: u64, seats: u32, lane: Seq<i32>)
    requires
        v.in_seat.len() == seats,
        named_on(v, a.slab),
    ensures
        named_on(v, name_lane(a, bands, rows, seats, lane).slab),
    decreases lane.len(),
{
    if lane.len() > 0 {
        lemma_name_lane(v, a, bands, rows, seats, lane.drop_last());
        let b = name_lane(a, bands, rows, seats, lane.drop_last());
        let c = b.name(bands, rows, seats, lane.last());
        if c.slab != b.slab {
            let id = lane.last();
            assert(c.slab.pending.dom() =~= b.slab.pending.dom().insert(id));
            assert forall|q: int| 0 <= q < v.in_seat.len() implies if v.next <= q < c.slab.next {
                c.slab.pending.contains_key(#[trigger] c.slab.in_seat[q])
                    && c.slab.pending[c.slab.in_seat[q]] == q
            } else {
                c.slab.in_seat[q] == v.in_seat[q]
            } by {
                if q != b.slab.next {
                    assert(c.slab.in_seat[q] == b.slab.in_seat[q]);
                }
            }
        }
    }
}

proof fn lemma_name_lanes(
    v: SlabView,
    a: Named,
    bands: Seq<Band>,
    rows: u64,
    seats: u32,
    lanes: Seq<Seq<i32>>,
)
    requires
        v.in_seat.len() == seats,
        named_on(v, a.slab),
    ensures
        named_on(v, name_lanes(a, bands, rows, seats, lanes).slab),
    decreases lanes.len(),
{
    if lanes.len() > 0 {
        lemma_name_lanes(v, a, bands, rows, seats, lanes.drop_last());
        let b = name_lanes(a, bands, rows, seats, lanes.drop_last());
        lemma_name_lane(v, Named { full: false, ..b }, bands, rows, seats, lanes.last());
    }
}

/// A prefetch that fails costs no seat: whatever rows it named, once it has
/// been taken the slab is as it was before they were named, so a fire finds
/// as many seats as if nothing had been guessed. The reads are counted.
pub proof fn a_failed_prefetch_costs_no_seat(
    v: SlabView,
    bands: Seq<Band>,
    rows: u64,
    seats: u32,
    lanes: Seq<Seq<i32>>,
    reads: u64,
    why: Fault,
)
    requires
        v.wf(rows, seats),
        v.pending == Map::<i32, u32>::empty(),
        !v.inflight,
    ensures
        ({
            let start = Named { slab: v, jobs: Seq::empty(), full: false };
            let named = name_lanes(start, bands, rows, seats, lanes).slab;
            (SlabView { reads, inflight: true, ..named }).joined(Err(why), bands.len()) == (SlabView {
                reads,
                ..v
            })
        }),
{
    let start = Named { slab: v, jobs: Seq::empty(), full: false };
    assert(v.pending.dom() =~= Set::empty());
    lemma_name_lanes(v, start, bands, rows, seats, lanes);
    let named = name_lanes(start, bands, rows, seats, lanes).slab;
    let flying = SlabView { reads, inflight: true, ..named };
    let w = flying.joined(Err(why), bands.len());
    assert(w.pending =~= v.pending);
    assert forall|q: int| 0 <= q < v.in_seat.len() implies #[trigger] w.in_seat[q] == v.in_seat[q] by {
        assert(flying.in_seat[q] == named.in_seat[q]);
        if flying.pending.contains_key(flying.in_seat[q]) && flying.pending[flying.in_seat[q]] == q {
            assert(named.pending.contains_key(named.in_seat[q]));
        }
    }
    assert(w.in_seat =~= v.in_seat);
    assert(w =~= (SlabView { reads, ..v }));
}

} // verus!
