//! What holds of the seats as segments and reads come and go.

use vstd::prelude::*;
use vstd::set_lib::lemma_len_subset;

use crate::experts::deciding::{decided, deciding_seats_every_expert, Deciding, Landing, Stop};
use crate::experts::landing::{joined, lemma_joined};
use crate::experts::laws::a_victim_is_free_and_coldest;
use crate::experts::pool::{
    lemma_bump, lemma_first_unheld, lemma_without, without, Hold, PoolView,
};
use crate::experts::seats::{lemma_assign, lemma_pick, SeatsView};
use crate::experts::tier::in_the_air;

verus! {

/// How many seats something holds.
spec fn held(holds: Seq<Hold>) -> nat
    decreases holds.len(),
{
    if holds.len() == 0 {
        0
    } else {
        held(holds.drop_last()) + if holds.last() != Hold::Free { 1nat } else { 0nat }
    }
}

proof fn lemma_hold_one(holds: Seq<Hold>, s: int, hold: Hold)
    requires
        0 <= s < holds.len(),
        holds[s] == Hold::Free,
        hold != Hold::Free,
    ensures
        held(holds.update(s, hold)) == held(holds) + 1,
    decreases holds.len(),
{
    let w = holds.update(s, hold);
    if s == holds.len() - 1 {
        assert(w.drop_last() =~= holds.drop_last());
    } else {
        lemma_hold_one(holds.drop_last(), s, hold);
        assert(w.drop_last() =~= holds.drop_last().update(s, hold));
    }
}

proof fn lemma_all_held(holds: Seq<Hold>)
    requires
        forall|s: int| 0 <= s < holds.len() ==> #[trigger] holds[s] != Hold::Free,
    ensures
        held(holds) == holds.len(),
    decreases holds.len(),
{
    if holds.len() > 0 {
        assert forall|s: int| 0 <= s < holds.drop_last().len() implies #[trigger] holds.drop_last()[s] != Hold::Free by {
            assert(holds[s] != Hold::Free);
        }
        lemma_all_held(holds.drop_last());
        assert(holds[holds.len() - 1] != Hold::Free);
    }
}

proof fn lemma_none_held(holds: Seq<Hold>)
    requires
        forall|s: int| 0 <= s < holds.len() ==> #[trigger] holds[s] == Hold::Free,
    ensures
        held(holds) == 0,
    decreases holds.len(),
{
    if holds.len() > 0 {
        assert forall|s: int| 0 <= s < holds.drop_last().len() implies #[trigger] holds.drop_last()[s] == Hold::Free by {
            assert(holds[s] == Hold::Free);
        }
        lemma_none_held(holds.drop_last());
        assert(holds[holds.len() - 1] == Hold::Free);
    }
}

/// So many experts there are below `n`.
proof fn lemma_below(n: u32)
    ensures
        Set::new(|e: u32| e < n).finite(),
        Set::new(|e: u32| e < n).len() == n,
    decreases n,
{
    let all = Set::new(|e: u32| e < n);
    if n == 0 {
        assert(all =~= Set::empty());
    } else {
        let m = (n - 1) as u32;
        lemma_below(m);
        let rest = Set::new(|e: u32| e < m);
        assert(all =~= rest.insert(m));
        assert(!rest.contains(m));
    }
}

/// Part of the way through a segment, a seat is held just when an expert of
/// the segment was given it.
spec fn held_for(d: Deciding) -> bool {
    &&& held(d.seats.pool.holds) == d.taken.dom().len()
    &&& forall|s: int|
        0 <= s < d.seats.pool.holds.len() && #[trigger] d.seats.pool.holds[s] != Hold::Free ==> exists|e: u32|
            #[trigger] d.taken.contains_key(e) && d.taken[e] == s
}

proof fn lemma_taking(d: Deciding, n: Deciding, e: u32, s: u32)
    requires
        held_for(d),
        d.taken.dom().finite(),
        !d.taken.contains_key(e),
        n.taken == d.taken.insert(e, s),
        s < d.seats.pool.holds.len(),
        d.seats.pool.holds[s as int] == Hold::Free,
        n.seats.pool.holds == d.seats.pool.holds.update(s as int, Hold::Segment),
    ensures
        held_for(n),
{
    lemma_hold_one(d.seats.pool.holds, s as int, Hold::Segment);
    assert(n.taken.dom() =~= d.taken.dom().insert(e));
    assert forall|t: int|
        0 <= t < n.seats.pool.holds.len() && #[trigger] n.seats.pool.holds[t] != Hold::Free implies exists|f: u32|
        #[trigger] n.taken.contains_key(f) && n.taken[f] == t by {
        if t == s {
            assert(n.taken.contains_key(e) && n.taken[e] == t);
        } else {
            assert(d.seats.pool.holds[t] != Hold::Free);
            let f = choose|f: u32| #[trigger] d.taken.contains_key(f) && d.taken[f] == t;
            assert(n.taken.contains_key(f) && n.taken[f] == t);
        }
    }
}

proof fn lemma_held_for(v: SeatsView, at: usize, experts: u32, ids: Seq<i32>)
    requires
        v.inv(),
        at < v.seat_of.len(),
        v.seat_of[at as int].len() == experts,
        forall|s: int| 0 <= s < v.pool.holds.len() ==> #[trigger] v.pool.holds[s] == Hold::Free,
        experts <= v.pool.holds.len(),
    ensures
        decided(v, at, experts, ids).stop is None ==> held_for(decided(v, at, experts, ids)),
        decided(v, at, experts, ids).stop != Some(Stop::Full),
    decreases ids.len(),
{
    if ids.len() == 0 {
        lemma_none_held(v.pool.holds);
        assert(decided(v, at, experts, ids).taken.dom() =~= Set::empty());
    } else {
        let head = ids.drop_last();
        let id = ids.last();
        lemma_held_for(v, at, experts, head);
        deciding_seats_every_expert(v, at, experts, head);
        let d = decided(v, at, experts, head);
        let n = decided(v, at, experts, ids);
        if d.stop is None && 0 <= id < experts {
            let e = id as u32;
            if d.taken.contains_key(e) {
                assert(n.seats.pool.holds == d.seats.pool.holds);
            } else {
                assert(d.seats.names(at as int, e as int));
                match d.seats.seat(at as int, id as int) {
                    Some(s) => {
                        if d.seats.pool.holds[s as int] != Hold::Free {
                            let f = choose|f: u32| #[trigger] d.taken.contains_key(f) && d.taken[f] == s;
                            if d.seats.seat(at as int, f as int) == Some(s) {
                                assert(d.seats.names(at as int, f as int));
                            } else {
                                let i = d.landing.index_of((at, s, f));
                                assert(d.landing[i] == (at, s, f));
                            }
                        }
                        lemma_taking(d, n, e, s);
                    },
                    None => {
                        lemma_pick(d.seats);
                        match d.seats.pool.pick() {
                            Some(s) => {
                                lemma_taking(d, n, e, s);
                            },
                            None => {
                                a_victim_is_free_and_coldest(d.seats);
                                lemma_all_held(d.seats.pool.holds);
                                lemma_below(experts);
                                let all = Set::new(|f: u32| f < experts);
                                let named = d.taken.dom().insert(e);
                                assert(named.subset_of(all)) by {
                                    assert forall|f: u32| named.contains(f) implies all.contains(f) by {
                                        if f != e {
                                            assert(d.taken.contains_key(f));
                                        }
                                    }
                                }
                                lemma_len_subset(named, all);
                            },
                        }
                    },
                }
            }
        }
    }
}

/// A decode segment is never refused a seat: a pool with a seat for every
/// expert of a layer, none of them held, seats whatever the segment names.
pub proof fn a_layer_always_finds_seats(v: SeatsView, at: usize, experts: u32, ids: Seq<i32>)
    requires
        v.inv(),
        at < v.seat_of.len(),
        v.seat_of[at as int].len() == experts,
        forall|s: int| 0 <= s < v.pool.holds.len() ==> #[trigger] v.pool.holds[s] == Hold::Free,
        experts <= v.pool.holds.len(),
    ensures
        decided(v, at, experts, ids).stop is None <==> forall|i: int|
            0 <= i < ids.len() && #[trigger] ids[i] >= 0 ==> ids[i] < experts,
{
    lemma_held_for(v, at, experts, ids);
    lemma_names_no_other(v, at, experts, ids);
}

/// A segment that is not refused a seat is refused just when it names an
/// expert there is not.
proof fn lemma_names_no_other(v: SeatsView, at: usize, experts: u32, ids: Seq<i32>)
    requires
        decided(v, at, experts, ids).stop != Some(Stop::Full),
    ensures
        decided(v, at, experts, ids).stop is None <==> forall|i: int|
            0 <= i < ids.len() && #[trigger] ids[i] >= 0 ==> ids[i] < experts,
    decreases ids.len(),
{
    if ids.len() > 0 {
        let head = ids.drop_last();
        let d = decided(v, at, experts, head);
        let n = decided(v, at, experts, ids);
        lemma_names_no_other(v, at, experts, head);
        if d.stop is None {
            assert forall|i: int| 0 <= i < head.len() && #[trigger] ids[i] >= 0 implies ids[i] < experts by {
                assert(head[i] == ids[i]);
            }
            if n.stop is None {
                assert forall|i: int| 0 <= i < ids.len() && #[trigger] ids[i] >= 0 implies ids[i] < experts by {
                    if i < head.len() {
                        assert(head[i] == ids[i]);
                    }
                }
            } else {
                assert(ids[ids.len() - 1] >= experts);
            }
        } else {
            let i = choose|i: int| 0 <= i < head.len() && #[trigger] head[i] >= 0 && head[i] >= experts;
            assert(ids[i] == head[i]);
        }
    }
}

/// A read in flight that was refused makes nobody resident: its seats are
/// empty, free, and the next to be taken.
pub proof fn a_refused_read_leaves_no_false_hit(v: SeatsView, landing: Seq<Landing>)
    requires
        v.inv(),
        in_the_air(v, landing, Hold::Inflight),
    ensures
        joined(v, landing, false).inv(),
        joined(v, landing, false).seat_of == v.seat_of,
        forall|i: int|
            0 <= i < landing.len() ==> {
                &&& joined(v, landing, false).pool.in_seat[(#[trigger] landing[i]).1 as int] is None
                &&& joined(v, landing, false).pool.holds[landing[i].1 as int] == Hold::Free
                &&& joined(v, landing, false).pool.free.contains(landing[i].1)
            },
        landing.len() > 0 ==> joined(v, landing, false).pool.pick() == Some(landing.last().1),
    decreases landing.len(),
{
    lemma_joined(v, landing, false);
    if landing.len() > 0 {
        let head = landing.drop_last();
        let last = landing.last();
        assert(in_the_air(v, head, Hold::Inflight)) by {
            assert forall|i: int| 0 <= i < head.len() implies #[trigger] head[i] == landing[i] by {}
            assert forall|i: int, j: int| 0 <= i < j < head.len() implies (#[trigger] head[i]).1 != (
            #[trigger] head[j]).1 by {
                assert(head[i] == landing[i] && head[j] == landing[j]);
            }
        }
        a_refused_read_leaves_no_false_hit(v, head);
        let w = joined(v, head, false);
        let x = joined(v, landing, false);
        assert(landing[landing.len() - 1] == last);
        assert(x.pool == w.pool.strip(last.1));
        assert(x.pool.free == w.pool.free.push(last.1));
        assert(x.pool.free[w.pool.free.len() as int] == last.1);
        assert forall|i: int| 0 <= i < landing.len() implies {
            &&& x.pool.in_seat[(#[trigger] landing[i]).1 as int] is None
            &&& x.pool.holds[landing[i].1 as int] == Hold::Free
            &&& x.pool.free.contains(landing[i].1)
        } by {
            if i < head.len() {
                assert(head[i] == landing[i]);
                assert(w.pool.free.contains(head[i].1));
                let j = w.pool.free.index_of(head[i].1);
                assert(x.pool.free[j] == landing[i].1);
            }
        }
    }
}

/// A read in flight that landed makes each of its experts resident where it
/// was read to, and lets the seat go.
pub proof fn a_landed_read_is_resident(v: SeatsView, landing: Seq<Landing>)
    requires
        v.inv(),
        in_the_air(v, landing, Hold::Inflight),
        forall|i: int, j: int|
            0 <= i < j < landing.len() ==> ((#[trigger] landing[i]).0, landing[i].2) != ((
            #[trigger] landing[j]).0, landing[j].2),
    ensures
        joined(v, landing, true).inv(),
        forall|i: int|
            0 <= i < landing.len() ==> joined(v, landing, true).seat(
                (#[trigger] landing[i]).0 as int,
                landing[i].2 as int,
            ) == Some(landing[i].1),
    decreases landing.len(),
{
    lemma_joined(v, landing, true);
    if landing.len() > 0 {
        let head = landing.drop_last();
        let last = landing.last();
        assert(in_the_air(v, head, Hold::Inflight)) by {
            assert forall|i: int| 0 <= i < head.len() implies #[trigger] head[i] == landing[i] by {}
            assert forall|i: int, j: int| 0 <= i < j < head.len() implies (#[trigger] head[i]).1 != (
            #[trigger] head[j]).1 by {
                assert(head[i] == landing[i] && head[j] == landing[j]);
            }
        }
        assert forall|i: int, j: int| 0 <= i < j < head.len() implies ((#[trigger] head[i]).0, head[i].2)
            != ((#[trigger] head[j]).0, head[j].2) by {
            assert(head[i] == landing[i] && head[j] == landing[j]);
        }
        a_landed_read_is_resident(v, head);
        lemma_joined(v, head, true);
        let w = joined(v, head, true);
        let x = joined(v, landing, true);
        assert(landing[landing.len() - 1] == last);
        assert(v.names(last.0 as int, last.2 as int));
        assert(w.seat_of[last.0 as int].len() == v.seat_of[last.0 as int].len());
        assert forall|i: int| 0 <= i < landing.len() implies x.seat(
            (#[trigger] landing[i]).0 as int,
            landing[i].2 as int,
        ) == Some(landing[i].1) by {
            if i < head.len() {
                assert(head[i] == landing[i]);
                assert(v.names(landing[i].0 as int, landing[i].2 as int));
            }
        }
    }
}

/// A seat taken back for reuse is the one the next miss takes.
pub proof fn a_seat_taken_back_goes_first(p: PoolView, seat: u32)
    requires
        seat < p.holds.len(),
        p.in_seat.len() == p.holds.len(),
    ensures
        p.strip(seat).pick() == Some(seat),
        p.strip(seat).in_seat[seat as int] is None,
        p.strip(seat).holds[seat as int] == Hold::Free,
{
}

/// Seats never used go first, in order: of a pool of `slots` of which the
/// first `k` were taken so, the next is seat `k`.
pub proof fn unused_seats_go_first_in_order(p: PoolView, slots: u32, k: u32)
    requires
        k < slots,
        p.free == PoolView::empty(slots as nat).free.take(slots - k),
    ensures
        p.pick() == Some(k),
        p.picked().free == PoolView::empty(slots as nat).free.take(slots - k - 1),
{
    assert(p.picked().free =~= PoolView::empty(slots as nat).free.take(slots - k - 1));
}

/// The seat used last is the last to go: as long as nothing holds another,
/// it is not the one the next miss takes.
pub proof fn the_most_recent_goes_last(v: SeatsView, s: u32, t: u32)
    requires
        v.inv(),
        v.pool.list.contains(s),
        s != t,
        v.pool.list.contains(t) || v.pool.free.contains(t),
        v.pool.holds[t as int] == Hold::Free,
    ensures
        v.pool.bump(s).pick() != Some(s),
{
    let p = v.pool.bump(s);
    if p.free.len() > 0 {
        assert(v.pool.free.contains(p.free.last()));
    } else {
        assert(!v.pool.free.contains(t));
        lemma_bump(v.pool.list, s);
        lemma_first_unheld(p.list, p.holds);
        if p.pick() == Some(s) {
            let rest = without(v.pool.list, s);
            assert(p.list == rest.push(s));
            crate::experts::pool::lemma_without(v.pool.list, s);
            assert(rest.contains(t));
            let j = rest.index_of(t);
            assert(p.list[j] == t);
            let i = choose|i: int|
                0 <= i < p.list.len() && #[trigger] p.list[i] == s && forall|j: int|
                    0 <= j < i ==> p.holds[#[trigger] p.list[j] as int] != Hold::Free;
            assert(p.list[p.list.len() - 1] == s);
        }
    }
}

/// Saying that an expert sits in a seat nobody else sits in: it sits there
/// and nowhere else, and the seats and the experts still tell the same. A
/// seat it held before goes back empty, held by nothing, off the list and
/// the next to be taken; everyone else stays. It counts as one more expert
/// just when it never sat before.
pub proof fn an_assigned_expert_sits_in_that_seat_alone(v: SeatsView, at: int, seat: u32, expert: u32)
    requires
        v.paired(),
        v.can_assign(at, seat, expert),
        v.pool.list.no_duplicates(),
    ensures
        ({
            let w = v.assign(at, seat, expert);
            &&& w.paired()
            &&& w.seat(at, expert as int) == Some(seat)
            &&& w.pool.in_seat[seat as int] == Some((at as u32, expert))
            &&& forall|s: int|
                0 <= s < w.pool.in_seat.len() && s != seat ==> #[trigger] w.pool.in_seat[s] != Some(
                    (at as u32, expert),
                )
            &&& v.seat(at, expert as int) matches Some(was) ==> was != seat ==> {
                &&& w.pool.in_seat[was as int] is None
                &&& w.pool.holds[was as int] == Hold::Free
                &&& !w.pool.list.contains(was)
                &&& w.pool.free.last() == was
                &&& w.pool.pick() == Some(was)
            }
            &&& forall|g: int, e: int|
                v.names(g, e) && !(g == at && e == expert) ==> #[trigger] w.seat(g, e) == v.seat(g, e)
            &&& w.distinct == v.distinct + if v.ever[at][expert as int] { 0int } else { 1int }
            &&& w.ever[at][expert as int]
        }),
{
    let w = v.assign(at, seat, expert);
    let p = v.pool;
    let q = w.pool;
    if let Some(was) = v.seat(at, expert as int) {
        if was != seat {
            lemma_without(p.list, was);
            assert(p.in_seat[was as int] == Some((at as u32, expert)));
        }
    }
    lemma_assign(v, at, seat, expert);
    assert forall|s: int| 0 <= s < q.in_seat.len() && s != seat implies #[trigger] q.in_seat[s] != Some(
        (at as u32, expert),
    ) by {
        if q.in_seat[s] == Some((at as u32, expert)) {
            assert(w.seat(at, expert as int) == Some(s as u32));
        }
    }
}

} // verus!
