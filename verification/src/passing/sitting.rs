//! Seating experts one after another, each pinned until the segment is over.

use vstd::prelude::*;

use crate::experts::deciding::{Landing, Stop};
use crate::passing::room::{lemma_place, lemma_touch, RoomView};

verus! {

/// A segment's seating, part of the way.
#[verifier::ext_equal]
pub struct Sitting {
    pub room: RoomView,
    /// The `(group, seat, expert)` whose bytes have yet to be copied.
    pub pending: Seq<Landing>,
    pub hits: nat,
    pub misses: nat,
    pub stop: Option<Stop>,
}

impl Sitting {
    pub open spec fn start(room: RoomView, pending: Seq<Landing>) -> Sitting {
        Sitting { room, pending, hits: 0, misses: 0, stop: None }
    }

    /// One expert more: it sits already, a hit unless this segment asked for
    /// it before, or it is given a seat.
    pub open spec fn seat(self, at: usize, expert: u32) -> Sitting {
        if self.stop is Some {
            self
        } else {
            match self.room.seat(at as int, expert as int) {
                Some(seat) => Sitting {
                    room: self.room.touch(seat),
                    hits: if self.room.pinned[seat as int] { self.hits } else { self.hits + 1 },
                    ..self
                },
                None => match self.room.victim() {
                    None => Sitting { misses: self.misses + 1, stop: Some(Stop::Full), ..self },
                    Some(seat) => Sitting {
                        room: self.room.place(at as int, expert),
                        pending: self.pending.push((at, seat, expert)),
                        misses: self.misses + 1,
                        ..self
                    },
                },
            }
        }
    }

    /// One entry of a routing vector more.
    pub open spec fn entry(self, at: usize, experts: u32, id: i32) -> Sitting {
        if self.stop is Some || id < 0 {
            self
        } else if id >= experts {
            Sitting { stop: Some(Stop::NoSuchExpert(id as u32)), ..self }
        } else {
            self.seat(at, id as u32)
        }
    }
}

/// Experts seated in order.
pub open spec fn sat_down(from: Sitting, at: usize, all: Seq<u32>) -> Sitting
    decreases all.len(),
{
    if all.len() == 0 {
        from
    } else {
        sat_down(from, at, all.drop_last()).seat(at, all.last())
    }
}

/// A routing vector seated, entry by entry.
pub open spec fn routed(from: Sitting, at: usize, experts: u32, ids: Seq<i32>) -> Sitting
    decreases ids.len(),
{
    if ids.len() == 0 {
        from
    } else {
        routed(from, at, experts, ids.drop_last()).entry(at, experts, ids.last())
    }
}

/// What every step of a segment keeps: who is pinned stays pinned, and sits
/// where they sat.
pub open spec fn keeps(v: RoomView, w: RoomView) -> bool {
    &&& w.inv()
    &&& w.in_seat.len() == v.in_seat.len()
    &&& w.seat_of.len() == v.seat_of.len()
    &&& forall|g: int| 0 <= g < v.seat_of.len() ==> (#[trigger] w.seat_of[g]).len() == v.seat_of[g].len()
    &&& forall|s: int| 0 <= s < v.pinned.len() && v.pinned[s] ==> #[trigger] w.pinned[s]
    &&& forall|g: int, e: int|
        v.names(g, e) && (v.seat(g, e) matches Some(s) && v.pinned[s as int]) ==> #[trigger] w.seat(g, e)
            == v.seat(g, e)
    &&& v.tick <= w.tick
}

/// `expert` of group `at` sits, and stays there until the segment is over.
pub open spec fn pinned_down(v: RoomView, at: int, expert: int) -> bool {
    v.seat(at, expert) matches Some(s) && s < v.pinned.len() && v.pinned[s as int]
}

pub proof fn lemma_keeps_trans(u: RoomView, v: RoomView, w: RoomView)
    requires
        u.inv(),
        keeps(u, v),
        keeps(v, w),
    ensures
        keeps(u, w),
        forall|g: int, e: int| v.names(g, e) && #[trigger] pinned_down(v, g, e) ==> pinned_down(w, g, e),
{
    assert forall|g: int| 0 <= g < u.seat_of.len() implies (#[trigger] w.seat_of[g]).len()
        == u.seat_of[g].len() by {
        assert(v.seat_of[g].len() == u.seat_of[g].len());
    }
    assert forall|s: int| 0 <= s < u.pinned.len() && u.pinned[s] implies #[trigger] w.pinned[s] by {
        assert(v.pinned[s]);
    }
    assert forall|g: int, e: int|
        u.names(g, e) && (u.seat(g, e) matches Some(s) && u.pinned[s as int]) implies #[trigger] w.seat(g, e)
        == u.seat(g, e) by {
        assert(v.seat(g, e) == u.seat(g, e));
        let s = u.seat(g, e)->0;
        assert(v.pinned[s as int]);
        assert(v.seat_of[g].len() == u.seat_of[g].len());
    }
    assert forall|g: int, e: int| v.names(g, e) && #[trigger] pinned_down(v, g, e) implies pinned_down(w, g, e) by {
        assert(w.seat(g, e) == v.seat(g, e));
        assert(w.pinned[v.seat(g, e)->0 as int]);
    }
}

/// One expert seated: it sits pinned, and whoever was pinned stays so.
pub proof fn lemma_seat(s: Sitting, at: usize, e: u32)
    requires
        s.room.inv(),
        s.room.names(at as int, e as int),
        s.room.tick <= u64::MAX,
    ensures
        keeps(s.room, s.seat(at, e).room),
        s.seat(at, e).stop is None ==> pinned_down(s.seat(at, e).room, at as int, e as int),
        s.seat(at, e).room.tick <= s.room.tick + 1,
        s.seat(at, e).hits <= s.hits + 1,
        s.seat(at, e).misses <= s.misses + 1,
        s.stop is Some || (s.seat(at, e).stop is None || s.seat(at, e).stop == Some(Stop::Full)),
{
    let v = s.room;
    let n = s.seat(at, e);
    if s.stop is None {
        match v.seat(at as int, e as int) {
            Some(t) => {
                lemma_touch(v, t);
                assert(n.room.seat_of == v.seat_of);
                assert(forall|g: int, x: int| n.room.seat(g, x) == #[trigger] v.seat(g, x));
            },
            None => {
                lemma_place(v, at as int, e);
            },
        }
    }
}

/// Experts seated in order, whole: while none was refused each of them sits
/// pinned.
pub proof fn lemma_sat_down(from: Sitting, at: usize, all: Seq<u32>)
    requires
        from.room.inv(),
        from.stop is None,
        at < from.room.seat_of.len(),
        forall|i: int| 0 <= i < all.len() ==> #[trigger] all[i] < from.room.seat_of[at as int].len(),
        from.room.tick + all.len() <= u64::MAX,
    ensures
        ({
            let n = sat_down(from, at, all);
            &&& keeps(from.room, n.room)
            &&& n.stop is None ==> forall|i: int|
                0 <= i < all.len() ==> pinned_down(n.room, at as int, #[trigger] all[i] as int)
            &&& n.room.tick <= from.room.tick + all.len()
            &&& n.hits <= from.hits + all.len()
            &&& n.misses <= from.misses + all.len()
            &&& n.stop is None || n.stop == Some(Stop::Full)
        }),
    decreases all.len(),
{
    if all.len() > 0 {
        let head = all.drop_last();
        let e = all.last();
        assert(all[all.len() - 1] == e);
        assert forall|i: int| 0 <= i < head.len() implies #[trigger] head[i] < from.room.seat_of[at as int].len() by {
            assert(head[i] == all[i]);
        }
        lemma_sat_down(from, at, head);
        let m = sat_down(from, at, head);
        let n = sat_down(from, at, all);
        assert(m.room.seat_of[at as int].len() == from.room.seat_of[at as int].len());
        lemma_seat(m, at, e);
        lemma_keeps_trans(from.room, m.room, n.room);
        if n.stop is None {
            assert forall|i: int| 0 <= i < all.len() implies pinned_down(
                n.room,
                at as int,
                #[trigger] all[i] as int,
            ) by {
                if i < head.len() {
                    assert(head[i] == all[i]);
                    assert(pinned_down(m.room, at as int, head[i] as int));
                    assert(m.room.names(at as int, all[i] as int));
                }
            }
        }
    }
}

/// A routing vector seated, whole: every expert it names up to where it was
/// refused sits pinned.
pub proof fn lemma_routed(from: Sitting, at: usize, experts: u32, ids: Seq<i32>)
    requires
        from.room.inv(),
        from.stop is None,
        at < from.room.seat_of.len(),
        from.room.seat_of[at as int].len() == experts,
        from.room.tick + ids.len() <= u64::MAX,
    ensures
        ({
            let n = routed(from, at, experts, ids);
            &&& keeps(from.room, n.room)
            &&& n.stop is None ==> forall|i: int|
                0 <= i < ids.len() && ids[i] >= 0 ==> #[trigger] ids[i] < experts && pinned_down(
                    n.room,
                    at as int,
                    ids[i] as int,
                )
            &&& n.room.tick <= from.room.tick + ids.len()
            &&& n.hits <= from.hits + ids.len()
            &&& n.misses <= from.misses + ids.len()
        }),
    decreases ids.len(),
{
    if ids.len() > 0 {
        let head = ids.drop_last();
        let id = ids.last();
        lemma_routed(from, at, experts, head);
        let m = routed(from, at, experts, head);
        let n = routed(from, at, experts, ids);
        assert(m.room.seat_of[at as int].len() == experts);
        if m.stop is None && 0 <= id < experts {
            lemma_seat(m, at, id as u32);
            lemma_keeps_trans(from.room, m.room, n.room);
        }
        if n.stop is None {
            assert forall|i: int| 0 <= i < ids.len() && ids[i] >= 0 implies #[trigger] ids[i] < experts
                && pinned_down(n.room, at as int, ids[i] as int) by {
                if i < head.len() {
                    assert(head[i] == ids[i]);
                    assert(pinned_down(m.room, at as int, head[i] as int));
                    assert(m.room.names(at as int, ids[i] as int));
                }
            }
        }
    }
}

/// A vector that was refused part of the way seats no more.
pub proof fn lemma_routed_stops(from: Sitting, at: usize, experts: u32, ids: Seq<i32>, n: int)
    requires
        0 <= n <= ids.len(),
        routed(from, at, experts, ids.take(n)).stop is Some,
    ensures
        routed(from, at, experts, ids) == routed(from, at, experts, ids.take(n)),
    decreases ids.len() - n,
{
    if n == ids.len() {
        assert(ids.take(n) =~= ids);
    } else {
        assert(ids.take(n + 1).drop_last() =~= ids.take(n));
        lemma_routed_stops(from, at, experts, ids, n + 1);
    }
}

/// Experts of whom one was refused: no more are seated.
pub proof fn lemma_sat_down_stops(from: Sitting, at: usize, all: Seq<u32>, n: int)
    requires
        0 <= n <= all.len(),
        sat_down(from, at, all.take(n)).stop is Some,
    ensures
        sat_down(from, at, all) == sat_down(from, at, all.take(n)),
    decreases all.len() - n,
{
    if n == all.len() {
        assert(all.take(n) =~= all);
    } else {
        assert(all.take(n + 1).drop_last() =~= all.take(n));
        lemma_sat_down_stops(from, at, all, n + 1);
    }
}

/// How many seats are pinned.
pub open spec fn pins(pinned: Seq<bool>) -> nat
    decreases pinned.len(),
{
    if pinned.len() == 0 {
        0
    } else {
        pins(pinned.drop_last()) + if pinned.last() { 1nat } else { 0nat }
    }
}

proof fn lemma_pins_update(pinned: Seq<bool>, s: int)
    requires
        0 <= s < pinned.len(),
    ensures
        pins(pinned.update(s, true)) <= pins(pinned) + 1,
    decreases pinned.len(),
{
    let w = pinned.update(s, true);
    if s == pinned.len() - 1 {
        assert(w.drop_last() =~= pinned.drop_last());
    } else {
        lemma_pins_update(pinned.drop_last(), s);
        assert(w.drop_last() =~= pinned.drop_last().update(s, true));
    }
}

/// Fewer pins than seats leave a seat.
proof fn lemma_a_seat_is_left(pinned: Seq<bool>)
    requires
        pins(pinned) < pinned.len(),
    ensures
        exists|s: int| 0 <= s < pinned.len() && !#[trigger] pinned[s],
    decreases pinned.len(),
{
    if pinned.last() {
        lemma_a_seat_is_left(pinned.drop_last());
        let s = choose|s: int| 0 <= s < pinned.drop_last().len() && !#[trigger] pinned.drop_last()[s];
        assert(!pinned[s]);
    } else {
        assert(!pinned[pinned.len() - 1]);
    }
}

/// Where a seat is not pinned, one of them is the coldest.
proof fn lemma_some_victim(v: RoomView, n: int)
    requires
        v.inv(),
        0 <= n <= v.in_seat.len(),
        exists|s: int| 0 <= s < n && !#[trigger] v.pinned[s],
    ensures
        exists|s: u32| {
            &&& #[trigger] least(v, s, n)
        },
    decreases n,
{
    let last = n - 1;
    if exists|s: int| 0 <= s < last && !#[trigger] v.pinned[s] {
        lemma_some_victim(v, last);
        let b = choose|s: u32| #[trigger] least(v, s, last);
        if !v.pinned[last] && v.last_used[last] < v.last_used[b as int] {
            assert(least(v, last as u32, n));
        } else {
            assert(least(v, b, n));
        }
    } else {
        assert(!v.pinned[last]);
        assert(least(v, last as u32, n));
    }
}

/// The coldest of the first `n` seats.
spec fn least(v: RoomView, s: u32, n: int) -> bool {
    &&& s < n
    &&& !v.pinned[s as int]
    &&& forall|t: int|
        0 <= t < n && !v.pinned[t] ==> {
            ||| v.last_used[s as int] < #[trigger] v.last_used[t]
            ||| v.last_used[s as int] == v.last_used[t] && s <= t
        }
}

/// A seat is refused only when every seat is pinned.
pub proof fn lemma_victim(v: RoomView)
    requires
        v.inv(),
        pins(v.pinned) < v.pinned.len(),
    ensures
        v.victim() is Some,
{
    lemma_a_seat_is_left(v.pinned);
    lemma_some_victim(v, v.in_seat.len() as int);
    let s = choose|s: u32| #[trigger] least(v, s, v.in_seat.len() as int);
    assert(v.coldest(s));
}

/// The seat that goes is the one not pinned that was used the longest ago,
/// and of two as long the first; none goes only where all are pinned.
pub proof fn the_coldest_unpinned_is_evicted(v: RoomView)
    requires
        v.inv(),
    ensures
        match v.victim() {
            Some(s) => {
                &&& s < v.in_seat.len()
                &&& !v.pinned[s as int]
                &&& forall|t: int|
                    0 <= t < v.in_seat.len() && !v.pinned[t] ==> v.last_used[s as int]
                        <= #[trigger] v.last_used[t]
                &&& forall|t: int|
                    0 <= t < s && !v.pinned[t] ==> v.last_used[s as int] < #[trigger] v.last_used[t]
            },
            None => forall|t: int| 0 <= t < v.in_seat.len() ==> #[trigger] v.pinned[t],
        },
{
    match v.victim() {
        Some(s) => {
            assert(v.coldest(s));
        },
        None => {
            if exists|t: int| 0 <= t < v.in_seat.len() && !#[trigger] v.pinned[t] {
                lemma_some_victim(v, v.in_seat.len() as int);
                let s = choose|s: u32| #[trigger] least(v, s, v.in_seat.len() as int);
                assert(v.coldest(s));
            }
        },
    }
}

/// As many experts as there are seats unpinned are never refused.
pub proof fn lemma_room_enough(from: Sitting, at: usize, all: Seq<u32>)
    requires
        from.room.inv(),
        from.stop is None,
        at < from.room.seat_of.len(),
        forall|i: int| 0 <= i < all.len() ==> #[trigger] all[i] < from.room.seat_of[at as int].len(),
        from.room.tick + all.len() <= u64::MAX,
        pins(from.room.pinned) + all.len() <= from.room.pinned.len(),
    ensures
        sat_down(from, at, all).stop is None,
        pins(sat_down(from, at, all).room.pinned) <= pins(from.room.pinned) + all.len(),
    decreases all.len(),
{
    if all.len() > 0 {
        let head = all.drop_last();
        let e = all.last();
        assert(all[all.len() - 1] == e);
        assert forall|i: int| 0 <= i < head.len() implies #[trigger] head[i] < from.room.seat_of[at as int].len() by {
            assert(head[i] == all[i]);
        }
        lemma_room_enough(from, at, head);
        lemma_sat_down(from, at, head);
        let m = sat_down(from, at, head);
        assert(m.room.seat_of[at as int].len() == from.room.seat_of[at as int].len());
        lemma_victim(m.room);
        match m.room.seat(at as int, e as int) {
            Some(s) => {
                assert(m.room.names(at as int, e as int));
                lemma_pins_update(m.room.pinned, s as int);
            },
            None => {
                lemma_place(m.room, at as int, e);
                lemma_pins_update(m.room.pinned, m.room.victim()->0 as int);
            },
        }
    }
}

/// Nothing is pinned once every pin is let go.
pub proof fn lemma_no_pins(n: nat)
    ensures
        pins(Seq::new(n, |s: int| false)) == 0,
    decreases n,
{
    if n > 0 {
        lemma_no_pins((n - 1) as nat);
        assert(Seq::new(n, |s: int| false).drop_last() =~= Seq::new((n - 1) as nat, |s: int| false));
    }
}

} // verus!
