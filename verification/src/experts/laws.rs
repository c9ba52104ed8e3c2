//! What holds of the seats across calls.

use vstd::prelude::*;

use crate::experts::pool::{lemma_first_unheld, lemma_without, without, Hold};
use crate::experts::ring::{
    give_back, half, lemma_give_back, lemma_lend, lemma_strip_all, lend, strip_all,
};
use crate::experts::seats::{lemma_pick, SeatsView};
use crate::experts::tier::{borrowed, RingView, TierView};

verus! {

/// The seat the next miss takes is held by nothing: the last one never used
/// while any is, and after that the least recently used of those nothing
/// holds.
pub proof fn a_victim_is_free_and_coldest(v: SeatsView)
    requires
        v.inv(),
    ensures
        match v.pool.pick() {
            Some(seat) => {
                &&& v.pool.holds[seat as int] == Hold::Free
                &&& v.pool.free.len() > 0 ==> seat == v.pool.free.last()
                &&& v.pool.free.len() == 0 ==> exists|i: int|
                    0 <= i < v.pool.list.len() && #[trigger] v.pool.list[i] == seat && forall|j: int|
                        0 <= j < i ==> v.pool.holds[#[trigger] v.pool.list[j] as int] != Hold::Free
            },
            None => {
                &&& v.pool.free.len() == 0
                &&& forall|s: int|
                    0 <= s < v.pool.holds.len() ==> #[trigger] v.pool.holds[s] != Hold::Free
            },
        },
{
    lemma_pick(v);
    lemma_first_unheld(v.pool.list, v.pool.holds);
    if v.pool.pick() is None {
        assert forall|s: int| 0 <= s < v.pool.holds.len() implies #[trigger] v.pool.holds[s] != Hold::Free by {
            assert(v.pool.list.contains(s as u32) || v.pool.free.contains(s as u32));
            let j = v.pool.list.index_of(s as u32);
            assert(v.pool.list[j] == s as u32);
        }
    }
}

/// An expert that is resident is the only one in its seat, and sits in no
/// other.
pub proof fn an_expert_sits_alone_in_one_seat(v: SeatsView, g: int, e: int, h: int, f: int)
    requires
        v.inv(),
        v.names(g, e),
        v.names(h, f),
        v.seat(g, e) is Some,
        v.seat(g, e) == v.seat(h, f),
    ensures
        g == h && e == f,
{
    let s = v.seat(g, e)->0;
    assert(v.seat(h, f) == Some(s));
    assert(v.pool.in_seat[s as int] == Some((g as u32, e as u32)));
    assert(v.pool.in_seat[s as int] == Some((h as u32, f as u32)));
    assert(v.seat_of[g].len() <= u32::MAX && v.seat_of[h].len() <= u32::MAX);
}

/// A prefill fire borrows `2 * experts` seats, each once, and once it has
/// given them back no expert that sat elsewhere has lost its seat: the
/// damage to the working set is those seats, whatever the layer count.
pub proof fn a_prefill_fire_costs_its_own_seats(v: SeatsView, ring: RingView)
    requires
        v.inv(),
        lend(v, 2 * ring.experts as nat).ok,
        ring.seats == lend(v, 2 * ring.experts as nat).lent,
        forall|g: int| 0 <= g < v.seat_of.len() ==> (#[trigger] v.seat_of[g]).len() == ring.experts,
        ring.holds.0 matches Some(g) ==> g < v.seat_of.len(),
        ring.holds.1 matches Some(g) ==> g < v.seat_of.len(),
    ensures
        ring.seats.len() == 2 * ring.experts,
        ring.seats.no_duplicates(),
        ({
            let w = give_back(lend(v, 2 * ring.experts as nat).seats, ring, ring.seats.len());
            &&& w.inv()
            &&& forall|g: int, e: int|
                v.names(g, e) && v.seat(g, e) is Some && !ring.seats.contains(v.seat(g, e)->0)
                    ==> #[trigger] w.seat(g, e) is Some
        }),
{
    let n = 2 * ring.experts as nat;
    let l = lend(v, n);
    lemma_lend(v, n);
    assert forall|g: int| 0 <= g < l.seats.seat_of.len() implies (#[trigger] l.seats.seat_of[g]).len()
        == ring.experts by {
        assert(l.seats.seat_of[g].len() == v.seat_of[g].len());
    }
    lemma_give_back(l.seats, ring, ring.seats.len());
    let w = give_back(l.seats, ring, ring.seats.len());
    assert forall|g: int, e: int|
        v.names(g, e) && v.seat(g, e) is Some && !ring.seats.contains(v.seat(g, e)->0) implies #[trigger] w.seat(
        g,
        e,
    ) is Some by {
        assert(l.seats.seat_of[g].len() == v.seat_of[g].len());
        assert(l.seats.names(g, e));
        assert(l.seats.seat(g, e) == v.seat(g, e));
    }
}

/// A borrow the pool cannot meet leaves every seat held as it was: none is
/// lost for the rest of the load.
pub proof fn a_refused_borrow_gives_its_seats_back(v: SeatsView, n: nat)
    requires
        v.inv(),
        !lend(v, n).ok,
    ensures
        ({
            let w = strip_all(lend(v, n).seats, lend(v, n).lent);
            &&& w.inv()
            &&& w.pool.holds =~= v.pool.holds
        }),
{
    let l = lend(v, n);
    lemma_lend(v, n);
    lemma_strip_all(l.seats, l.lent);
    lemma_stripped_free(l.seats, l.lent);
    lemma_lend_holds(v, n);
    let w = strip_all(l.seats, l.lent);
    assert forall|s: int| 0 <= s < v.pool.holds.len() implies w.pool.holds[s] == v.pool.holds[s] by {
        if l.lent.contains(s as u32) {
            let i = l.lent.index_of(s as u32);
            assert(l.lent[i] == s as u32);
            assert(v.pool.holds[l.lent[i] as int] == Hold::Free);
        }
    }
}

/// What a borrow holds is what it lends, and nothing else changes hands.
proof fn lemma_lend_holds(v: SeatsView, n: nat)
    requires
        v.inv(),
    ensures
        forall|s: int|
            0 <= s < v.pool.holds.len() && !lend(v, n).lent.contains(s as u32) ==> #[trigger] lend(
                v,
                n,
            ).seats.pool.holds[s] == v.pool.holds[s],
    decreases n,
{
    if n > 0 {
        lemma_lend_holds(v, (n - 1) as nat);
        lemma_lend(v, (n - 1) as nat);
        let l = lend(v, (n - 1) as nat);
        let m = lend(v, n);
        if l.ok && l.seats.pool.pick() is Some {
            let seat = l.seats.pool.pick()->0;
            lemma_pick(l.seats);
            assert forall|s: int| 0 <= s < v.pool.holds.len() && !m.lent.contains(s as u32) implies #[trigger] m.seats.pool.holds[s]
                == v.pool.holds[s] by {
                assert(m.lent[l.lent.len() as int] == seat);
                assert(s != seat);
                if l.lent.contains(s as u32) {
                    let i = l.lent.index_of(s as u32);
                    assert(m.lent[i] == s as u32);
                }
                assert(l.seats.pool.holds[s] == v.pool.holds[s]);
            }
        }
    }
}

/// A seat handed back unused is held by nothing.
proof fn lemma_stripped_free(v: SeatsView, seats: Seq<u32>)
    requires
        v.inv(),
        borrowed(v, seats),
    ensures
        forall|i: int|
            0 <= i < seats.len() ==> strip_all(v, seats).pool.holds[#[trigger] seats[i] as int] == Hold::Free,
    decreases seats.len(),
{
    if seats.len() > 0 {
        let head = seats.drop_last();
        assert(borrowed(v, head)) by {
            assert forall|i: int| 0 <= i < head.len() implies #[trigger] head[i] == seats[i] by {}
        }
        lemma_stripped_free(v, head);
        lemma_strip_all(v, head);
        let w = strip_all(v, head);
        assert forall|i: int| 0 <= i < seats.len() implies strip_all(v, seats).pool.holds[#[trigger] seats[i] as int]
            == Hold::Free by {
            assert(seats[i] < v.pool.holds.len());
            if i < head.len() {
                assert(head[i] == seats[i]);
                assert(w.pool.holds[head[i] as int] == Hold::Free);
            }
        }
    }
}

/// A fire's end leaves the layers its ring held resident, the last fill's
/// among them if it landed, expert by expert, in the seats they were filled
/// into.
pub proof fn a_returned_ring_leaves_its_layers_resident(v: TierView, ok: bool, h: int, e: int)
    requires
        v.wf(),
        v.whole,
        0 <= h < 2,
        0 <= e < v.ring->0.experts,
    ensures
        ({
            let ring = v.ring->0.joined(ok, None, 0);
            half(ring.holds, h) matches Some(g) ==> v.returned(ok).seats.seat(g as int, e) == Some(
                ring.seats[h * ring.experts + e],
            )
        }),
{
    let ring = v.ring->0.joined(ok, None, 0);
    if half(ring.holds, h) is Some {
        lemma_given_seat(
            v.seats,
            ring,
            if h == 0 {
                e
            } else {
                ring.experts + e
            },
            ring.seats.len(),
        );
        assert(h * ring.experts == if h == 0 { 0 } else { ring.experts as int }) by (nonlinear_arith)
            requires
                h == 0 || h == 1,
        ;
    }
}

proof fn lemma_given_seat(v: SeatsView, ring: RingView, at: int, k: nat)
    requires
        v.inv(),
        borrowed(v, ring.seats),
        ring.seats.len() == 2 * ring.experts,
        forall|g: int| 0 <= g < v.seat_of.len() ==> (#[trigger] v.seat_of[g]).len() == ring.experts,
        ring.holds.0 matches Some(g) ==> g < v.seat_of.len(),
        ring.holds.1 matches Some(g) ==> g < v.seat_of.len(),
        ring.holds.0 is Some ==> ring.holds.0 != ring.holds.1,
        0 <= at < k <= ring.seats.len(),
        half(ring.holds, if at < ring.experts { 0 } else { 1 }) is Some,
    ensures
        ({
            let g = half(ring.holds, if at < ring.experts { 0 } else { 1 })->0;
            let e = if at < ring.experts { at } else { at - ring.experts };
            give_back(v, ring, k).seat(g as int, e) == Some(ring.seats[at])
        }),
    decreases k,
{
    let g = half(ring.holds, if at < ring.experts { 0 } else { 1 })->0;
    let e = if at < ring.experts { at } else { at - ring.experts };
    let i = k - 1;
    lemma_give_back(v, ring, i as nat);
    let w = give_back(v, ring, i as nat);
    assert(w.seat_of[g as int].len() == ring.experts);
    if at < i {
        lemma_given_seat(v, ring, at, i as nat);
        match half(ring.holds, if i < ring.experts { 0 } else { 1 }) {
            Some(other) => {
                assert(w.seat_of[other as int].len() == ring.experts);
            },
            None => {},
        }
    }
}

/// A ring given back lies at the cold end of the list: no seat that was
/// never the ring's stands ahead of one that was.
pub proof fn a_returned_ring_is_evicted_first(v: TierView, ok: bool, i: int, j: int)
    requires
        v.wf(),
        v.whole,
        0 <= i < j < v.returned(ok).seats.pool.list.len(),
        v.ring->0.seats.contains(v.returned(ok).seats.pool.list[j]),
    ensures
        v.ring->0.seats.contains(v.returned(ok).seats.pool.list[i]),
{
    let ring = v.ring->0.joined(ok, None, 0);
    lemma_given_back_cold(v.seats, ring, ring.seats.len());
    assert(ring.seats.take(ring.seats.len() as int) =~= ring.seats);
}

/// The seats of `given` stand ahead of all others on `list`.
spec fn ahead(list: Seq<u32>, given: Seq<u32>) -> bool {
    forall|i: int, j: int|
        0 <= i < j < list.len() && given.contains(#[trigger] list[j]) ==> given.contains(#[trigger] list[i])
}

proof fn lemma_ahead_without(list: Seq<u32>, given: Seq<u32>, seat: u32)
    requires
        ahead(list, given),
    ensures
        ahead(without(list, seat), given),
{
    if list.contains(seat) {
        let at = list.index_of(seat);
        let now = list.remove(at);
        assert forall|i: int, j: int| 0 <= i < j < now.len() && given.contains(#[trigger] now[j]) implies given.contains(
        #[trigger] now[i]) by {
            let p = if i < at { i } else { i + 1 };
            let q = if j < at { j } else { j + 1 };
            assert(now[i] == list[p] && now[j] == list[q]);
        }
    }
}

proof fn lemma_given_back_cold(v: SeatsView, ring: RingView, k: nat)
    requires
        v.inv(),
        borrowed(v, ring.seats),
        ring.seats.len() == 2 * ring.experts,
        forall|g: int| 0 <= g < v.seat_of.len() ==> (#[trigger] v.seat_of[g]).len() == ring.experts,
        ring.holds.0 matches Some(g) ==> g < v.seat_of.len(),
        ring.holds.1 matches Some(g) ==> g < v.seat_of.len(),
        k <= ring.seats.len(),
    ensures
        ahead(give_back(v, ring, k).pool.list, ring.seats.take(k as int)),
    decreases k,
{
    if k > 0 {
        let i = k - 1;
        lemma_given_back_cold(v, ring, i as nat);
        lemma_give_back(v, ring, i as nat);
        let w = give_back(v, ring, i as nat);
        let seat = ring.seats[i];
        let held = half(ring.holds, if i < ring.experts { 0 } else { 1 });
        let e = (if i < ring.experts { i } else { i - ring.experts }) as u32;
        let before = ring.seats.take(i);
        let given = ring.seats.take(k as int);
        assert(given[i] == seat);
        assert forall|q: u32| #[trigger] given.contains(q) <==> before.contains(q) || q == seat by {
            if before.contains(q) {
                assert(given[before.index_of(q)] == q);
            }
            if given.contains(q) && q != seat {
                assert(before[given.index_of(q)] == q);
            }
        }
        match held {
            Some(group) => {
                let x = w.with_pool(w.pool.hold(seat, Hold::Free));
                let y = x.assign(group as int, seat, e);
                if let Some(was) = x.seat(group as int, e as int) {
                    lemma_ahead_without(w.pool.list, before, was);
                }
                assert(ahead(y.pool.list, before));
                lemma_ahead_without(y.pool.list, before, seat);
                assert(y.pool.list.no_duplicates()) by {
                    if let Some(was) = x.seat(group as int, e as int) {
                        lemma_without(w.pool.list, was);
                    }
                }
                lemma_without(y.pool.list, seat);
                let kept = without(y.pool.list, seat);
                let now = seq![seat] + kept;
                assert(give_back(v, ring, k).pool.list == now);
                assert forall|a: int, b: int| 0 <= a < b < now.len() && given.contains(#[trigger] now[b]) implies given.contains(
                #[trigger] now[a]) by {
                    assert(now[b] == kept[b - 1]);
                    assert(kept.contains(kept[b - 1]));
                    if a > 0 {
                        assert(now[a] == kept[a - 1]);
                    }
                }
            },
            None => {
                lemma_ahead_without(w.pool.list, before, seat);
                lemma_without(w.pool.list, seat);
                let kept = without(w.pool.list, seat);
                assert(give_back(v, ring, k).pool.list == kept);
                assert forall|a: int, b: int| 0 <= a < b < kept.len() && given.contains(#[trigger] kept[b]) implies given.contains(
                #[trigger] kept[a]) by {
                    assert(kept.contains(kept[b]));
                }
            },
        }
    }
}

} // verus!
