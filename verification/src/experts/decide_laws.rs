//! What a segment does to the pool: what it finds there, what it pushes out,
//! and what it leaves most recent.

use vstd::prelude::*;

use crate::experts::deciding::{decided, deciding_seats_every_expert, Deciding, Landing, Stop};
use crate::experts::landing::{joined, lemma_joined};
use crate::experts::laws::a_victim_is_free_and_coldest;
use crate::experts::pool::{without, Hold, PoolView};
use crate::experts::seats::{lemma_pick, SeatsView};
use crate::experts::segment::a_landed_segment_is_resident;
use crate::experts::tier::{assigned, in_the_air, lemma_assigned_resident, TierView};

verus! {

proof fn lemma_heads(ids: Seq<i32>, experts: u32, v: SeatsView, at: usize)
    requires
        ids.len() > 0,
        forall|i: int|
            0 <= i < ids.len() && #[trigger] ids[i] >= 0 ==> ids[i] < experts && v.seat(
                at as int,
                ids[i] as int,
            ) is Some,
    ensures
        forall|i: int|
            0 <= i < ids.drop_last().len() && #[trigger] ids.drop_last()[i] >= 0 ==> ids.drop_last()[i]
                < experts && v.seat(at as int, ids.drop_last()[i] as int) is Some,
        ids.last() >= 0 ==> ids.last() < experts && v.seat(at as int, ids.last() as int) is Some,
{
    assert forall|i: int| 0 <= i < ids.drop_last().len() && #[trigger] ids.drop_last()[i] >= 0 implies ids.drop_last()[i]
        < experts && v.seat(at as int, ids.drop_last()[i] as int) is Some by {
        assert(ids.drop_last()[i] == ids[i]);
    }
    assert(ids[ids.len() - 1] == ids.last());
}

/// A segment whose experts all sit in the pool misses none: nobody moves,
/// nothing is read, and each is found in the seat it sat in.
pub proof fn a_segment_of_residents_misses_nothing(v: SeatsView, at: usize, experts: u32, ids: Seq<i32>)
    requires
        v.inv(),
        at < v.seat_of.len(),
        v.seat_of[at as int].len() == experts,
        forall|i: int|
            0 <= i < ids.len() && #[trigger] ids[i] >= 0 ==> ids[i] < experts && v.seat(
                at as int,
                ids[i] as int,
            ) is Some,
    ensures
        ({
            let d = decided(v, at, experts, ids);
            &&& d.stop is None
            &&& d.misses == 0
            &&& d.landing.len() == 0
            &&& d.seats.seat_of == v.seat_of
            &&& d.seats.pool.in_seat == v.pool.in_seat
            &&& d.hits == d.taken.dom().len()
            &&& forall|e: u32| #[trigger]
                d.taken.contains_key(e) ==> Some(d.taken[e]) == v.seat(at as int, e as int)
        }),
    decreases ids.len(),
{
    if ids.len() > 0 {
        let head = ids.drop_last();
        lemma_heads(ids, experts, v, at);
        a_segment_of_residents_misses_nothing(v, at, experts, head);
        deciding_seats_every_expert(v, at, experts, ids);
        let a = decided(v, at, experts, head);
        let d = decided(v, at, experts, ids);
        if ids.last() >= 0 {
            assert(a.seats.seat(at as int, ids.last() as int) == v.seat(at as int, ids.last() as int));
        }
    } else {
        deciding_seats_every_expert(v, at, experts, ids);
        assert(decided(v, at, experts, ids).landing.len() == 0);
    }
}

/// A segment none of whose experts sits in the pool hits none.
pub proof fn a_segment_of_strangers_hits_nothing(v: SeatsView, at: usize, experts: u32, ids: Seq<i32>)
    requires
        v.inv(),
        at < v.seat_of.len(),
        v.seat_of[at as int].len() == experts,
        forall|i: int|
            0 <= i < ids.len() && 0 <= #[trigger] ids[i] < experts ==> v.seat(at as int, ids[i] as int) is None,
    ensures
        decided(v, at, experts, ids).hits == 0,
    decreases ids.len(),
{
    if ids.len() > 0 {
        let head = ids.drop_last();
        assert forall|i: int| 0 <= i < head.len() && 0 <= #[trigger] head[i] < experts implies v.seat(
            at as int,
            head[i] as int,
        ) is None by {
            assert(head[i] == ids[i]);
        }
        a_segment_of_strangers_hits_nothing(v, at, experts, head);
        deciding_seats_every_expert(v, at, experts, head);
        let a = decided(v, at, experts, head);
        let id = ids.last();
        assert(ids[ids.len() - 1] == id);
        if 0 <= id < experts {
            assert(v.names(at as int, id as int));
            assert(a.seats.seat(at as int, id as int) is None);
        }
    }
}

/// A seat taken for the segment under way.
pub open spec fn taken_by(d: Deciding, s: u32) -> bool {
    exists|e: u32| #[trigger] d.taken.contains_key(e) && d.taken[e] == s
}

/// A bumped seat comes last, the rest keep their order.
proof fn lemma_bumped_last(list: Seq<u32>, s: u32, before: Set<u32>, after: Set<u32>)
    requires
        list.no_duplicates(),
        forall|i: int, j: int|
            0 <= i < j < list.len() && before.contains(#[trigger] list[i]) ==> before.contains(
                #[trigger] list[j],
            ),
        forall|t: u32| #[trigger] after.contains(t) <==> before.contains(t) || t == s,
    ensures
        ({
            let now = without(list, s).push(s);
            &&& forall|i: int, j: int|
                0 <= i < j < now.len() && after.contains(#[trigger] now[i]) ==> after.contains(
                    #[trigger] now[j],
                )
        }),
{
    let now = without(list, s).push(s);
    assert forall|i: int, j: int| 0 <= i < j < now.len() && after.contains(#[trigger] now[i]) implies after.contains(
        #[trigger] now[j],
    ) by {
        if j < now.len() - 1 {
            if list.contains(s) {
                let k = list.index_of(s);
                let p = if i < k { i } else { i + 1 };
                let q = if j < k { j } else { j + 1 };
                assert(now[i] == list[p] && now[j] == list[q]);
                assert(list[p] != list[k]);
            } else {
                assert(now[i] == list[i] && now[j] == list[j]);
                assert(list[i] != s);
            }
        }
    }
}

/// The seats a segment took are the most recent: every other is evicted
/// before any of them, and the last one named is the last of all.
pub proof fn a_segment_leaves_its_seats_most_recent(v: SeatsView, at: usize, experts: u32, ids: Seq<i32>)
    requires
        v.inv(),
        at < v.seat_of.len(),
        v.seat_of[at as int].len() == experts,
    ensures
        ({
            let d = decided(v, at, experts, ids);
            let list = d.seats.pool.list;
            &&& forall|i: int, j: int|
                0 <= i < j < list.len() && taken_by(d, #[trigger] list[i]) ==> taken_by(
                    d,
                    #[trigger] list[j],
                )
            &&& d.stop is None && ids.len() > 0 && ids.last() >= 0 ==> list.last() == d.taken[ids.last() as u32]
        }),
    decreases ids.len(),
{
    if ids.len() > 0 {
        let head = ids.drop_last();
        a_segment_leaves_its_seats_most_recent(v, at, experts, head);
        deciding_seats_every_expert(v, at, experts, head);
        let a = decided(v, at, experts, head);
        let d = decided(v, at, experts, ids);
        let id = ids.last();
        let before = Set::new(|s: u32| taken_by(a, s));
        let after = Set::new(|s: u32| taken_by(d, s));
        lemma_pick(a.seats);
        if a.stop is None && 0 <= id < experts {
            let e = id as u32;
            if a.taken.contains_key(e) {
                let s = a.taken[e];
                assert(taken_by(a, s));
                assert(d.taken == a.taken);
                assert forall|t: u32| #[trigger] after.contains(t) <==> before.contains(t) || t == s by {
                    if before.contains(t) {
                        let x = choose|x: u32| #[trigger] a.taken.contains_key(x) && a.taken[x] == t;
                        assert(d.taken.contains_key(x) && d.taken[x] == t);
                    }
                    if after.contains(t) {
                        let x = choose|x: u32| #[trigger] d.taken.contains_key(x) && d.taken[x] == t;
                        assert(a.taken.contains_key(x) && a.taken[x] == t);
                    }
                    if t == s {
                        assert(d.taken.contains_key(e) && d.taken[e] == t);
                    }
                }
                lemma_bumped_last(a.seats.pool.list, s, before, after);
                assert(d.seats.pool.list == without(a.seats.pool.list, s).push(s));
            } else {
                let seat = match a.seats.seat(at as int, e as int) {
                    Some(s) => Some(s),
                    None => a.seats.pool.pick(),
                };
                if let Some(s) = seat {
                    assert(d.taken == a.taken.insert(e, s));
                    assert forall|t: u32| #[trigger] after.contains(t) <==> before.contains(t) || t == s by {
                        if before.contains(t) {
                            let x = choose|x: u32| #[trigger] a.taken.contains_key(x) && a.taken[x] == t;
                            assert(d.taken.contains_key(x) && d.taken[x] == t);
                        }
                        if after.contains(t) && t != s {
                            let x = choose|x: u32| #[trigger] d.taken.contains_key(x) && d.taken[x] == t;
                            assert(a.taken.contains_key(x) && a.taken[x] == t);
                        }
                        if t == s {
                            assert(d.taken.contains_key(e) && d.taken[e] == t);
                        }
                    }
                    lemma_bumped_last(a.seats.pool.list, s, before, after);
                    assert(d.seats.pool.list == without(a.seats.pool.list, s).push(s));
                }
            }
            let list = d.seats.pool.list;
            assert forall|i: int, j: int|
                0 <= i < j < list.len() && taken_by(d, #[trigger] list[i]) implies taken_by(
                d,
                #[trigger] list[j],
            ) by {
                assert(after.contains(list[i]) || d.stop is Some);
                if d.stop is None {
                    assert(after.contains(list[j]));
                } else {
                    assert(taken_by(a, list[i]));
                }
            }
        } else {
            assert(d.seats.pool.list == a.seats.pool.list && d.taken == a.taken);
            let list = d.seats.pool.list;
            assert forall|i: int, j: int|
                0 <= i < j < list.len() && taken_by(d, #[trigger] list[i]) implies taken_by(
                d,
                #[trigger] list[j],
            ) by {
                assert(taken_by(a, a.seats.pool.list[i]));
            }
        }
    } else {
        let d = decided(v, at, experts, ids);
        assert forall|s: u32| !#[trigger] taken_by(d, s) by {}
    }
}

/// An expert is pushed out only once no seat stands unused.
pub proof fn unused_seats_go_before_any_expert(v: SeatsView, at: usize, experts: u32, ids: Seq<i32>)
    requires
        v.inv(),
        at < v.seat_of.len(),
        v.seat_of[at as int].len() == experts,
    ensures
        ({
            let d = decided(v, at, experts, ids);
            &&& d.seats.pool.free.is_prefix_of(v.pool.free)
            &&& d.seats.pool.free.len() > 0 ==> d.seats.seat_of == v.seat_of
        }),
    decreases ids.len(),
{
    if ids.len() > 0 {
        let head = ids.drop_last();
        unused_seats_go_before_any_expert(v, at, experts, head);
        deciding_seats_every_expert(v, at, experts, head);
        let a = decided(v, at, experts, head);
        let d = decided(v, at, experts, ids);
        lemma_pick(a.seats);
        if a.seats.pool.free.len() > 0 {
            let s = a.seats.pool.free.last();
            assert(a.seats.pool.free.contains(s));
            assert(a.seats.pool.in_seat[s as int] is None);
        }
    }
}

/// A cut lets go of the seats of its segment, and of no others: what a fire
/// or a copy in flight holds stays held, and nobody moves.
pub proof fn a_cut_lets_go_of_its_segment_alone(v: TierView, s: int)
    requires
        0 <= s < v.seats.pool.holds.len(),
        v.tally.segments < u64::MAX,
    ensures
        v.cut().seats.pool.holds[s] == if v.seats.pool.holds[s] == Hold::Segment {
            Hold::Free
        } else {
            v.seats.pool.holds[s]
        },
        v.cut().seats.seat_of == v.seats.seat_of,
        v.cut().seats.pool.list == v.seats.pool.list,
        v.cut().seats.pool.free == v.seats.pool.free,
        v.cut().tally.segments == v.tally.segments + 1,
{
}

/// One seat stands before another in a list.
pub open spec fn stands_before(list: Seq<u32>, s: u32, t: u32) -> bool {
    exists|k: int, l: int| 0 <= k < l < list.len() && #[trigger] list[k] == s && #[trigger] list[l] == t
}

/// What moving one seat in the list does: it goes, and every other seat
/// stays before and after those it stood between.
pub proof fn a_list_without_a_seat_keeps_its_order(p: PoolView, seat: u32)
    requires
        p.list.no_duplicates(),
    ensures
        ({
            let rest = p.unlink(seat).list;
            &&& !rest.contains(seat)
            &&& forall|i: int|
                0 <= i < p.list.len() && #[trigger] p.list[i] != seat ==> rest.contains(p.list[i])
            &&& forall|i: int, j: int|
                0 <= i < j < rest.len() ==> stands_before(p.list, #[trigger] rest[i], #[trigger] rest[j])
            &&& p.bump(seat).list == rest.push(seat)
            &&& p.unlink(seat).push_front(seat).list == seq![seat] + rest
        }),
{
    let rest = p.unlink(seat).list;
    if p.list.contains(seat) {
        let k = p.list.index_of(seat);
        assert(p.list[k] == seat);
        assert forall|i: int| 0 <= i < p.list.len() && #[trigger] p.list[i] != seat implies rest.contains(
            p.list[i],
        ) by {
            let q = if i < k { i } else { i - 1 };
            assert(rest[q] == p.list[i]);
        }
        assert forall|i: int, j: int| 0 <= i < j < rest.len() implies stands_before(
            p.list,
            #[trigger] rest[i],
            #[trigger] rest[j],
        ) by {
            let a = if i < k { i } else { i + 1 };
            let b = if j < k { j } else { j + 1 };
            assert(p.list[a] == rest[i] && p.list[b] == rest[j]);
        }
        assert(!rest.contains(seat)) by {
            if rest.contains(seat) {
                let i = rest.index_of(seat);
                let a = if i < k { i } else { i + 1 };
                assert(p.list[a] == p.list[k]);
            }
        }
    } else {
        assert forall|i: int| 0 <= i < p.list.len() && #[trigger] p.list[i] != seat implies rest.contains(
            p.list[i],
        ) by {
            assert(rest[i] == p.list[i]);
        }
        assert forall|i: int, j: int| 0 <= i < j < rest.len() implies stands_before(
            p.list,
            #[trigger] rest[i],
            #[trigger] rest[j],
        ) by {
            assert(p.list[i] == rest[i] && p.list[j] == rest[j]);
        }
    }
}

/// A read that landed lets its seats go: each is free to be evicted, and no
/// other seat is taken hold of.
pub proof fn a_landed_read_lets_its_seats_go(v: SeatsView, landing: Seq<Landing>)
    requires
        v.inv(),
        in_the_air(v, landing, Hold::Inflight),
    ensures
        forall|i: int|
            0 <= i < landing.len() ==> joined(v, landing, true).pool.holds[(#[trigger] landing[i]).1 as int]
                == Hold::Free,
        forall|s: int|
            0 <= s < v.pool.holds.len() ==> #[trigger] joined(v, landing, true).pool.holds[s]
                == v.pool.holds[s] || joined(v, landing, true).pool.holds[s] == Hold::Free,
        joined(v, landing, true).pool.holds.len() == v.pool.holds.len(),
    decreases landing.len(),
{
    if landing.len() > 0 {
        let head = landing.drop_last();
        let (g, s, e) = landing.last();
        assert(landing[landing.len() - 1] == landing.last());
        assert forall|i: int| 0 <= i < head.len() implies #[trigger] head[i] == landing[i] by {}
        assert(in_the_air(v, head, Hold::Inflight)) by {
            assert forall|i: int, j: int| 0 <= i < j < head.len() implies (#[trigger] head[i]).1 != (
            #[trigger] head[j]).1 by {
                assert(head[i] == landing[i] && head[j] == landing[j]);
            }
        }
        a_landed_read_lets_its_seats_go(v, head);
        lemma_joined(v, head, true);
        let w = joined(v, head, true);
        assert(v.names(g as int, e as int));
        assert(w.seat_of[g as int].len() == v.seat_of[g as int].len());
        assert(w.names(g as int, e as int));
        assert(w.seat(g as int, e as int) matches Some(was) ==> was < w.pool.holds.len());
        let x = joined(v, landing, true);
        assert(s < v.pool.holds.len());
        assert forall|i: int| 0 <= i < landing.len() implies x.pool.holds[(#[trigger] landing[i]).1 as int]
            == Hold::Free by {
            if i < head.len() {
                assert(w.pool.holds[head[i].1 as int] == Hold::Free);
            }
        }
        assert forall|t: int| 0 <= t < v.pool.holds.len() implies #[trigger] x.pool.holds[t]
            == v.pool.holds[t] || x.pool.holds[t] == Hold::Free by {
            assert(w.pool.holds[t] == v.pool.holds[t] || w.pool.holds[t] == Hold::Free);
        }
    }
}

/// Seating experts that sit nowhere moves nothing else in the pool.
proof fn lemma_assigned_holds(v: SeatsView, landing: Seq<Landing>)
    requires
        v.inv(),
        in_the_air(v, landing, Hold::Segment),
        forall|i: int, j: int|
            0 <= i < j < landing.len() ==> ((#[trigger] landing[i]).0, landing[i].2) != ((
            #[trigger] landing[j]).0, landing[j].2),
        forall|i: int|
            0 <= i < landing.len() ==> v.seat((#[trigger] landing[i]).0 as int, landing[i].2 as int) is None,
    ensures
        assigned(v, landing).pool.holds == v.pool.holds,
        assigned(v, landing).pool.list == v.pool.list,
        assigned(v, landing).pool.free == v.pool.free,
    decreases landing.len(),
{
    if landing.len() > 0 {
        let head = landing.drop_last();
        let (g, s, e) = landing.last();
        assert forall|i: int| 0 <= i < head.len() implies #[trigger] head[i] == landing[i] by {}
        assert(in_the_air(v, head, Hold::Segment)) by {
            assert forall|i: int, j: int| 0 <= i < j < head.len() implies (#[trigger] head[i]).1 != (
            #[trigger] head[j]).1 by {
                assert(head[i] == landing[i] && head[j] == landing[j]);
            }
        }
        assert forall|i: int, j: int| 0 <= i < j < head.len() implies ((#[trigger] head[i]).0, head[i].2)
            != ((#[trigger] head[j]).0, head[j].2) by {
            assert(head[i] == landing[i] && head[j] == landing[j]);
        }
        lemma_assigned_holds(v, head);
        lemma_assigned_resident(v, head, Hold::Segment);
        assert(landing[landing.len() - 1] == landing.last());
        assert(v.names(g as int, e as int));
        assert forall|i: int| 0 <= i < head.len() implies ((#[trigger] head[i]).0 != g || head[i].2 != e) by {
            assert(head[i] == landing[i]);
        }
        assert(assigned(v, head).seat(g as int, e as int) is None);
    }
}

/// A segment that landed keeps its seats till the next cut: every expert it
/// named sits in a seat held for it.
pub proof fn a_landed_segment_keeps_its_seats(v: SeatsView, at: usize, experts: u32, ids: Seq<i32>)
    requires
        v.inv(),
        at < v.seat_of.len(),
        v.seat_of[at as int].len() == experts,
        decided(v, at, experts, ids).stop is None,
    ensures
        ({
            let d = decided(v, at, experts, ids);
            let w = assigned(d.seats, d.landing);
            &&& w.pool.holds == d.seats.pool.holds
            &&& w.pool.list == d.seats.pool.list
            &&& forall|i: int|
                0 <= i < ids.len() && #[trigger] ids[i] >= 0 ==> {
                    &&& d.taken.contains_key(ids[i] as u32)
                    &&& w.pool.holds[d.taken[ids[i] as u32] as int] == Hold::Segment
                }
        }),
{
    deciding_seats_every_expert(v, at, experts, ids);
    a_landed_segment_is_resident(v, at, experts, ids);
    let d = decided(v, at, experts, ids);
    assert forall|i: int, j: int| 0 <= i < j < d.landing.len() implies ((#[trigger] d.landing[i]).0, d.landing[i].2)
        != ((#[trigger] d.landing[j]).0, d.landing[j].2) by {
        assert(d.landing[i].2 != d.landing[j].2);
    }
    lemma_assigned_holds(d.seats, d.landing);
}

/// What stops a segment: the first id that names no expert there is, or a
/// miss where every seat is held. What came before it was decided as it
/// would have been by itself.
pub proof fn a_segment_is_stopped_for_a_reason(v: SeatsView, at: usize, experts: u32, ids: Seq<i32>)
    requires
        v.inv(),
        at < v.seat_of.len(),
        v.seat_of[at as int].len() == experts,
        decided(v, at, experts, ids).stop is Some,
    ensures
        ({
            let d = decided(v, at, experts, ids);
            exists|n: int|
                {
                    let before = decided(v, at, experts, #[trigger] ids.take(n));
                    &&& 0 <= n < ids.len()
                    &&& before.stop is None
                    &&& d.seats == before.seats && d.landing == before.landing && d.taken == before.taken
                    &&& d.hits == before.hits
                    &&& match d.stop->0 {
                        Stop::NoSuchExpert(e) => ids[n] == e && e >= experts && d.misses == before.misses,
                        Stop::Full => {
                            &&& 0 <= ids[n] < experts
                            &&& !d.taken.contains_key(ids[n] as u32)
                            &&& d.seats.seat(at as int, ids[n] as int) is None
                            &&& d.misses == before.misses + 1
                            &&& forall|s: int|
                                0 <= s < d.seats.pool.holds.len() ==> #[trigger] d.seats.pool.holds[s]
                                    != Hold::Free
                        },
                    }
                }
        }),
    decreases ids.len(),
{
    if ids.len() > 0 {
        let head = ids.drop_last();
        let k = ids.len() - 1;
        let a = decided(v, at, experts, head);
        let d = decided(v, at, experts, ids);
        assert(ids[k] == ids.last());
        if a.stop is Some {
            a_segment_is_stopped_for_a_reason(v, at, experts, head);
            assert(d == a);
            let n = choose|n: int|
                {
                    let before = decided(v, at, experts, #[trigger] head.take(n));
                    &&& 0 <= n < head.len()
                    &&& before.stop is None
                    &&& a.seats == before.seats && a.landing == before.landing && a.taken == before.taken
                    &&& a.hits == before.hits
                    &&& match a.stop->0 {
                        Stop::NoSuchExpert(e) => head[n] == e && e >= experts && a.misses == before.misses,
                        Stop::Full => {
                            &&& 0 <= head[n] < experts
                            &&& !a.taken.contains_key(head[n] as u32)
                            &&& a.seats.seat(at as int, head[n] as int) is None
                            &&& a.misses == before.misses + 1
                            &&& forall|s: int|
                                0 <= s < a.seats.pool.holds.len() ==> #[trigger] a.seats.pool.holds[s]
                                    != Hold::Free
                        },
                    }
                };
            assert(head.take(n) =~= ids.take(n));
            assert(head[n] == ids[n]);
        } else {
            assert(ids.take(k) =~= head);
            deciding_seats_every_expert(v, at, experts, head);
            a_victim_is_free_and_coldest(a.seats);
        }
    }
}

} // verus!
