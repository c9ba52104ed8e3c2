//! What a segment counts and copies when it seats its experts, and what is
//! read ahead of it.

use vstd::arithmetic::div_mod::lemma_fundamental_div_mod;
use vstd::prelude::*;

use crate::experts::deciding::{jobs_of, Job, Landing};
use crate::experts::plan::{pass_seats, Plan};
use crate::experts::seats::Group;
use crate::ids::{ids, word};
use crate::passing::ahead::{ahead, lemma_ahead};
use crate::passing::laws::{lemma_pinned_for, pinned_for};
use crate::passing::opening::opened;
use crate::passing::passes::{chunks, first_named, lemma_first_named, ordered, sitting, unknown};
use crate::passing::room::{lemma_place, RoomView};
use crate::passing::segment::seat_words;
use crate::passing::sitting::{
    lemma_routed, lemma_seat, pinned_down, routed, the_coldest_unpinned_is_evicted, Sitting,
};
use crate::passing::tier::copies;

verus! {

/// What is to land is read landing by landing: each band of the expert's
/// group, from the expert's own place at the source to the seat it is to
/// sit in.
pub proof fn a_landing_is_copied_band_by_band(
    groups: Seq<Group>,
    before: Seq<Landing>,
    after: Seq<Landing>,
    one: Landing,
    b: int,
)
    requires
        0 <= b < groups[one.0 as int].bands@.len(),
    ensures
        copies(groups, Seq::<Landing>::empty()) == Seq::<Job>::empty(),
        copies(groups, before + after) == copies(groups, before) + copies(groups, after),
        copies(groups, seq![one]).len() == groups[one.0 as int].bands@.len(),
        ({
            let band = groups[one.0 as int].bands@[b];
            copies(groups, seq![one])[b] == (
                (band.at + one.1 * band.stride) as u64,
                (band.from + one.2 * band.stride) as u64,
                band.stride,
            )
        }),
    decreases after.len(),
{
    let none = Seq::<Landing>::empty();
    assert(seq![one].drop_last() =~= none);
    assert(seq![one].last() == one);
    assert(copies(groups, none) =~= Seq::<Job>::empty());
    assert(copies(groups, seq![one]) =~= jobs_of(groups[one.0 as int].bands@, one.1, one.2));
    if after.len() == 0 {
        assert(before + after =~= before);
        assert(copies(groups, before) + copies(groups, after) =~= copies(groups, before));
    } else {
        a_landing_is_copied_band_by_band(groups, before, after.drop_last(), one, b);
        assert((before + after).drop_last() =~= before + after.drop_last());
        assert((before + after).last() == after.last());
        assert(copies(groups, before + after) =~= copies(groups, before) + copies(groups, after));
    }
}

/// What was pending stays so, and each of the rest is an expert of the layer
/// in the seat it sits in, pinned there.
pub open spec fn pends(from: Sitting, n: Sitting, at: usize) -> bool {
    &&& from.pending.len() <= n.pending.len()
    &&& forall|i: int| 0 <= i < from.pending.len() ==> #[trigger] n.pending[i] == from.pending[i]
    &&& forall|i: int|
        from.pending.len() <= i < n.pending.len() ==> {
            let (g, s, e) = #[trigger] n.pending[i];
            &&& g == at
            &&& n.room.names(at as int, e as int)
            &&& n.room.seat(at as int, e as int) == Some(s)
            &&& pinned_down(n.room, at as int, e as int)
        }
}

/// A segment counts each expert it names once, as a hit or as a miss, copies
/// those it missed into the seats they are given, and no others.
pub proof fn a_segment_counts_each_expert_once(from: Sitting, at: usize, experts: u32, all: Seq<i32>)
    requires
        from.room.inv(),
        from.stop is None,
        at < from.room.seat_of.len(),
        from.room.seat_of[at as int].len() == experts,
        from.room.tick + all.len() <= u64::MAX,
        from.room.pinned == Seq::new(from.room.in_seat.len(), |s: int| false),
        routed(from, at, experts, all).stop is None,
    ensures
        ({
            let n = routed(from, at, experts, all);
            let named = first_named(all);
            &&& n.hits - from.hits + n.misses - from.misses == named.len()
            &&& n.misses - from.misses == n.pending.len() - from.pending.len()
            &&& n.hits >= from.hits
            &&& pends(from, n, at)
            &&& named.no_duplicates()
            &&& forall|e: u32| #[trigger]
                named.contains(e) <==> exists|i: int| 0 <= i < all.len() && #[trigger] all[i] == e
            &&& (forall|i: int|
                0 <= i < all.len() && #[trigger] all[i] >= 0 ==> from.room.seat(at as int, all[i] as int) is Some)
                ==> n.misses == from.misses && n.room.seat_of == from.room.seat_of
            &&& (forall|i: int|
                0 <= i < all.len() && #[trigger] all[i] >= 0 ==> from.room.seat(at as int, all[i] as int) is None)
                ==> n.hits == from.hits
        }),
    decreases all.len(),
{
    lemma_first_named(all, experts);
    if all.len() > 0 {
        let head = all.drop_last();
        let id = all.last();
        let m = routed(from, at, experts, head);
        let n = routed(from, at, experts, all);
        assert(all[all.len() - 1] == id);
        assert(m.stop is None);
        a_segment_counts_each_expert_once(from, at, experts, head);
        lemma_routed(from, at, experts, head);
        lemma_routed(from, at, experts, all);
        lemma_first_named(head, experts);
        assert(unknown(head, experts) is None) by {
            assert forall|i: int| 0 <= i < head.len() && #[trigger] head[i] >= 0 implies head[i] < experts by {}
        }
        lemma_pinned_for(from, at, experts, head);
        assert(pinned_for(m, at, head));
        let every = forall|i: int|
            0 <= i < all.len() && #[trigger] all[i] >= 0 ==> from.room.seat(at as int, all[i] as int) is Some;
        let nobody = forall|i: int|
            0 <= i < all.len() && #[trigger] all[i] >= 0 ==> from.room.seat(at as int, all[i] as int) is None;
        if every {
            assert forall|i: int| 0 <= i < head.len() && #[trigger] head[i] >= 0 implies from.room.seat(
                at as int,
                head[i] as int,
            ) is Some by {
                assert(head[i] == all[i]);
            }
        }
        if nobody {
            assert forall|i: int| 0 <= i < head.len() && #[trigger] head[i] >= 0 implies from.room.seat(
                at as int,
                head[i] as int,
            ) is None by {
                assert(head[i] == all[i]);
            }
        }
        if id >= 0 {
            let e = id as u32;
            assert(id < experts);
            assert(m.room.names(at as int, e as int));
            lemma_seat(m, at, e);
            let was = m.room.seat(at as int, e as int);
            if first_named(head).contains(e) {
                let i = choose|i: int| 0 <= i < head.len() && #[trigger] head[i] == e;
                assert(pinned_down(m.room, at as int, head[i] as int));
            } else {
                if let Some(s) = was {
                    assert(m.room.in_seat[s as int] == Some((at as u32, e)));
                    assert(!m.room.pinned[s as int]);
                    if nobody {
                        lemma_no_new_faces(from, at, experts, head, e);
                    }
                }
            }
            assert forall|i: int| from.pending.len() <= i < n.pending.len() implies {
                let (g, s, x) = #[trigger] n.pending[i];
                &&& g == at
                &&& n.room.names(at as int, x as int)
                &&& n.room.seat(at as int, x as int) == Some(s)
                &&& pinned_down(n.room, at as int, x as int)
            } by {
                if i < m.pending.len() {
                    assert(n.pending[i] == m.pending[i]);
                    let (g, s, x) = m.pending[i];
                    assert(pinned_down(m.room, at as int, x as int));
                    assert(n.room.seat(at as int, x as int) == m.room.seat(at as int, x as int));
                } else {
                    lemma_place(m.room, at as int, e);
                }
            }
            if every {
                assert(was == from.room.seat(at as int, e as int));
            }
        }
    }
}

/// Who sits for the layer was named, or sat there before.
proof fn lemma_no_new_faces(from: Sitting, at: usize, experts: u32, all: Seq<i32>, e: u32)
    requires
        from.room.inv(),
        from.stop is None,
        at < from.room.seat_of.len(),
        from.room.seat_of[at as int].len() == experts,
        from.room.tick + all.len() <= u64::MAX,
        e < experts,
        !first_named(all).contains(e),
        routed(from, at, experts, all).room.seat(at as int, e as int) is Some,
    ensures
        from.room.seat(at as int, e as int) is Some,
    decreases all.len(),
{
    if all.len() > 0 {
        let head = all.drop_last();
        let id = all.last();
        let m = routed(from, at, experts, head);
        lemma_routed(from, at, experts, head);
        lemma_first_named(head, experts);
        lemma_first_named(all, experts);
        assert(all[all.len() - 1] == id);
        assert(!first_named(head).contains(e)) by {
            if first_named(head).contains(e) {
                let i = choose|i: int| 0 <= i < head.len() && #[trigger] head[i] == e;
                assert(all[i] == e);
            }
        }
        assert(id != e);
        assert(m.room.names(at as int, e as int));
        if m.stop is None && 0 <= id < experts {
            if m.room.seat(at as int, id as int) is None {
                lemma_place(m.room, at as int, id as u32);
            }
        }
        assert(m.room.seat(at as int, e as int) is Some);
        lemma_no_new_faces(from, at, experts, head, e);
    }
}

/// Reading ahead: every expert wanted is one that sat in the pool or is
/// given a seat to land in, as long as a seat could be taken, and it stops
/// only where all are pinned.
pub proof fn reading_ahead_stops_only_when_pinned(v: RoomView, at: usize, all: Seq<u32>, again: bool)
    requires
        v.inv(),
        at < v.seat_of.len(),
        forall|i: int| 0 <= i < all.len() ==> #[trigger] all[i] < v.seat_of[at as int].len(),
        v.tick + all.len() <= u64::MAX,
    ensures
        ({
            let a = ahead(v, at, all, again);
            &&& forall|i: int|
                0 <= i < all.len() ==> a.full || v.seat(at as int, #[trigger] all[i] as int) is Some
                    || exists|j: int| 0 <= j < a.landing.len() && (#[trigger] a.landing[j]).2 == all[i]
            &&& a.full ==> forall|s: int|
                0 <= s < a.room.in_seat.len() ==> #[trigger] a.room.pinned[s]
            &&& forall|j: int| 0 <= j < a.landing.len() ==> all.contains((#[trigger] a.landing[j]).2)
            &&& forall|j: int|
                0 <= j < a.landing.len() ==> a.room.seat(at as int, (#[trigger] a.landing[j]).2 as int)
                    == Some(a.landing[j].1) && a.room.pinned[a.landing[j].1 as int]
            &&& (forall|i: int|
                0 <= i < all.len() ==> v.seat(at as int, #[trigger] all[i] as int) is Some)
                ==> a.landing.len() == 0 && !a.full && a.room.seat_of == v.seat_of
            // who came to sit was read
            &&& forall|e: u32|
                e < v.seat_of[at as int].len() && #[trigger] a.room.seat(at as int, e as int) is Some
                    ==> v.seat(at as int, e as int) is Some || exists|j: int|
                    0 <= j < a.landing.len() && (#[trigger] a.landing[j]).2 == e
        }),
    decreases all.len(),
{
    if all.len() > 0 {
        let head = all.drop_last();
        let e = all.last();
        let n = all.len() - 1;
        assert(all[n] == e);
        assert forall|i: int| 0 <= i < head.len() implies #[trigger] head[i] < v.seat_of[at as int].len() by {
            assert(head[i] == all[i]);
        }
        reading_ahead_stops_only_when_pinned(v, at, head, again);
        lemma_ahead(v, at, head, again);
        lemma_ahead(v, at, all, again);
        let a = ahead(v, at, head, again);
        let b = ahead(v, at, all, again);
        the_coldest_unpinned_is_evicted(a.room);
        assert(a.room.names(at as int, e as int));
        if !a.full && a.room.seat(at as int, e as int) is None {
            lemma_place(a.room, at as int, e);
        }
        assert forall|j: int| 0 <= j < a.landing.len() implies #[trigger] b.landing[j] == a.landing[j] by {}
        assert forall|i: int| 0 <= i < all.len() implies b.full || v.seat(
            at as int,
            #[trigger] all[i] as int,
        ) is Some || exists|j: int| 0 <= j < b.landing.len() && (#[trigger] b.landing[j]).2 == all[i] by {
            if i < n {
                assert(head[i] == all[i]);
                if !b.full && v.seat(at as int, all[i] as int) is None {
                    let j = choose|j: int|
                        0 <= j < a.landing.len() && (#[trigger] a.landing[j]).2 == head[i];
                    assert(b.landing[j].2 == all[i]);
                }
            } else if !b.full && v.seat(at as int, e as int) is None {
                if a.room.seat(at as int, e as int) is Some {
                    let j = choose|j: int| 0 <= j < a.landing.len() && (#[trigger] a.landing[j]).2 == e;
                    assert(b.landing[j].2 == all[i]);
                } else {
                    assert(b.landing[a.landing.len() as int].2 == all[i]);
                }
            }
        }
        assert forall|j: int| 0 <= j < b.landing.len() implies all.contains((#[trigger] b.landing[j]).2) by {
            if j < a.landing.len() {
                assert(head.contains(a.landing[j].2));
                assert(all[head.index_of(a.landing[j].2)] == a.landing[j].2);
            }
        }
        assert forall|j: int| 0 <= j < b.landing.len() implies b.room.seat(
            at as int,
            (#[trigger] b.landing[j]).2 as int,
        ) == Some(b.landing[j].1) && b.room.pinned[b.landing[j].1 as int] by {
            if j < a.landing.len() {
                let x = a.landing[j].2;
                assert(a.room.seat(at as int, x as int) == Some(a.landing[j].1));
                assert(a.room.names(at as int, x as int));
            }
        }
        assert forall|x: u32|
            x < v.seat_of[at as int].len() && #[trigger] b.room.seat(at as int, x as int) is Some implies v.seat(
            at as int,
            x as int,
        ) is Some || exists|j: int| 0 <= j < b.landing.len() && (#[trigger] b.landing[j]).2 == x by {
            assert(a.room.names(at as int, x as int));
            if a.room.seat(at as int, x as int) is Some {
                if v.seat(at as int, x as int) is None {
                    let j = choose|j: int| 0 <= j < a.landing.len() && (#[trigger] a.landing[j]).2 == x;
                    assert(b.landing[j].2 == x);
                }
            } else {
                assert(x == e);
                assert(b.landing[a.landing.len() as int].2 == x);
            }
        }
        if forall|i: int| 0 <= i < all.len() ==> v.seat(at as int, #[trigger] all[i] as int) is Some {
            assert forall|i: int| 0 <= i < head.len() implies v.seat(at as int, #[trigger] head[i] as int) is Some by {
                assert(head[i] == all[i]);
            }
            assert(v.seat(at as int, all[n] as int) is Some);
        }
    }
}

/// A routing vector is rewritten word by word: an id that names no expert
/// stays, and every other becomes the seat its expert sits in.
pub proof fn a_routing_vector_is_rewritten_word_by_word(raw: Seq<u8>, room: RoomView, at: int, i: int)
    requires
        0 <= i < ids(raw).len(),
        ids(raw)[i] >= 0 ==> room.seat(at, ids(raw)[i] as int) is Some,
    ensures
        seat_words(raw, room, at).len() == raw.len() / 4,
        ids(raw)[i] < 0 ==> seat_words(raw, room, at)[i] == word(raw, i) as u32,
        ids(raw)[i] >= 0 ==> Some(seat_words(raw, room, at)[i]) == room.seat(at, ids(raw)[i] as int),
{
}

/// Experts are taken in the order they are first named, those that sit
/// before those that do not: more ids only add to the end of either.
pub proof fn experts_are_taken_as_first_named(all: Seq<i32>, id: i32, seat_of: Seq<Option<u32>>, sits: bool)
    ensures
        first_named(all).is_prefix_of(first_named(all.push(id))),
        sitting(first_named(all), seat_of, sits).is_prefix_of(
            sitting(first_named(all.push(id)), seat_of, sits),
        ),
        ordered(all, seat_of) == sitting(first_named(all), seat_of, true) + sitting(
            first_named(all),
            seat_of,
            false,
        ),
        forall|i: int|
            0 <= i < sitting(first_named(all), seat_of, sits).len() ==> (seat_of[(#[trigger] sitting(
                first_named(all),
                seat_of,
                sits,
            )[i]) as int] is Some) == sits,
{
    let was = first_named(all);
    let now = first_named(all.push(id));
    assert(all.push(id).drop_last() =~= all);
    if now != was {
        assert(now.drop_last() =~= was);
        let a = sitting(was, seat_of, sits);
        let b = sitting(now, seat_of, sits);
        assert(a =~= b.subrange(0, a.len() as int));
    } else {
        let a = sitting(was, seat_of, sits);
        assert(a =~= a.subrange(0, a.len() as int));
    }
    assert(was =~= now.subrange(0, was.len() as int));
    lemma_sits(was, seat_of, sits);
}

proof fn lemma_sits(all: Seq<u32>, seat_of: Seq<Option<u32>>, sits: bool)
    ensures
        forall|i: int|
            0 <= i < sitting(all, seat_of, sits).len() ==> (seat_of[(#[trigger] sitting(
                all,
                seat_of,
                sits,
            )[i]) as int] is Some) == sits,
    decreases all.len(),
{
    if all.len() > 0 {
        lemma_sits(all.drop_last(), seat_of, sits);
        let head = sitting(all.drop_last(), seat_of, sits);
        let now = sitting(all, seat_of, sits);
        assert forall|i: int| 0 <= i < now.len() implies (seat_of[(#[trigger] now[i]) as int] is Some) == sits by {
            if i < head.len() {
                assert(now[i] == head[i]);
            }
        }
    }
}

/// Passes run through the experts in their order, every pass but the last
/// with as many as it takes.
pub proof fn passes_run_through_the_experts_in_order(all: Seq<u32>, n: int, k: int, i: int)
    requires
        n > 0,
        0 <= k < chunks(all, n).len(),
        0 <= i < chunks(all, n)[k].len(),
    ensures
        0 <= k * n + i < all.len(),
        chunks(all, n)[k][i] == all[k * n + i],
        k + 1 < chunks(all, n).len() ==> chunks(all, n)[k].len() == n,
        chunks(all, n).len() * n >= all.len(),
{
    let len = all.len() as int;
    let c = (len + n - 1) / n;
    lemma_fundamental_div_mod(len + n - 1, n);
    assert(c * n >= len && (c - 1) * n < len) by (nonlinear_arith)
        requires
            len + n - 1 == n * c + (len + n - 1) % n,
            0 <= (len + n - 1) % n < n,
    ;
    assert(0 <= k * n && (k + 1) * n == k * n + n && k * n <= (c - 1) * n) by (nonlinear_arith)
        requires
            0 <= k <= c - 1,
            n > 0,
    ;
    if k + 1 < c {
        assert((k + 1) * n <= (c - 1) * n) by (nonlinear_arith)
            requires
                k + 1 <= c - 1,
                n > 0,
        ;
    }
}

/// An expert that is placed sits in the coldest seat, pinned and most
/// recent, and whoever sat there sits nowhere; nobody else moves.
pub proof fn a_placed_expert_takes_the_coldest_seat(v: RoomView, at: int, e: u32)
    requires
        v.inv(),
        v.names(at, e as int),
        v.seat(at, e as int) is None,
        v.tick <= u64::MAX,
    ensures
        v.victim() is None ==> v.place(at, e) == v,
        v.victim() matches Some(s) ==> {
            let w = v.place(at, e);
            &&& w.inv()
            &&& w.seat(at, e as int) == Some(s)
            &&& w.in_seat[s as int] == Some((at as u32, e))
            &&& w.pinned[s as int]
            &&& forall|t: int| 0 <= t < v.in_seat.len() && t != s ==> #[trigger] w.pinned[t] == v.pinned[t]
            &&& forall|t: int|
                0 <= t < v.in_seat.len() && t != s ==> #[trigger] w.last_used[t] == v.last_used[t]
                    && w.last_used[t] < w.last_used[s as int]
            &&& forall|g: int, x: int|
                v.names(g, x) && (g != at || x != e) ==> #[trigger] w.seat(g, x) == if v.seat(g, x) == Some(s) {
                    None
                } else {
                    v.seat(g, x)
                }
        },
{
    lemma_place(v, at, e);
}

/// A touched seat is pinned and most recent, and nobody moves; a cut lets go
/// of every pin and touches nothing else.
pub proof fn a_touch_pins_and_a_cut_lets_go(v: RoomView, s: u32, t: int)
    requires
        v.inv(),
        s < v.in_seat.len(),
        0 <= t < v.in_seat.len(),
        v.tick <= u64::MAX,
    ensures
        v.touch(s).pinned[s as int],
        t != s ==> v.touch(s).pinned[t] == v.pinned[t] && v.touch(s).last_used[t] == v.last_used[t]
            && v.touch(s).last_used[t] < v.touch(s).last_used[s as int],
        v.touch(s).seat_of == v.seat_of && v.touch(s).in_seat == v.in_seat,
        v.used(s).pinned == v.pinned,
        v.used(s).last_used == v.touch(s).last_used,
        !v.unpinned().pinned[t],
        v.unpinned().seat_of == v.seat_of && v.unpinned().in_seat == v.in_seat && v.unpinned().last_used
            == v.last_used,
        v.unpinned().tick == v.tick,
{
}

/// A routing vector that names an expert there is not is refused for the
/// first such id.
pub proof fn the_first_unknown_expert_is_refused(all: Seq<i32>, experts: u32)
    ensures
        match unknown(all, experts) {
            Some(e) => exists|i: int|
                0 <= i < all.len() && #[trigger] all[i] == e && e >= experts && forall|j: int|
                    0 <= j < i ==> #[trigger] all[j] < experts,
            None => forall|i: int| 0 <= i < all.len() ==> #[trigger] all[i] < experts,
        },
    decreases all.len(),
{
    if all.len() > 0 {
        let head = all.drop_last();
        let k = all.len() - 1;
        the_first_unknown_expert_is_refused(head, experts);
        assert(all[k] == all.last());
        match unknown(head, experts) {
            Some(e) => {
                let i = choose|i: int|
                    0 <= i < head.len() && #[trigger] head[i] == e && e >= experts && forall|j: int|
                        0 <= j < i ==> #[trigger] head[j] < experts;
                assert(all[i] == e);
                assert forall|j: int| 0 <= j < i implies #[trigger] all[j] < experts by {
                    assert(head[j] < experts);
                }
            },
            None => {
                assert forall|j: int| 0 <= j < k implies #[trigger] all[j] < experts by {
                    assert(head[j] < experts);
                }
            },
        }
    }
}

/// A pass has the whole pool's seats, or half of them rounded down, and one
/// at least.
pub proof fn a_pass_has_its_share_of_the_seats(slots: u32)
    ensures
        pass_seats(slots as int, false) == if slots == 0 {
            1
        } else {
            slots as int
        },
        slots >= 2 ==> 2 * pass_seats(slots as int, true) <= slots < 2 * pass_seats(slots as int, true) + 2,
        slots < 2 ==> pass_seats(slots as int, true) == 1,
{
}

/// A tier in passes opens with every seat empty and unpinned, nobody seated,
/// nothing counted and nothing under way; its seats then go in order.
pub proof fn a_tier_in_passes_opens_empty(plan: Plan, g: int, e: int, s: int)
    requires
        0 <= g < plan.groups@.len(),
        0 <= e < plan.groups@[g].experts,
        0 <= s < plan.slots,
    ensures
        ({
            let v = opened(plan);
            &&& v.room.in_seat.len() == plan.slots
            &&& v.room.in_seat[s] is None && !v.room.pinned[s]
            &&& v.room.seat_of.len() == plan.groups@.len()
            &&& v.room.seat_of[g].len() == plan.groups@[g].experts
            &&& v.room.seat(g, e) is None
            &&& v.room.distinct == 0
            &&& v.pending.len() == 0 && !v.inflight
            &&& v.predicted[g] is None && v.passing[g] is None
            &&& v.counts.hits == 0 && v.counts.misses == 0 && v.counts.swaps == 0 && v.counts.bytes_read == 0
            &&& v.room.victim() == Some(0u32)
        }),
{
    let v = opened(plan).room;
    assert(v.coldest(0u32));
    assert forall|t: u32| v.coldest(t) implies t == 0 by {
        assert(v.last_used[0] == v.last_used[t as int]);
    }
}

/// One expert more is read ahead: one that sits is most recent then, where
/// it is asked for again, and is left as it is where not; one that does not
/// takes the coldest seat, and where none goes nothing changes.
pub proof fn one_more_is_read_ahead(v: RoomView, at: usize, all: Seq<u32>, e: u32, again: bool)
    requires
        v.inv(),
        at < v.seat_of.len(),
        forall|i: int| 0 <= i < all.len() ==> #[trigger] all[i] < v.seat_of[at as int].len(),
        e < v.seat_of[at as int].len(),
        v.tick + all.len() < u64::MAX,
        !ahead(v, at, all, again).full,
    ensures
        ({
            let a = ahead(v, at, all, again);
            let b = ahead(v, at, all.push(e), again);
            match (a.room.seat(at as int, e as int), a.room.victim()) {
                (Some(s), _) => {
                    &&& b.landing == a.landing && !b.full
                    &&& !again ==> b.room == a.room
                    &&& again ==> forall|t: int|
                        0 <= t < a.room.in_seat.len() && t != s ==> #[trigger] b.room.last_used[t]
                            == a.room.last_used[t] && b.room.last_used[t] < b.room.last_used[s as int]
                    &&& b.room.seat_of == a.room.seat_of && b.room.pinned == a.room.pinned
                },
                (None, Some(s)) => {
                    &&& b.landing == a.landing.push((at, s, e)) && !b.full
                    &&& b.room == a.room.place(at as int, e)
                },
                (None, None) => b.full && b.landing == a.landing && b.room == a.room,
            }
        }),
{
    let a = ahead(v, at, all, again);
    assert(all.push(e).drop_last() =~= all);
    lemma_ahead(v, at, all, again);
    assert(a.room.names(at as int, e as int));
}

} // verus!
