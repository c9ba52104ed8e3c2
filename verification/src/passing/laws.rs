//! What holds of a pool in passes as a whole.

use vstd::prelude::*;
use vstd::set_lib::lemma_len_subset;

use crate::experts::deciding::Stop;
use crate::experts::plan::pass_seats;
use crate::passing::passes::{
    chunks, first_named, lemma_chunks, lemma_first_named, lemma_ordered, ordered, unknown,
    PassingView,
};
use crate::passing::room::{lemma_place, lemma_unpinned, RoomView};
use crate::passing::segment::pass_words;
use crate::passing::sitting::{
    lemma_no_pins, lemma_room_enough, lemma_routed, lemma_sat_down, lemma_seat, lemma_victim,
    pinned_down, pins, routed, sat_down, Sitting,
};
use crate::passing::tier::TierView;

verus! {

/// The passes over a segment share out the experts it names: each is in one
/// pass, once; no pass takes more than its share of the pool, and none is
/// empty; and whoever sits when they are shared out comes before whoever has
/// to be read.
pub proof fn passes_share_out_the_experts(
    ids: Seq<i32>,
    experts: u32,
    seat_of: Seq<Option<u32>>,
    slots: u32,
    half: bool,
)
    requires
        unknown(ids, experts) is None,
    ensures
        ({
            let n = pass_seats(slots as int, half);
            let groups = chunks(ordered(ids, seat_of), n);
            &&& forall|k: int| 0 <= k < groups.len() ==> 0 < (#[trigger] groups[k]).len() <= n
            &&& forall|k: int| 0 <= k < groups.len() ==> (#[trigger] groups[k]).no_duplicates()
            &&& forall|k: int, i: int|
                0 <= k < groups.len() && 0 <= i < groups[k].len() ==> #[trigger] groups[k][i] < experts
            &&& forall|i: int|
                0 <= i < ids.len() && #[trigger] ids[i] >= 0 ==> exists|k: int|
                    0 <= k < groups.len() && #[trigger] groups[k].contains(ids[i] as u32)
            &&& forall|k: int, e: u32|
                0 <= k < groups.len() && #[trigger] groups[k].contains(e) ==> exists|i: int|
                    0 <= i < ids.len() && #[trigger] ids[i] == e
            &&& forall|k: int, l: int, e: u32|
                0 <= k < groups.len() && 0 <= l < groups.len() && #[trigger] groups[k].contains(e)
                    && #[trigger] groups[l].contains(e) ==> k == l
            &&& forall|k: int, l: int, e: u32, f: u32|
                0 <= k < l < groups.len() && #[trigger] groups[k].contains(e)
                    && #[trigger] groups[l].contains(f) && seat_of[f as int] is Some
                    ==> seat_of[e as int] is Some
        }),
{
    let n = pass_seats(slots as int, half);
    let order = ordered(ids, seat_of);
    let groups = chunks(order, n);
    lemma_ordered(ids, experts, seat_of);
    lemma_chunks(order, n);
    assert forall|i: int| 0 <= i < ids.len() && #[trigger] ids[i] >= 0 implies exists|k: int|
        0 <= k < groups.len() && #[trigger] groups[k].contains(ids[i] as u32) by {
        assert(ids[i] == ids[i] as u32);
        assert(order.contains(ids[i] as u32));
    }
    assert forall|k: int, e: u32| 0 <= k < groups.len() && #[trigger] groups[k].contains(e) implies exists|i: int|
        0 <= i < ids.len() && #[trigger] ids[i] == e by {
        assert(order.contains(e));
    }
    assert forall|k: int, i: int| 0 <= k < groups.len() && 0 <= i < groups[k].len() implies #[trigger] groups[k][i]
        < experts by {
        assert(groups[k][i] == order[k * n + i]);
    }
    assert forall|k: int, l: int, e: u32, f: u32|
        0 <= k < l < groups.len() && #[trigger] groups[k].contains(e) && #[trigger] groups[l].contains(f)
            && seat_of[f as int] is Some implies seat_of[e as int] is Some by {
        let i = groups[k].index_of(e);
        let j = groups[l].index_of(f);
        assert(groups[k][i] == order[k * n + i]);
        assert(groups[l][j] == order[l * n + j]);
        assert(k * n + i < l * n + j) by (nonlinear_arith)
            requires
                k < l,
                0 <= i < n,
                j >= 0,
        ;
    }
}

/// A pass is never refused: whatever the passes before it left, every expert
/// of it sits, each in a seat of its own, until the segment is over.
pub proof fn a_pass_is_never_refused(
    ids: Seq<i32>,
    experts: u32,
    seat_of: Seq<Option<u32>>,
    half: bool,
    k: int,
    room: RoomView,
    at: usize,
    from: Sitting,
)
    requires
        unknown(ids, experts) is None,
        room.inv(),
        room.in_seat.len() > 0,
        at < room.seat_of.len(),
        room.seat_of[at as int].len() == experts,
        0 <= k < chunks(ordered(ids, seat_of), pass_seats(room.in_seat.len() as int, half)).len(),
        room.tick + room.in_seat.len() <= u64::MAX,
        from.room == room.unpinned(),
        from.stop is None,
    ensures
        ({
            let group = chunks(
                ordered(ids, seat_of),
                pass_seats(room.in_seat.len() as int, half),
            )[k];
            let s = sat_down(from, at, group);
            &&& s.stop is None
            &&& s.room.inv()
            &&& forall|i: int|
                0 <= i < group.len() ==> pinned_down(s.room, at as int, #[trigger] group[i] as int)
            &&& forall|i: int, j: int|
                0 <= i < j < group.len() ==> s.room.seat(at as int, #[trigger] group[i] as int)
                    != s.room.seat(at as int, #[trigger] group[j] as int)
        }),
{
    let slots = room.in_seat.len();
    let group = chunks(ordered(ids, seat_of), pass_seats(slots as int, half))[k];
    passes_share_out_the_experts(ids, experts, seat_of, slots as u32, half);
    assert(0 < group.len() <= pass_seats(slots as int, half));
    lemma_unpinned(room);
    lemma_no_pins(slots);
    assert(from.room.pinned =~= Seq::new(slots, |s: int| false));
    assert forall|i: int| 0 <= i < group.len() implies #[trigger] group[i] < from.room.seat_of[at as int].len() by {
        assert(group[i] < experts);
    }
    lemma_room_enough(from, at, group);
    lemma_sat_down(from, at, group);
    let s = sat_down(from, at, group);
    assert forall|i: int, j: int| 0 <= i < j < group.len() implies s.room.seat(
        at as int,
        #[trigger] group[i] as int,
    ) != s.room.seat(at as int, #[trigger] group[j] as int) by {
        assert(group[i] != group[j]);
        assert(pinned_down(s.room, at as int, group[i] as int));
        assert(s.room.seat_of[at as int].len() == experts);
        assert(s.room.names(at as int, group[i] as int) && s.room.names(at as int, group[j] as int));
    }
}

/// Every entry of a routing vector is read in one pass: there its expert's
/// seat is written, and in every other pass nobody's. `rooms[k]` is the room
/// as pass `k` seated its experts.
pub proof fn an_entry_is_read_in_one_pass(
    ids: Seq<i32>,
    experts: u32,
    seat_of: Seq<Option<u32>>,
    slots: u32,
    half: bool,
    rooms: Seq<RoomView>,
    at: int,
    i: int,
)
    requires
        unknown(ids, experts) is None,
        0 <= i < ids.len(),
        rooms.len() == chunks(ordered(ids, seat_of), pass_seats(slots as int, half)).len(),
    ensures
        ({
            let groups = chunks(ordered(ids, seat_of), pass_seats(slots as int, half));
            &&& ids[i] < 0 ==> forall|k: int|
                0 <= k < groups.len() ==> #[trigger] pass_words(ids, groups[k], rooms[k], at)[i]
                    == 0xffff_ffff
            &&& ids[i] >= 0 ==> exists|k: int| {
                &&& 0 <= k < groups.len()
                &&& #[trigger] pass_words(ids, groups[k], rooms[k], at)[i] == rooms[k].seat(
                    at,
                    ids[i] as int,
                )->0
                &&& groups[k].contains(ids[i] as u32)
                &&& forall|l: int|
                    0 <= l < groups.len() && l != k ==> #[trigger] pass_words(
                        ids,
                        groups[l],
                        rooms[l],
                        at,
                    )[i] == 0xffff_ffff
            }
        }),
{
    let groups = chunks(ordered(ids, seat_of), pass_seats(slots as int, half));
    passes_share_out_the_experts(ids, experts, seat_of, slots, half);
    if ids[i] >= 0 {
        let e = ids[i] as u32;
        assert(ids[i] == e);
        let k = choose|k: int| 0 <= k < groups.len() && #[trigger] groups[k].contains(e);
        assert(pass_words(ids, groups[k], rooms[k], at)[i] == rooms[k].seat(at, ids[i] as int)->0);
        assert forall|l: int| 0 <= l < groups.len() && l != k implies #[trigger] pass_words(
            ids,
            groups[l],
            rooms[l],
            at,
        )[i] == 0xffff_ffff by {
            assert(!groups[l].contains(e));
        }
    }
}

/// The experts a routing vector names.
pub open spec fn named(ids: Seq<i32>) -> Set<u32> {
    Set::new(|e: u32| exists|i: int| 0 <= i < ids.len() && #[trigger] ids[i] == e)
}

/// A segment run in passes: `turns[k]` is the tier as pass `k` is called,
/// whatever was done with it since the pass before but to cut another
/// segment of this group.
pub open spec fn in_turn(
    turns: Seq<TierView>,
    at: usize,
    row_offset: u32,
    rows: u32,
    ids: Seq<i32>,
    experts: u32,
    half: bool,
) -> bool {
    &&& forall|k: int|
        0 <= k < turns.len() ==> {
            &&& (#[trigger] turns[k]).wf()
            &&& at < turns[k].room.seat_of.len()
            &&& turns[k].room.seat_of[at as int].len() == experts
            &&& turns[k].room.in_seat.len() == turns[0].room.in_seat.len()
            &&& turns[k].spare(pass_seats(turns[k].room.in_seat.len() as int, false) as nat)
        }
    &&& forall|k: int|
        0 < k < turns.len() ==> (#[trigger] turns[k]).passing[at as int] == turns[k - 1].passed(
            at,
            turns[k - 1].cut().under_way(
                at as int,
                row_offset,
                rows,
                (k - 1) as u32,
                ids,
                half,
            ),
            k - 1,
        ).passing[at as int]
}

proof fn lemma_under_way(
    turns: Seq<TierView>,
    at: usize,
    row_offset: u32,
    rows: u32,
    ids: Seq<i32>,
    experts: u32,
    half: bool,
    k: int,
)
    requires
        in_turn(turns, at, row_offset, rows, ids, experts, half),
        0 <= k < turns.len() <= u32::MAX,
    ensures
        turns[k].cut().under_way(at as int, row_offset, rows, k as u32, ids, half)
            == turns[0].cut().passes(at as int, row_offset, rows, ids, half),
    decreases k,
{
    if k > 0 {
        lemma_under_way(turns, at, row_offset, rows, ids, experts, half, k - 1);
        let p = turns[0].cut().passes(at as int, row_offset, rows, ids, half);
        assert(turns[k - 1].wf());
        assert(turns[k].passing[at as int] == Some(p));
    }
}

/// Of the numbers below `n` there are `n`.
proof fn lemma_experts_below(n: int)
    requires
        0 <= n <= u32::MAX,
    ensures
        Set::new(|e: u32| e < n).finite(),
        Set::new(|e: u32| e < n).len() == n,
    decreases n,
{
    let all = Set::new(|e: u32| e < n);
    if n == 0 {
        assert(all =~= Set::empty());
    } else {
        lemma_experts_below(n - 1);
        let rest = Set::new(|e: u32| e < n - 1);
        assert(all =~= rest.insert((n - 1) as u32));
        assert(!rest.contains((n - 1) as u32));
    }
}

/// How many passes a segment takes: as many as its experts fill, a share of
/// the pool each.
pub proof fn a_segment_takes_so_many_passes(
    ids: Seq<i32>,
    experts: u32,
    seat_of: Seq<Option<u32>>,
    n: int,
)
    requires
        unknown(ids, experts) is None,
        n > 0,
    ensures
        named(ids).finite(),
        named(ids).len() <= experts,
        ordered(ids, seat_of).len() == named(ids).len(),
        chunks(ordered(ids, seat_of), n).len() == (named(ids).len() + n - 1) / n,
        chunks(ordered(ids, seat_of), n).len() <= named(ids).len(),
{
    let order = ordered(ids, seat_of);
    lemma_ordered(ids, experts, seat_of);
    order.unique_seq_to_set();
    assert(order.to_set() =~= named(ids));
    lemma_experts_below(experts as int);
    assert(named(ids).subset_of(Set::new(|e: u32| e < experts))) by {
        assert forall|e: u32| named(ids).contains(e) implies e < experts by {
            assert(order.contains(e));
            assert(order[order.index_of(e)] < experts);
        }
    }
    lemma_len_subset(named(ids), Set::new(|e: u32| e < experts));
    let d = order.len() as int;
    assert((d + n - 1) / n <= d) by (nonlinear_arith)
        requires
            d >= 0,
            n > 0,
    ;
}

/// What pass `k` writes for its matmuls to read, of the passes `p`.
pub open spec fn turn_words(turn: TierView, at: usize, p: PassingView, k: int) -> Seq<u32> {
    pass_words(p.ids, p.groups[k], turn.seating(at, p, k).room, at as int)
}

/// Pass `k` of a segment is one of the passes the first read, and seats its
/// experts.
proof fn lemma_turn(
    turns: Seq<TierView>,
    at: usize,
    row_offset: u32,
    rows: u32,
    ids: Seq<i32>,
    experts: u32,
    half: bool,
    k: int,
)
    requires
        in_turn(turns, at, row_offset, rows, ids, experts, half),
        turns[0].room.in_seat.len() > 0,
        unknown(ids, experts) is None,
        0 <= k < turns.len() <= u32::MAX,
        turns.len() == turns[0].cut().passes(at as int, row_offset, rows, ids, half).groups.len(),
    ensures
        ({
            let slots = turns[0].room.in_seat.len() as int;
            let p = turns[0].cut().passes(at as int, row_offset, rows, ids, half);
            &&& turns[k].cut().under_way(at as int, row_offset, rows, k as u32, ids, half) == p
            &&& turns[k].seating(at, p, k).stop is None
            &&& p.groups[k].len() <= pass_seats(slots, half)
            &&& pass_seated(turns[k].seating(at, p, k), at, p.groups[k], slots)
        }),
{
    let slots = turns[0].room.in_seat.len() as int;
    let p = turns[0].cut().passes(at as int, row_offset, rows, ids, half);
    let before = turns[0].room.seat_of[at as int];
    assert(turns[0].wf() && turns[k].wf());
    assert(p.groups == chunks(ordered(ids, before), pass_seats(slots, half)));
    passes_share_out_the_experts(ids, experts, before, slots as u32, half);
    lemma_under_way(turns, at, row_offset, rows, ids, experts, half, k);
    let from = turns[k].cut().in_passes(at as int, p).sitting();
    lemma_unpinned(turns[k].room);
    a_pass_is_never_refused(ids, experts, before, half, k, turns[k].room, at, from);
    let group = p.groups[k];
    assert forall|i: int| 0 <= i < group.len() implies #[trigger] group[i] < experts by {
        assert(p.groups[k][i] < experts);
    }
    lemma_pass_seated(from, at, group, experts);
}

/// A segment run in passes, whole. Its `d` experts take `ceil(d / g)`
/// passes, `g` being one pass's share of the pool, and every pass says so.
/// None is refused. Over them all an entry that names an expert is written
/// as that expert's seat in one pass and as nobody in every other, an entry
/// that names nobody as nobody in all. Within a pass the entries of one
/// expert are written as one seat, those of two as two, and no more than `g`
/// experts are. Whoever sat as the first pass came is seated before whoever
/// did not.
pub proof fn a_segment_runs_in_passes(
    turns: Seq<TierView>,
    at: usize,
    row_offset: u32,
    rows: u32,
    ids: Seq<i32>,
    experts: u32,
    half: bool,
)
    requires
        turns.len() > 0,
        in_turn(turns, at, row_offset, rows, ids, experts, half),
        turns[0].room.in_seat.len() > 0,
        unknown(ids, experts) is None,
        turns.len() == turns[0].cut().passes(at as int, row_offset, rows, ids, half).groups.len(),
    ensures
        ({
            let slots = turns[0].room.in_seat.len() as int;
            let g = pass_seats(slots, half);
            let p = turns[0].cut().passes(at as int, row_offset, rows, ids, half);
            let before = turns[0].room.seat_of[at as int];
            &&& turns.len() == (named(ids).len() + g - 1) / g
            &&& forall|k: int|
                0 <= k < turns.len() ==> {
                    let q = (#[trigger] turns[k]).cut().under_way(
                        at as int,
                        row_offset,
                        rows,
                        k as u32,
                        ids,
                        half,
                    );
                    &&& q == p
                    &&& q.groups.len() as u32 == turns.len()
                    &&& turns[k].seating(at, q, k).stop is None
                    &&& p.groups[k].len() <= g
                }
            &&& forall|i: int, k: int|
                0 <= i < ids.len() && ids[i] < 0 && 0 <= k < turns.len() ==> #[trigger] turn_words(turns[k], at, p, k)[i]
                    == 0xffff_ffff
            &&& forall|i: int|
                0 <= i < ids.len() && #[trigger] ids[i] >= 0 ==> exists|k: int| {
                    &&& 0 <= k < turns.len()
                    &&& #[trigger] turn_words(turns[k], at, p, k)[i] < slots
                    &&& turns[k].seating(at, p, k).room.seat(at as int, ids[i] as int) == Some(turn_words(turns[k], at, p, k)[i])
                    &&& forall|l: int|
                        0 <= l < turns.len() && l != k ==> #[trigger] turn_words(turns[l], at, p, l)[i] == 0xffff_ffff
                }
            &&& forall|k: int, i: int, j: int|
                0 <= k < turns.len() && 0 <= i < ids.len() && 0 <= j < ids.len() && #[trigger] turn_words(turns[k], at, p, k)[i]
                    != 0xffff_ffff && #[trigger] turn_words(turns[k], at, p, k)[j] != 0xffff_ffff ==> (turn_words(turns[k], at, p, k)[i] == turn_words(turns[k], at, p, k)[j] <==> ids[i] == ids[j])
            &&& forall|k: int, l: int, e: u32, f: u32|
                0 <= k < l < turns.len() && #[trigger] p.groups[k].contains(e)
                    && #[trigger] p.groups[l].contains(f) && before[f as int] is Some
                    ==> before[e as int] is Some
        }),
{
    let slots = turns[0].room.in_seat.len() as int;
    let g = pass_seats(slots, half);
    let p = turns[0].cut().passes(at as int, row_offset, rows, ids, half);
    let before = turns[0].room.seat_of[at as int];
    assert(turns[0].wf());
    assert(turns[0].cut().room.seat_of == turns[0].room.seat_of);
    assert(p.groups == chunks(ordered(ids, before), g));
    a_segment_takes_so_many_passes(ids, experts, before, g);
    passes_share_out_the_experts(ids, experts, before, slots as u32, half);
    assert forall|k: int| 0 <= k < turns.len() implies {
        &&& (#[trigger] turns[k]).cut().under_way(at as int, row_offset, rows, k as u32, ids, half) == p
        &&& turns[k].seating(at, p, k).stop is None
        &&& p.groups[k].len() <= g
        &&& pass_seated(turns[k].seating(at, p, k), at, p.groups[k], slots)
    } by {
        lemma_turn(turns, at, row_offset, rows, ids, experts, half, k);
    }
    assert forall|i: int| 0 <= i < ids.len() && #[trigger] ids[i] >= 0 implies exists|k: int| {
        &&& 0 <= k < turns.len()
        &&& #[trigger] turn_words(turns[k], at, p, k)[i] < slots
        &&& turns[k].seating(at, p, k).room.seat(at as int, ids[i] as int) == Some(turn_words(turns[k], at, p, k)[i])
        &&& forall|l: int| 0 <= l < turns.len() && l != k ==> #[trigger] turn_words(turns[l], at, p, l)[i] == 0xffff_ffff
    } by {
        let e = ids[i] as u32;
        let k = choose|k: int| 0 <= k < p.groups.len() && #[trigger] p.groups[k].contains(ids[i] as u32);
        assert(turns[k].wf());
        assert(p.groups[k][p.groups[k].index_of(e)] == e);
        assert(turn_words(turns[k], at, p, k)[i] < slots);
        assert forall|l: int| 0 <= l < turns.len() && l != k implies #[trigger] turn_words(turns[l], at, p, l)[i] == 0xffff_ffff by {
            assert(!p.groups[l].contains(e));
        }
    }
    assert forall|k: int, i: int, j: int|
        0 <= k < turns.len() && 0 <= i < ids.len() && 0 <= j < ids.len() && #[trigger] turn_words(turns[k], at, p, k)[i]
            != 0xffff_ffff && #[trigger] turn_words(turns[k], at, p, k)[j] != 0xffff_ffff implies (turn_words(turns[k], at, p, k)[i] == turn_words(turns[k], at, p, k)[j]
        <==> ids[i] == ids[j]) by {
        assert(turns[k].wf());
        let group = p.groups[k];
        let a = group.index_of(ids[i] as u32);
        let b = group.index_of(ids[j] as u32);
        assert(group[a] == ids[i] && group[b] == ids[j]);
    }
}

/// Everyone of a pass sits, each in a seat of their own.
spec fn pass_seated(s: Sitting, at: usize, group: Seq<u32>, slots: int) -> bool {
    &&& forall|i: int|
        0 <= i < group.len() ==> {
            &&& s.room.seat(at as int, #[trigger] group[i] as int) is Some
            &&& s.room.seat(at as int, group[i] as int)->0 < slots
        }
    &&& forall|i: int, j: int|
        0 <= i < j < group.len() ==> s.room.seat(at as int, #[trigger] group[i] as int)
            != s.room.seat(at as int, #[trigger] group[j] as int)
}

proof fn lemma_pass_seated(from: Sitting, at: usize, group: Seq<u32>, experts: u32)
    requires
        from.room.inv(),
        from.stop is None,
        at < from.room.seat_of.len(),
        from.room.seat_of[at as int].len() == experts,
        forall|i: int| 0 <= i < group.len() ==> #[trigger] group[i] < experts,
        from.room.tick + group.len() <= u64::MAX,
        group.no_duplicates(),
        sat_down(from, at, group).stop is None,
    ensures
        pass_seated(sat_down(from, at, group), at, group, from.room.in_seat.len() as int),
{
    lemma_sat_down(from, at, group);
    let s = sat_down(from, at, group);
    assert(s.room.seat_of[at as int].len() == experts);
    assert forall|i: int| 0 <= i < group.len() implies {
        &&& s.room.seat(at as int, #[trigger] group[i] as int) is Some
        &&& s.room.seat(at as int, group[i] as int)->0 < from.room.in_seat.len()
    } by {
        assert(pinned_down(s.room, at as int, group[i] as int));
        assert(s.room.names(at as int, group[i] as int));
    }
    assert forall|i: int, j: int| 0 <= i < j < group.len() implies s.room.seat(
        at as int,
        #[trigger] group[i] as int,
    ) != s.room.seat(at as int, #[trigger] group[j] as int) by {
        assert(s.room.names(at as int, group[i] as int) && s.room.names(at as int, group[j] as int));
    }
}

/// The seat used last is the last to go: as long as another is not pinned,
/// it is not the one evicted.
pub proof fn the_last_used_is_not_evicted(v: RoomView, s: u32, t: int)
    requires
        v.inv(),
        v.tick <= u64::MAX,
        s < v.in_seat.len(),
        0 <= t < v.in_seat.len(),
        t != s,
        !v.pinned[t],
    ensures
        v.used(s).victim() != Some(s),
{
    let w = v.used(s);
    if w.victim() == Some(s) {
        assert(w.coldest(s));
        assert(w.last_used[t] == v.last_used[t]);
    }
}

/// An expert sits in one seat, and a seat holds one expert.
pub proof fn a_seat_holds_one_expert(v: RoomView, g: int, e: int, h: int, f: int)
    requires
        v.inv(),
        v.names(g, e),
        v.names(h, f),
        v.seat(g, e) is Some,
        v.seat(g, e) == v.seat(h, f),
    ensures
        g == h && e == f,
        v.in_seat[v.seat(g, e)->0 as int] == Some((g as u32, e as u32)),
{
}

/// Pinning a seat adds one pin, if it was not pinned.
proof fn lemma_pins_exact(pinned: Seq<bool>, s: int)
    requires
        0 <= s < pinned.len(),
    ensures
        pins(pinned.update(s, true)) == pins(pinned) + if pinned[s] { 0int } else { 1int },
        pins(pinned) <= pinned.len(),
    decreases pinned.len(),
{
    let w = pinned.update(s, true);
    if s == pinned.len() - 1 {
        assert(w.drop_last() =~= pinned.drop_last());
        lemma_pins_at_most(pinned);
    } else {
        lemma_pins_exact(pinned.drop_last(), s);
        assert(w.drop_last() =~= pinned.drop_last().update(s, true));
    }
}

proof fn lemma_pins_at_most(pinned: Seq<bool>)
    ensures
        pins(pinned) <= pinned.len(),
    decreases pinned.len(),
{
    if pinned.len() > 0 {
        lemma_pins_at_most(pinned.drop_last());
    }
}

/// What holds part of the way through a segment that started with nothing
/// pinned: a pin for every expert named so far, on the seat it sits in.
pub open spec fn pinned_for(n: Sitting, at: usize, ids: Seq<i32>) -> bool {
    &&& pins(n.room.pinned) == first_named(ids).len()
    &&& forall|s: int|
        0 <= s < n.room.pinned.len() && #[trigger] n.room.pinned[s] ==> {
            &&& n.room.in_seat[s] matches Some((g, e)) && g == at && first_named(ids).contains(e)
        }
}

pub proof fn lemma_pinned_for(from: Sitting, at: usize, experts: u32, ids: Seq<i32>)
    requires
        from.room.inv(),
        from.stop is None,
        at < from.room.seat_of.len(),
        from.room.seat_of[at as int].len() == experts,
        from.room.tick + ids.len() <= u64::MAX,
        from.room.pinned == Seq::new(from.room.in_seat.len(), |s: int| false),
        unknown(ids, experts) is None,
    ensures
        ({
            let n = routed(from, at, experts, ids);
            &&& n.stop is None ==> pinned_for(n, at, ids) && first_named(ids).len()
                <= from.room.in_seat.len()
            &&& n.stop is Some ==> n.stop == Some(Stop::Full) && first_named(ids).len()
                > from.room.in_seat.len()
        }),
    decreases ids.len(),
{
    let slots = from.room.in_seat.len();
    if ids.len() == 0 {
        lemma_no_pins(slots);
    } else {
        let head = ids.drop_last();
        let id = ids.last();
        lemma_pinned_for(from, at, experts, head);
        lemma_routed(from, at, experts, head);
        lemma_first_named(head, experts);
        lemma_first_named(ids, experts);
        let m = routed(from, at, experts, head);
        let n = routed(from, at, experts, ids);
        let was = first_named(head);
        let now = first_named(ids);
        assert(m.room.seat_of[at as int].len() == experts);
        if m.stop is None && id >= 0 {
            let e = id as u32;
            assert(m.room.names(at as int, e as int));
            lemma_seat(m, at, e);
            if was.contains(e) {
                let i = choose|i: int| 0 <= i < head.len() && #[trigger] head[i] == e;
                assert(pinned_down(m.room, at as int, head[i] as int));
                let s = m.room.seat(at as int, e as int)->0;
                assert(m.room.pinned[s as int]);
                lemma_pins_exact(m.room.pinned, s as int);
                assert(n.room.pinned =~= m.room.pinned);
                assert(n.room.in_seat == m.room.in_seat);
            } else {
                assert(now == was.push(e));
                assert forall|x: u32| was.contains(x) implies #[trigger] now.contains(x) by {
                    assert(now[was.index_of(x)] == x);
                }
                assert(now[was.len() as int] == e);
                match m.room.seat(at as int, e as int) {
                    Some(s) => {
                        assert(m.room.in_seat[s as int] == Some((at as u32, e)));
                        assert(!m.room.pinned[s as int]);
                        lemma_pins_exact(m.room.pinned, s as int);
                        lemma_pins_at_most(n.room.pinned);
                        assert(n.room.in_seat == m.room.in_seat);
                        assert forall|t: int| 0 <= t < n.room.pinned.len() && #[trigger] n.room.pinned[t] implies {
                            &&& n.room.in_seat[t] matches Some((g, x)) && g == at && now.contains(x)
                        } by {
                            if t != s {
                                assert(m.room.pinned[t]);
                            }
                        }
                    },
                    None => {
                        lemma_place(m.room, at as int, e);
                        lemma_pins_at_most(m.room.pinned);
                        match m.room.victim() {
                            Some(s) => {
                                assert(m.room.coldest(s));
                                lemma_pins_exact(m.room.pinned, s as int);
                                lemma_pins_at_most(n.room.pinned);
                                assert forall|t: int| 0 <= t < n.room.pinned.len() && #[trigger] n.room.pinned[t] implies {
                                    &&& n.room.in_seat[t] matches Some((g, x)) && g == at && now.contains(x)
                                } by {
                                    if t != s {
                                        assert(m.room.pinned[t]);
                                        assert(n.room.in_seat[t] == m.room.in_seat[t]);
                                    }
                                }
                            },
                            None => {
                                if pins(m.room.pinned) < slots {
                                    lemma_victim(m.room);
                                }
                            },
                        }
                    },
                }
            }
        }
    }
}

/// A segment seated all at once is refused just when it names more experts
/// than the pool has seats.
pub proof fn a_segment_is_refused_for_want_of_seats(
    from: Sitting,
    at: usize,
    experts: u32,
    ids: Seq<i32>,
)
    requires
        from.room.inv(),
        from.stop is None,
        at < from.room.seat_of.len(),
        from.room.seat_of[at as int].len() == experts,
        from.room.tick + ids.len() <= u64::MAX,
        from.room.pinned == Seq::new(from.room.in_seat.len(), |s: int| false),
        unknown(ids, experts) is None,
    ensures
        routed(from, at, experts, ids).stop is None <==> first_named(ids).len()
            <= from.room.in_seat.len(),
        routed(from, at, experts, ids).stop is Some ==> routed(from, at, experts, ids).stop == Some(
            Stop::Full,
        ),
{
    lemma_pinned_for(from, at, experts, ids);
}

} // verus!
