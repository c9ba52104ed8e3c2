//! How a prediction is scored, and what becomes of it.

use vstd::prelude::*;

use crate::experts::predict::{
    counted, covers, named, named_in, predicts, prefix, ranked_of, raws, sits,
};
use crate::experts::tally::Prediction;
use crate::fault::Fault;

verus! {

/// A row named one id more counts one more of what is asked after, where the
/// id names such an expert.
proof fn lemma_named(row: Seq<i32>, id: i32, experts: u32, what: spec_fn(u32) -> bool)
    ensures
        named(row.push(id), experts, what) == named(row, experts, what) + if 0 <= id < experts && what(
            id as u32,
        ) {
            1nat
        } else {
            0nat
        },
        named(Seq::<i32>::empty(), experts, what) == 0,
{
    assert(row.push(id).drop_last() =~= row);
}

/// Counting over rows, entry by entry: one entry more counts for one where
/// its row was predicted, it names an expert there is and that expert is what
/// is asked after, and for nothing elsewhere; an empty row counts nothing.
pub proof fn each_entry_is_scored_once(
    rows: Seq<Seq<i32>>,
    row: Seq<i32>,
    id: i32,
    ranked: Seq<Seq<u32>>,
    experts: u32,
    what: spec_fn(Seq<u32>, u32) -> bool,
)
    ensures
        named_in(Seq::<Seq<i32>>::empty(), ranked, experts, what) == 0,
        named_in(rows.push(Seq::empty()), ranked, experts, what) == named_in(rows, ranked, experts, what),
        named_in(rows.push(row.push(id)), ranked, experts, what) == named_in(
            rows.push(row),
            ranked,
            experts,
            what,
        ) + if rows.len() < ranked.len() && 0 <= id < experts && what(ranked[rows.len() as int], id as u32) {
            1nat
        } else {
            0nat
        },
{
    let n = rows.len() as int;
    let of = |e: u32| what(ranked[n], e);
    assert(rows.push(Seq::empty()).drop_last() =~= rows);
    assert(rows.push(row).drop_last() =~= rows);
    assert(rows.push(row.push(id)).drop_last() =~= rows);
    lemma_named(row, id, experts, of);
}

/// More of one count than of another, where the one asks after more.
proof fn lemma_named_more(
    row: Seq<i32>,
    experts: u32,
    less: spec_fn(u32) -> bool,
    more: spec_fn(u32) -> bool,
)
    requires
        forall|e: u32| #[trigger] less(e) ==> more(e),
    ensures
        named(row, experts, less) <= named(row, experts, more),
    decreases row.len(),
{
    if row.len() > 0 {
        lemma_named_more(row.drop_last(), experts, less, more);
        if 0 <= row.last() < experts {
            assert(less(row.last() as u32) ==> more(row.last() as u32));
        }
    }
}

proof fn lemma_named_in_more(
    rows: Seq<Seq<i32>>,
    ranked: Seq<Seq<u32>>,
    experts: u32,
    less: spec_fn(Seq<u32>, u32) -> bool,
    more: spec_fn(Seq<u32>, u32) -> bool,
)
    requires
        forall|r: Seq<u32>, e: u32| #[trigger] less(r, e) ==> more(r, e),
    ensures
        named_in(rows, ranked, experts, less) <= named_in(rows, ranked, experts, more),
    decreases rows.len(),
{
    if rows.len() > 0 {
        lemma_named_in_more(rows.drop_last(), ranked, experts, less, more);
        let n = rows.len() - 1;
        if n < ranked.len() {
            let a = |e: u32| less(ranked[n], e);
            let b = |e: u32| more(ranked[n], e);
            assert forall|e: u32| #[trigger] a(e) implies b(e) by {
                assert(less(ranked[n], e));
            }
            lemma_named_more(rows[n], experts, a, b);
        }
    }
}

/// An expert a prediction covers is one among its first so many: six, eight,
/// twelve or sixteen.
pub proof fn a_prediction_covers_its_first_few(ranked: Seq<u32>, expert: u32)
    ensures
        covers(ranked, prefix(0), expert) <==> ranked.take(
            if ranked.len() < 6 { ranked.len() as int } else { 6 },
        ).contains(expert),
        covers(ranked, prefix(1), expert) <==> ranked.take(
            if ranked.len() < 8 { ranked.len() as int } else { 8 },
        ).contains(expert),
        covers(ranked, prefix(2), expert) <==> ranked.take(
            if ranked.len() < 12 { ranked.len() as int } else { 12 },
        ).contains(expert),
        covers(ranked, prefix(3), expert) <==> ranked.take(
            if ranked.len() < 16 { ranked.len() as int } else { 16 },
        ).contains(expert),
{
    lemma_covers(ranked, 6, expert);
    lemma_covers(ranked, 8, expert);
    lemma_covers(ranked, 12, expert);
    lemma_covers(ranked, 16, expert);
}

proof fn lemma_covers(ranked: Seq<u32>, k: int, expert: u32)
    requires
        k >= 0,
    ensures
        covers(ranked, k, expert) <==> ranked.take(
            if ranked.len() < k { ranked.len() as int } else { k },
        ).contains(expert),
{
    let first = ranked.take(if ranked.len() < k { ranked.len() as int } else { k });
    if covers(ranked, k, expert) {
        let j = choose|j: int| 0 <= j < k && j < ranked.len() && #[trigger] ranked[j] == expert;
        assert(first[j] == expert);
    }
    if first.contains(expert) {
        let j = first.index_of(expert);
        assert(ranked[j] == expert);
    }
}

/// What a score adds up to: no more is missed or covered than is named, a
/// wider prefix covers no less, and what a prefix saves it covers and the
/// pool missed.
pub proof fn scores_lie_within_each_other(
    before: Prediction,
    after: Prediction,
    rows: Seq<Seq<i32>>,
    ranked: Seq<Seq<u32>>,
    experts: u32,
    seat_of: Seq<Option<u32>>,
    i: int,
)
    requires
        counted(before, after, rows, ranked, experts, seat_of),
        0 <= i < 4,
    ensures
        after.misses - before.misses <= after.total - before.total,
        after.covered@[i] - before.covered@[i] <= after.total - before.total,
        after.saved@[i] - before.saved@[i] <= after.covered@[i] - before.covered@[i],
        after.saved@[i] - before.saved@[i] <= after.misses - before.misses,
        i > 0 ==> after.covered@[i - 1] - before.covered@[i - 1] <= after.covered@[i] - before.covered@[i],
        i > 0 ==> after.saved@[i - 1] - before.saved@[i - 1] <= after.saved@[i] - before.saved@[i],
        after.prefetched == before.prefetched,
{
    let all = |r: Seq<u32>, e: u32| true;
    let missed = |r: Seq<u32>, e: u32| !sits(seat_of, e);
    let covered = |r: Seq<u32>, e: u32| covers(r, prefix(i), e);
    let saved = |r: Seq<u32>, e: u32| covers(r, prefix(i), e) && !sits(seat_of, e);
    lemma_named_in_more(rows, ranked, experts, missed, all);
    lemma_named_in_more(rows, ranked, experts, covered, all);
    lemma_named_in_more(rows, ranked, experts, saved, covered);
    lemma_named_in_more(rows, ranked, experts, saved, missed);
    assert(after.covered@[i] == before.covered@[i] + named_in(rows, ranked, experts, covered));
    assert(after.saved@[i] == before.saved@[i] + named_in(rows, ranked, experts, saved));
    if i > 0 {
        let j = i - 1;
        let less = |r: Seq<u32>, e: u32| covers(r, prefix(j), e);
        let fewer = |r: Seq<u32>, e: u32| covers(r, prefix(j), e) && !sits(seat_of, e);
        assert forall|r: Seq<u32>, e: u32| #[trigger] less(r, e) implies covered(r, e) by {
            let k = choose|k: int| 0 <= k < prefix(j) && k < r.len() && #[trigger] r[k] == e;
            assert(r[k] == e && k < prefix(i));
        }
        assert forall|r: Seq<u32>, e: u32| #[trigger] fewer(r, e) implies saved(r, e) by {
            assert(less(r, e));
        }
        lemma_named_in_more(rows, ranked, experts, less, covered);
        lemma_named_in_more(rows, ranked, experts, fewer, saved);
        assert(after.covered@[j] == before.covered@[j] + named_in(rows, ranked, experts, less));
        assert(after.saved@[j] == before.saved@[j] + named_in(rows, ranked, experts, fewer));
    }
}

/// A row's ranks are the ids in it that name an expert, in their order.
pub proof fn ranks_are_the_named_ids_in_order(a: Seq<i32>, b: Seq<i32>, id: i32)
    ensures
        ranked_of(a + b) == ranked_of(a) + ranked_of(b),
        ranked_of(seq![id]) == if id >= 0 {
            seq![id as u32]
        } else {
            Seq::<u32>::empty()
        },
    decreases b.len(),
{
    assert(seq![id].drop_last() =~= Seq::<i32>::empty());
    assert(ranked_of(Seq::<i32>::empty()) =~= Seq::<u32>::empty());
    assert(Seq::<u32>::empty().push(id as u32) =~= seq![id as u32]);
    if b.len() == 0 {
        assert(a + b =~= a);
        assert(ranked_of(a) + ranked_of(b) =~= ranked_of(a));
    } else {
        ranks_are_the_named_ids_in_order(a, b.drop_last(), id);
        assert((a + b).drop_last() =~= a + b.drop_last());
        assert((a + b).last() == b.last());
        assert(ranked_of(a + b) =~= ranked_of(a) + ranked_of(b));
    }
}

/// A prediction is scored once, at the layer it is of, and is gone then; the
/// layer after gets what this one's hint says, and no other layer's changes.
pub proof fn a_prediction_is_scored_once(
    was: (Prediction, Seq<Option<Seq<Seq<u32>>>>),
    now: (Prediction, Seq<Option<Seq<Seq<u32>>>>),
    experts: u32,
    seat_of: Seq<Option<u32>>,
    at: usize,
    truth: Result<Vec<Vec<i32>>, Fault>,
    hint: Option<Result<Vec<Vec<i32>>, Fault>>,
)
    requires
        at < was.1.len(),
        predicts(was, now, experts, seat_of, at, truth, hint),
    ensures
        now.1.len() == was.1.len(),
        now.1[at as int] is None,
        forall|g: int| 0 <= g < was.1.len() && g != at && g != at + 1 ==> #[trigger] now.1[g] == was.1[g],
        at + 1 < was.1.len() ==> match hint {
            Some(Ok(rows)) if !(was.1[at as int] is Some && truth is Err) => {
                &&& now.1[at + 1] is Some
                &&& now.1[at + 1]->0.len() == rows@.len()
                &&& forall|r: int|
                    0 <= r < rows@.len() ==> #[trigger] now.1[at + 1]->0[r] == ranked_of(rows@[r]@)
            },
            _ => now.1[at + 1] == was.1[at + 1],
        },
        was.1[at as int] is None || truth is Err ==> now.0 == was.0,
        was.1[at as int] is Some && truth is Ok ==> counted(
            was.0,
            now.0,
            raws((truth->Ok_0)@),
            was.1[at as int]->0,
            experts,
            seat_of,
        ),
{
}

/// One entry more scores by itself alone: it is counted where its row was
/// predicted and it names an expert there is, missed where that expert sits
/// nowhere, covered where it is among the first six, eight, twelve or sixteen
/// predicted, and saved where it is both.
pub proof fn one_entry_more_scores_by_itself(
    before: Prediction,
    mid: Prediction,
    after: Prediction,
    rows: Seq<Seq<i32>>,
    row: Seq<i32>,
    id: i32,
    ranked: Seq<Seq<u32>>,
    experts: u32,
    seat_of: Seq<Option<u32>>,
    i: int,
)
    requires
        counted(before, mid, rows.push(row), ranked, experts, seat_of),
        counted(before, after, rows.push(row.push(id)), ranked, experts, seat_of),
        0 <= i < 4,
    ensures
        ({
            let counts = rows.len() < ranked.len() && 0 <= id < experts;
            let few = if i == 0 {
                6int
            } else if i == 1 {
                8
            } else if i == 2 {
                12
            } else {
                16
            };
            let said = ranked[rows.len() as int];
            let told = said.take(if said.len() < few { said.len() as int } else { few }).contains(id as u32);
            let missed = seat_of[id as int] is None;
            &&& after.total == mid.total + if counts { 1int } else { 0 }
            &&& after.misses == mid.misses + if counts && missed { 1int } else { 0 }
            &&& after.covered@[i] == mid.covered@[i] + if counts && told { 1int } else { 0 }
            &&& after.saved@[i] == mid.saved@[i] + if counts && told && missed { 1int } else { 0 }
        }),
{
    let all = |r: Seq<u32>, e: u32| true;
    let missed = |r: Seq<u32>, e: u32| !sits(seat_of, e);
    let covered = |r: Seq<u32>, e: u32| covers(r, prefix(i), e);
    let saved = |r: Seq<u32>, e: u32| covers(r, prefix(i), e) && !sits(seat_of, e);
    each_entry_is_scored_once(rows, row, id, ranked, experts, all);
    each_entry_is_scored_once(rows, row, id, ranked, experts, missed);
    each_entry_is_scored_once(rows, row, id, ranked, experts, covered);
    each_entry_is_scored_once(rows, row, id, ranked, experts, saved);
    if rows.len() < ranked.len() && 0 <= id < experts {
        a_prediction_covers_its_first_few(ranked[rows.len() as int], id as u32);
    }
    let less = rows.push(row);
    let more = rows.push(row.push(id));
    assert(mid.covered@[i] == before.covered@[i] + named_in(less, ranked, experts, covered));
    assert(after.covered@[i] == before.covered@[i] + named_in(more, ranked, experts, covered));
    assert(mid.saved@[i] == before.saved@[i] + named_in(less, ranked, experts, saved));
    assert(after.saved@[i] == before.saved@[i] + named_in(more, ranked, experts, saved));
}

} // verus!
