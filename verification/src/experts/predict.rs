//! Route predictions: how good the last one was, and the next one.

use vstd::prelude::*;

use crate::experts::tally::{Prediction, Tally};
use crate::experts::tier::{guess, ranks, Tier, TierView};
use crate::fault::Fault;

verus! {

/// How many predicted experts a row's coverage is counted over, one count
/// apiece.
pub const PREDICTION_PREFIXES: [usize; 4] = [6, 8, 12, 16];

/// The same, to reason with.
pub open spec fn prefix(i: int) -> int {
    if i == 0 {
        6
    } else if i == 1 {
        8
    } else if i == 2 {
        12
    } else {
        16
    }
}

/// How many ids of `row` name an expert of a group of `experts` that `what`
/// holds of.
pub open spec fn named(row: Seq<i32>, experts: u32, what: spec_fn(u32) -> bool) -> nat
    decreases row.len(),
{
    if row.len() == 0 {
        0
    } else {
        named(row.drop_last(), experts, what) + if 0 <= row.last() < experts && what(row.last() as u32) {
            1nat
        } else {
            0nat
        }
    }
}

/// The same over rows, each beside its prediction; a row without one counts
/// for nothing.
pub open spec fn named_in(
    rows: Seq<Seq<i32>>,
    ranked: Seq<Seq<u32>>,
    experts: u32,
    what: spec_fn(Seq<u32>, u32) -> bool,
) -> nat
    decreases rows.len(),
{
    if rows.len() == 0 {
        0
    } else {
        let n = rows.len() - 1;
        named_in(rows.drop_last(), ranked, experts, what) + if n < ranked.len() {
            named(rows[n], experts, |e: u32| what(ranked[n], e))
        } else {
            0nat
        }
    }
}

/// How many ids rows hold.
pub open spec fn cells(rows: Seq<Seq<i32>>) -> nat
    decreases rows.len(),
{
    if rows.len() == 0 {
        0
    } else {
        cells(rows.drop_last()) + rows.last().len()
    }
}

/// `expert` is among the first `k` of `ranked`.
pub open spec fn covers(ranked: Seq<u32>, k: int, expert: u32) -> bool {
    exists|j: int| 0 <= j < k && j < ranked.len() && #[trigger] ranked[j] == expert
}

pub open spec fn raws(rows: Seq<Vec<i32>>) -> Seq<Seq<i32>> {
    Seq::new(rows.len(), |r: int| rows[r]@)
}

/// The ids of a row that name something, in order.
pub open spec fn ranked_of(row: Seq<i32>) -> Seq<u32>
    decreases row.len(),
{
    if row.len() == 0 {
        Seq::empty()
    } else if row.last() >= 0 {
        ranked_of(row.drop_last()).push(row.last() as u32)
    } else {
        ranked_of(row.drop_last())
    }
}

pub open spec fn sits(seat_of: Seq<Option<u32>>, expert: u32) -> bool {
    seat_of[expert as int] is Some
}

/// `after` is `before` with these rows, these predictions and these seats
/// counted in.
pub open spec fn counted(
    before: Prediction,
    after: Prediction,
    rows: Seq<Seq<i32>>,
    ranked: Seq<Seq<u32>>,
    experts: u32,
    seat_of: Seq<Option<u32>>,
) -> bool {
    &&& after.prefetched == before.prefetched
    &&& after.total == before.total + named_in(rows, ranked, experts, |r: Seq<u32>, e: u32| true)
    &&& after.misses == before.misses + named_in(
        rows,
        ranked,
        experts,
        |r: Seq<u32>, e: u32| !sits(seat_of, e),
    )
    &&& forall|i: int|
        0 <= i < 4 ==> #[trigger] after.covered@[i] == before.covered@[i] + named_in(
            rows,
            ranked,
            experts,
            |r: Seq<u32>, e: u32| covers(r, prefix(i), e),
        )
    &&& forall|i: int|
        0 <= i < 4 ==> #[trigger] after.saved@[i] == before.saved@[i] + named_in(
            rows,
            ranked,
            experts,
            |r: Seq<u32>, e: u32| covers(r, prefix(i), e) && !sits(seat_of, e),
        )
}

impl Prediction {
    /// `n` more of everything still fits.
    pub open spec fn room(self, n: nat) -> bool {
        &&& self.total + n <= u64::MAX
        &&& self.misses + n <= u64::MAX
        &&& forall|i: int| 0 <= i < 4 ==> #[trigger] self.covered@[i] + n <= u64::MAX
        &&& forall|i: int| 0 <= i < 4 ==> #[trigger] self.saved@[i] + n <= u64::MAX
    }

    /// One id of a row whose prediction is `ranked`.
    pub fn note(&mut self, ranked: &Vec<u32>, expert: u32, seated: bool)
        requires
            old(self).room(1),
        ensures
            final(self).prefetched == old(self).prefetched,
            final(self).total == old(self).total + 1,
            final(self).misses == old(self).misses + if seated { 0int } else { 1int },
            forall|i: int|
                0 <= i < 4 ==> #[trigger] final(self).covered@[i] == old(self).covered@[i] + if covers(
                    ranked@,
                    prefix(i),
                    expert,
                ) { 1int } else { 0int },
            forall|i: int|
                0 <= i < 4 ==> #[trigger] final(self).saved@[i] == old(self).saved@[i] + if covers(
                    ranked@,
                    prefix(i),
                    expert,
                ) && !seated { 1int } else { 0int },
    {
        self.total = self.total + 1;
        if !seated {
            self.misses = self.misses + 1;
        }
        let mut i: usize = 0;
        while i < 4
            invariant
                i <= 4,
                old(self).room(1),
                self.prefetched == old(self).prefetched,
                self.total == old(self).total + 1,
                self.misses == old(self).misses + if seated { 0int } else { 1int },
                forall|j: int|
                    0 <= j < i ==> #[trigger] self.covered@[j] == old(self).covered@[j] + if covers(
                        ranked@,
                        prefix(j),
                        expert,
                    ) { 1int } else { 0int },
                forall|j: int|
                    0 <= j < i ==> #[trigger] self.saved@[j] == old(self).saved@[j] + if covers(
                        ranked@,
                        prefix(j),
                        expert,
                    ) && !seated { 1int } else { 0int },
                forall|j: int| i <= j < 4 ==> #[trigger] self.covered@[j] == old(self).covered@[j],
                forall|j: int| i <= j < 4 ==> #[trigger] self.saved@[j] == old(self).saved@[j],
            decreases 4 - i,
        {
            let k: usize = PREDICTION_PREFIXES[i];
            assert(k == prefix(i as int));
            let mut j: usize = 0;
            let mut found: bool = false;
            while j < k && j < ranked.len() && !found
                invariant
                    j <= k,
                    j <= ranked@.len(),
                    found ==> covers(ranked@, k as int, expert),
                    !found ==> forall|q: int| 0 <= q < j ==> ranked@[q] != expert,
                decreases ranked@.len() - j + if found { 0int } else { 1int },
            {
                if ranked[j] == expert {
                    found = true;
                    assert(ranked@[j as int] == expert);
                } else {
                    j += 1;
                }
            }
            assert(found == covers(ranked@, k as int, expert));
            if found {
                assert(self.covered@[i as int] == old(self).covered@[i as int]);
                self.covered[i] = self.covered[i] + 1;
                if !seated {
                    assert(self.saved@[i as int] == old(self).saved@[i as int]);
                    self.saved[i] = self.saved[i] + 1;
                }
            }
            i += 1;
        }
    }
}

/// Counting over rows, one row more.
proof fn lemma_named_in_step(
    rows: Seq<Seq<i32>>,
    ranked: Seq<Seq<u32>>,
    experts: u32,
    what: spec_fn(Seq<u32>, u32) -> bool,
    n: int,
)
    requires
        0 <= n < rows.len(),
        n < ranked.len(),
    ensures
        named_in(rows.take(n + 1), ranked, experts, what) == named_in(
            rows.take(n),
            ranked,
            experts,
            what,
        ) + named(rows[n], experts, |e: u32| what(ranked[n], e)),
{
    assert(rows.take(n + 1).drop_last() =~= rows.take(n));
}

/// Rows past the last prediction count for nothing.
proof fn lemma_named_in_tail(
    rows: Seq<Seq<i32>>,
    ranked: Seq<Seq<u32>>,
    experts: u32,
    what: spec_fn(Seq<u32>, u32) -> bool,
    n: int,
)
    requires
        0 <= n <= rows.len(),
        n == rows.len() || n == ranked.len(),
    ensures
        named_in(rows, ranked, experts, what) == named_in(rows.take(n), ranked, experts, what),
    decreases rows.len(),
{
    if n == rows.len() {
        assert(rows.take(n) =~= rows);
    } else {
        lemma_named_in_tail(rows.drop_last(), ranked, experts, what, n);
        assert(rows.drop_last().take(n) =~= rows.take(n));
    }
}

proof fn lemma_named_step(row: Seq<i32>, experts: u32, what: spec_fn(u32) -> bool, n: int)
    requires
        0 <= n < row.len(),
    ensures
        named(row.take(n + 1), experts, what) == named(row.take(n), experts, what) + if 0 <= row[n]
            < experts && what(row[n] as u32) { 1nat } else { 0nat },
{
    assert(row.take(n + 1).drop_last() =~= row.take(n));
}

proof fn lemma_cells(rows: Seq<Seq<i32>>, n: int)
    requires
        0 <= n < rows.len(),
    ensures
        cells(rows.take(n)) + rows[n].len() == cells(rows.take(n + 1)),
        cells(rows.take(n + 1)) <= cells(rows),
    decreases rows.len() - n,
{
    assert(rows.take(n + 1).drop_last() =~= rows.take(n));
    if n + 1 < rows.len() {
        lemma_cells(rows, n + 1);
    } else {
        assert(rows.take(n + 1) =~= rows);
    }
}

/// Count one row in.
fn count_row(
    note: &mut Prediction,
    row: &Vec<i32>,
    ranked: &Vec<u32>,
    experts: u32,
    seat_of: &Vec<Option<u32>>,
)
    requires
        old(note).room(row@.len()),
        seat_of@.len() == experts,
    ensures
        final(note).prefetched == old(note).prefetched,
        final(note).total == old(note).total + named(row@, experts, |e: u32| true),
        final(note).misses == old(note).misses + named(row@, experts, |e: u32| !sits(seat_of@, e)),
        forall|i: int|
            0 <= i < 4 ==> #[trigger] final(note).covered@[i] == old(note).covered@[i] + named(
                row@,
                experts,
                |e: u32| covers(ranked@, prefix(i), e),
            ),
        forall|i: int|
            0 <= i < 4 ==> #[trigger] final(note).saved@[i] == old(note).saved@[i] + named(
                row@,
                experts,
                |e: u32| covers(ranked@, prefix(i), e) && !sits(seat_of@, e),
            ),
        forall|left: nat| old(note).room(row@.len() + left) ==> #[trigger] final(note).room(left),
{
    let mut c: usize = 0;
    let ghost before = *note;
    proof {
        assert(row@.take(0) =~= Seq::<i32>::empty());
    }
    while c < row.len()
        invariant
            c <= row@.len(),
            before.room(row@.len()),
            seat_of@.len() == experts,
            note.prefetched == before.prefetched,
            note.total == before.total + named(row@.take(c as int), experts, |e: u32| true),
            note.misses == before.misses + named(
                row@.take(c as int),
                experts,
                |e: u32| !sits(seat_of@, e),
            ),
            forall|i: int|
                0 <= i < 4 ==> #[trigger] note.covered@[i] == before.covered@[i] + named(
                    row@.take(c as int),
                    experts,
                    |e: u32| covers(ranked@, prefix(i), e),
                ),
            forall|i: int|
                0 <= i < 4 ==> #[trigger] note.saved@[i] == before.saved@[i] + named(
                    row@.take(c as int),
                    experts,
                    |e: u32| covers(ranked@, prefix(i), e) && !sits(seat_of@, e),
                ),
            note.total <= before.total + c,
            note.misses <= before.misses + c,
            forall|i: int| 0 <= i < 4 ==> #[trigger] note.covered@[i] <= before.covered@[i] + c,
            forall|i: int| 0 <= i < 4 ==> #[trigger] note.saved@[i] <= before.saved@[i] + c,
        decreases row@.len() - c,
    {
        let id: i32 = row[c];
        proof {
            lemma_named_step(row@, experts, |e: u32| true, c as int);
            lemma_named_step(row@, experts, |e: u32| !sits(seat_of@, e), c as int);
            assert forall|i: int| 0 <= i < 4 implies named(
                row@.take(c + 1),
                experts,
                |e: u32| covers(ranked@, #[trigger] prefix(i), e),
            ) == named(row@.take(c as int), experts, |e: u32| covers(ranked@, prefix(i), e)) + if 0
                <= row@[c as int] < experts && covers(ranked@, prefix(i), row@[c as int] as u32) {
                1nat
            } else {
                0nat
            } by {
                lemma_named_step(row@, experts, |e: u32| covers(ranked@, prefix(i), e), c as int);
            }
            assert forall|i: int| 0 <= i < 4 implies named(
                row@.take(c + 1),
                experts,
                |e: u32| covers(ranked@, #[trigger] prefix(i), e) && !sits(seat_of@, e),
            ) == named(
                row@.take(c as int),
                experts,
                |e: u32| covers(ranked@, prefix(i), e) && !sits(seat_of@, e),
            ) + if 0 <= row@[c as int] < experts && covers(
                ranked@,
                prefix(i),
                row@[c as int] as u32,
            ) && !sits(seat_of@, row@[c as int] as u32) {
                1nat
            } else {
                0nat
            } by {
                lemma_named_step(
                    row@,
                    experts,
                    |e: u32| covers(ranked@, prefix(i), e) && !sits(seat_of@, e),
                    c as int,
                );
            }
        }
        c += 1;
        if id < 0 {
            continue ;
        }
        let expert: u32 = id as u32;
        if expert >= experts {
            continue ;
        }
        let seated: bool = seat_of[expert as usize].is_some();
        assert(seated == sits(seat_of@, expert));
        note.note(ranked, expert, seated);
    }
    assert(row@.take(row@.len() as int) =~= row@);
    assert forall|left: nat| before.room(row@.len() + left) implies #[trigger] note.room(left) by {
        assert forall|i: int| 0 <= i < 4 implies #[trigger] note.covered@[i] + left <= u64::MAX by {
            assert(before.covered@[i] + (row@.len() + left) <= u64::MAX);
        }
        assert forall|i: int| 0 <= i < 4 implies #[trigger] note.saved@[i] + left <= u64::MAX by {
            assert(before.saved@[i] + (row@.len() + left) <= u64::MAX);
        }
    }
}

/// What a prediction reads of a raw row.
pub fn ranks_of(row: &Vec<i32>) -> (ranked: Vec<u32>)
    ensures
        ranked@ == ranked_of(row@),
{
    let mut ranked: Vec<u32> = Vec::new();
    let mut c: usize = 0;
    assert(row@.take(0) =~= Seq::<i32>::empty());
    while c < row.len()
        invariant
            c <= row@.len(),
            ranked@ == ranked_of(row@.take(c as int)),
        decreases row@.len() - c,
    {
        assert(row@.take(c + 1).drop_last() =~= row@.take(c as int));
        let id: i32 = row[c];
        if id >= 0 {
            ranked.push(id as u32);
        }
        c += 1;
    }
    assert(row@.take(row@.len() as int) =~= row@);
    ranked
}

/// Every group's prediction.
pub open spec fn guesses(predicted: Seq<Option<Vec<Vec<u32>>>>) -> Seq<Option<Seq<Seq<u32>>>> {
    Seq::new(predicted.len(), |g: int| guess(predicted[g]))
}

/// The reading a prediction wants and cannot have: what a router named,
/// where that was predicted, or what is predicted of the next group.
pub open spec fn unread(
    predicted: Seq<Option<Seq<Seq<u32>>>>,
    at: usize,
    truth: Result<Vec<Vec<i32>>, Fault>,
    hint: Option<Result<Vec<Vec<i32>>, Fault>>,
) -> Option<Fault> {
    if predicted[at as int] is Some && truth is Err {
        Some(truth->Err_0)
    } else if hint matches Some(Err(why)) && at + 1 < predicted.len() {
        Some((hint->0)->Err_0)
    } else {
        None
    }
}

/// What a cut makes of the predictions: the group's own is spent, and
/// counted against what the router named; the next group's is taken down.
pub open spec fn predicts(
    was: (Prediction, Seq<Option<Seq<Seq<u32>>>>),
    now: (Prediction, Seq<Option<Seq<Seq<u32>>>>),
    experts: u32,
    seat_of: Seq<Option<u32>>,
    at: usize,
    truth: Result<Vec<Vec<i32>>, Fault>,
    hint: Option<Result<Vec<Vec<i32>>, Fault>>,
) -> bool {
    let spent = was.1.update(at as int, None);
    &&& match (was.1[at as int], truth) {
        (Some(ranked), Ok(rows)) => counted(was.0, now.0, raws(rows@), ranked, experts, seat_of),
        _ => now.0 == was.0,
    }
    &&& match (unread(was.1, at, truth, hint), hint) {
        (None, Some(Ok(rows))) if at + 1 < spent.len() => now.1 == spent.update(
            at + 1,
            Some(Seq::new(rows@.len(), |r: int| ranked_of(rows@[r]@))),
        ),
        _ => now.1 == spent,
    }
}

/// How good the prediction for group `at` was against the routes `truth` it
/// turned out to take, and, where the router says one (`hint`), the
/// prediction for the group after it. A routing vector that could not be
/// read is passed on, its prediction spent.
pub fn predict(
    predicted: &mut Vec<Option<Vec<Vec<u32>>>>,
    note: &mut Prediction,
    at: usize,
    experts: u32,
    seat_of: &Vec<Option<u32>>,
    truth: Result<Vec<Vec<i32>>, Fault>,
    hint: Option<Result<Vec<Vec<i32>>, Fault>>,
) -> (done: Result<(), Fault>)
    requires
        at < old(predicted)@.len(),
        seat_of@.len() == experts,
        truth matches Ok(rows) ==> old(note).room(cells(raws(rows@))),
    ensures
        final(predicted)@.len() == old(predicted)@.len(),
        predicts(
            (*old(note), guesses(old(predicted)@)),
            (*final(note), guesses(final(predicted)@)),
            experts,
            seat_of@,
            at,
            truth,
            hint,
        ),
        match unread(guesses(old(predicted)@), at, truth, hint) {
            Some(fault) => done == Err::<(), Fault>(fault),
            None => done is Ok,
        },
{
    let ghost spent = guesses(predicted@).update(at as int, None);
    let was: Option<Vec<Vec<u32>>> = predicted[at].take();
    assert(guesses(predicted@) =~= spent);
    if let Some(ranked) = was {
        let rows: Vec<Vec<i32>> = match truth {
            Ok(rows) => rows,
            Err(why) => {
                return Err(why);
            },
        };
        let ghost all = raws(rows@);
        let ghost said = ranks(ranked@);
                    let ghost sat = seat_of@;
        let ghost before_all = *note;
                    let mut r: usize = 0;
        assert(all.take(0) =~= Seq::<Seq<i32>>::empty());
        while r < rows.len() && r < ranked.len()
            invariant
                r <= rows@.len(),
                r <= ranked@.len(),
                all == raws(rows@),
                said == ranks(ranked@),
                sat == seat_of@,
                sat.len() == experts,
                before_all.room(cells(all)),
                note.room((cells(all) - cells(all.take(r as int))) as nat),
                cells(all.take(r as int)) <= cells(all),
                counted(
                    before_all,
                    *note,
                    all.take(r as int),
                    said,
                    experts,
                    sat,
                ),
            decreases rows@.len() - r,
        {
            let ghost before = *note;
            proof {
                lemma_cells(all, r as int);
                assert(all[r as int] == rows@[r as int]@);
                assert(said[r as int] == ranked@[r as int]@);
                let left = (cells(all) - cells(all.take(r + 1))) as nat;
                assert(before.room(rows@[r as int]@.len() + left));
                assert(before.room(rows@[r as int]@.len()));
            }
            count_row(note, &rows[r], &ranked[r], experts, seat_of);
            proof {
                let left = (cells(all) - cells(all.take(r + 1))) as nat;
                assert(note.room(left));
                let row = all[r as int];
                let guess = said[r as int];
                lemma_named_in_step(all, said, experts, |q: Seq<u32>, e: u32| true, r as int);
                assert((|e: u32| (|q: Seq<u32>, e: u32| true)(guess, e)) =~= (|e: u32| true));
                lemma_named_in_step(
                    all,
                    said,
                    experts,
                    |q: Seq<u32>, e: u32| !sits(sat, e),
                    r as int,
                );
                assert((|e: u32| (|q: Seq<u32>, e: u32| !sits(sat, e))(guess, e)) =~= (|e: u32|
                    !sits(sat, e)));
                assert forall|i: int| 0 <= i < 4 implies #[trigger] note.covered@[i] == before_all.covered@[i] + named_in(
                    all.take(r + 1),
                    said,
                    experts,
                    |q: Seq<u32>, e: u32| covers(q, prefix(i), e),
                ) by {
                    let what = |q: Seq<u32>, e: u32| covers(q, prefix(i), e);
                    lemma_named_in_step(all, said, experts, what, r as int);
                    assert((|e: u32| what(guess, e)) =~= (|e: u32| covers(guess, prefix(i), e)));
                    assert(before.covered@[i] == before_all.covered@[i] + named_in(
                        all.take(r as int),
                        said,
                        experts,
                        what,
                    ));
                }
                assert forall|i: int| 0 <= i < 4 implies #[trigger] note.saved@[i] == before_all.saved@[i] + named_in(
                    all.take(r + 1),
                    said,
                    experts,
                    |q: Seq<u32>, e: u32| covers(q, prefix(i), e) && !sits(sat, e),
                ) by {
                    let what = |q: Seq<u32>, e: u32| covers(q, prefix(i), e) && !sits(sat, e);
                    lemma_named_in_step(all, said, experts, what, r as int);
                    assert((|e: u32| what(guess, e)) =~= (|e: u32|
                        covers(guess, prefix(i), e) && !sits(sat, e)));
                    assert(before.saved@[i] == before_all.saved@[i] + named_in(
                        all.take(r as int),
                        said,
                        experts,
                        what,
                    ));
                }
            }
            r += 1;
        }
        proof {
            let n = r as int;
            lemma_named_in_tail(all, said, experts, |q: Seq<u32>, e: u32| true, n);
            lemma_named_in_tail(all, said, experts, |q: Seq<u32>, e: u32| !sits(sat, e), n);
            assert forall|i: int| 0 <= i < 4 implies #[trigger] note.covered@[i] == before_all.covered@[i] + named_in(
                all,
                said,
                experts,
                |q: Seq<u32>, e: u32| covers(q, prefix(i), e),
            ) by {
                lemma_named_in_tail(
                    all,
                    said,
                    experts,
                    |q: Seq<u32>, e: u32| covers(q, prefix(i), e),
                    n,
                );
            }
            assert forall|i: int| 0 <= i < 4 implies #[trigger] note.saved@[i] == before_all.saved@[i] + named_in(
                all,
                said,
                experts,
                |q: Seq<u32>, e: u32| covers(q, prefix(i), e) && !sits(sat, e),
            ) by {
                lemma_named_in_tail(
                    all,
                    said,
                    experts,
                    |q: Seq<u32>, e: u32| covers(q, prefix(i), e) && !sits(sat, e),
                    n,
                );
            }
        }
    }
    assert(guesses(predicted@) =~= spent);
    let n: usize = predicted.len();
    if at + 1 < n {
        if let Some(hint) = hint {
            let rows: Vec<Vec<i32>> = match hint {
                Ok(rows) => rows,
                Err(why) => {
                    return Err(why);
                },
            };
            let ghost next = Seq::new(rows@.len(), |r: int| ranked_of(rows@[r]@));
            let mut ranked: Vec<Vec<u32>> = Vec::new();
            let mut r: usize = 0;
            while r < rows.len()
                invariant
                    r <= rows@.len(),
                    ranked@.len() == r,
                    forall|j: int| 0 <= j < r ==> (#[trigger] ranked@[j])@ == ranked_of(rows@[j]@),
                decreases rows@.len() - r,
            {
                ranked.push(ranks_of(&rows[r]));
                r += 1;
            }
            assert(ranks(ranked@) =~= next);
            predicted.set(at + 1, Some(ranked));
            assert(guesses(predicted@) =~= spent.update(at + 1, Some(next)));
        }
    }
    Ok(())
}

impl Tier {
    /// How good the prediction for group `at` was, and the prediction for
    /// the group after it.
    pub fn predict(
        &mut self,
        at: usize,
        truth: Result<Vec<Vec<i32>>, Fault>,
        hint: Option<Result<Vec<Vec<i32>>, Fault>>,
    ) -> (done: Result<(), Fault>)
        requires
            old(self).wf(),
            at < old(self).seats.groups@.len(),
            truth matches Ok(rows) ==> old(self).tally.prediction.room(cells(raws(rows@))),
        ensures
            final(self).wf(),
            final(self).beside(old(self)),
            final(self)@ == (TierView {
                tally: final(self).tally,
                predicted: final(self)@.predicted,
                ..old(self)@
            }),
            final(self).tally == (Tally {
                prediction: final(self).tally.prediction,
                ..old(self).tally
            }),
            predicts(
                (old(self).tally.prediction, old(self)@.predicted),
                (final(self).tally.prediction, final(self)@.predicted),
                old(self).seats.groups@[at as int].experts,
                old(self).seats.groups@[at as int].seat_of@,
                at,
                truth,
                hint,
            ),
            match unread(old(self)@.predicted, at, truth, hint) {
                Some(fault) => done == Err::<(), Fault>(fault),
                None => done is Ok,
            },
    {
        let group = &self.seats.groups[at];
        let done = predict(
            &mut self.predicted,
            &mut self.tally.prediction,
            at,
            group.experts,
            &group.seat_of,
            truth,
            hint,
        );
        assert(old(self)@.predicted =~= guesses(old(self).predicted@));
        assert(self@.predicted =~= guesses(self.predicted@));
        assert(self@.ring == old(self)@.ring);
        done
    }
}

} // verus!
