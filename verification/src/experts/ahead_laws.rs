//! What is read ahead, and when it is not.

use vstd::prelude::*;

use crate::experts::laws::a_victim_is_free_and_coldest;
use crate::experts::pool::Hold;
use crate::experts::seats::{lemma_pick, SeatsView};
use crate::experts::segment::{ahead, half_table, lemma_ahead, seat_table, wanted, wanted_in};

verus! {

/// A row names expert `x` among its first `k`.
pub open spec fn names_early(row: Seq<u32>, k: nat, x: u32) -> bool {
    exists|j: int| 0 <= j < row.len() && j < k && #[trigger] row[j] == x
}

/// Some row names expert `x` among its first `k`.
pub open spec fn some_row_names(rows: Seq<Seq<u32>>, k: nat, x: u32) -> bool {
    exists|r: int| 0 <= r < rows.len() && names_early(#[trigger] rows[r], k, x)
}

proof fn lemma_wanted_in(found: Seq<u32>, row: Seq<u32>, experts: u32, x: u32)
    ensures
        wanted_in(found, row, experts).contains(x) <==> found.contains(x) || (x < experts && row.contains(x)),
        found.no_duplicates() ==> wanted_in(found, row, experts).no_duplicates(),
        found.len() <= wanted_in(found, row, experts).len(),
        wanted_in(found, row, experts).take(found.len() as int) == found,
    decreases row.len(),
{
    let all = wanted_in(found, row, experts);
    if row.len() == 0 {
        assert(all.take(found.len() as int) =~= found);
    } else {
        let head = row.drop_last();
        lemma_wanted_in(found, head, experts, x);
        let so_far = wanted_in(found, head, experts);
        let last = row.last();
        assert(row[row.len() - 1] == last);
        if head.contains(x) {
            assert(row[head.index_of(x)] == x);
        }
        if row.contains(x) && x != last {
            let j = row.index_of(x);
            assert(head[j] == x);
        }
        if last < experts && !so_far.contains(last) {
            assert(all == so_far.push(last));
            assert(all[so_far.len() as int] == last);
            if so_far.contains(x) {
                assert(all[so_far.index_of(x)] == x);
            }
            if all.contains(x) && x != last {
                let j = all.index_of(x);
                assert(so_far[j] == x);
            }
        }
        assert(all.take(found.len() as int) =~= so_far.take(found.len() as int));
    }
}

proof fn lemma_wanted_rows(rows: Seq<Seq<u32>>, k: nat, experts: u32, x: u32)
    ensures
        wanted(rows, k, experts).contains(x) <==> x < experts && some_row_names(rows, k, x),
        wanted(rows, k, experts).no_duplicates(),
    decreases rows.len(),
{
    if rows.len() > 0 {
        let head = rows.drop_last();
        let last = rows.last();
        let n = if last.len() < k { last.len() as int } else { k as int };
        let row = last.take(n);
        lemma_wanted_rows(head, k, experts, x);
        lemma_wanted_in(wanted(head, k, experts), row, experts, x);
        let r = rows.len() - 1;
        assert(rows[r] == last);
        if row.contains(x) {
            let j = row.index_of(x);
            assert(last[j] == x);
            assert(names_early(rows[r], k, x));
        }
        if some_row_names(head, k, x) {
            let q = choose|q: int| 0 <= q < head.len() && names_early(#[trigger] head[q], k, x);
            assert(names_early(rows[q], k, x));
        }
        if some_row_names(rows, k, x) {
            let q = choose|q: int| 0 <= q < rows.len() && names_early(#[trigger] rows[q], k, x);
            if q < r {
                assert(names_early(head[q], k, x));
            } else {
                let j = choose|j: int| 0 <= j < last.len() && j < k && #[trigger] last[j] == x;
                assert(row[j] == x);
            }
        }
    }
}

/// The experts worth reading ahead are those any row names among its first
/// `k`, where there are such experts: none is left out, none is there
/// besides, and none twice.
pub proof fn every_row_says_what_is_wanted(rows: Seq<Seq<u32>>, k: nat, experts: u32)
    ensures
        forall|r: int, j: int|
            #![trigger rows[r][j]]
            0 <= r < rows.len() && 0 <= j < rows[r].len() && j < k && rows[r][j] < experts ==> wanted(
                rows,
                k,
                experts,
            ).contains(rows[r][j]),
        forall|i: int|
            0 <= i < wanted(rows, k, experts).len() ==> {
                let x = #[trigger] wanted(rows, k, experts)[i];
                &&& x < experts
                &&& exists|r: int, j: int|
                    #![trigger rows[r][j]]
                    0 <= r < rows.len() && 0 <= j < rows[r].len() && j < k && rows[r][j] == x
            },
        wanted(rows, k, experts).no_duplicates(),
{
    let want = wanted(rows, k, experts);
    lemma_wanted_rows(rows, k, experts, 0);
    assert forall|r: int, j: int|
        #![trigger rows[r][j]]
        0 <= r < rows.len() && 0 <= j < rows[r].len() && j < k && rows[r][j] < experts implies want.contains(
        rows[r][j],
    ) by {
        lemma_wanted_rows(rows, k, experts, rows[r][j]);
        assert(names_early(rows[r], k, rows[r][j]));
    }
    assert forall|i: int| 0 <= i < want.len() implies {
        let x = #[trigger] want[i];
        &&& x < experts
        &&& exists|r: int, j: int|
            #![trigger rows[r][j]]
            0 <= r < rows.len() && 0 <= j < rows[r].len() && j < k && rows[r][j] == x
    } by {
        let x = want[i];
        assert(want.contains(x));
        lemma_wanted_rows(rows, k, experts, x);
        let r = choose|r: int| 0 <= r < rows.len() && names_early(#[trigger] rows[r], k, x);
        let j = choose|j: int| 0 <= j < rows[r].len() && j < k && #[trigger] rows[r][j] == x;
        assert(rows[r][j] == x);
    }
}

/// What earlier rows want comes first, and of one row what it names first:
/// more rows, or more of a row, only add to the end.
pub proof fn what_is_named_first_is_wanted_first(
    rows: Seq<Seq<u32>>,
    row: Seq<u32>,
    k: nat,
    experts: u32,
)
    ensures
        wanted(rows, k, experts).is_prefix_of(wanted(rows.push(row), k, experts)),
        wanted(seq![row], k, experts).is_prefix_of(wanted(seq![row], k + 1, experts)),
{
    let n = if row.len() < k { row.len() as int } else { k as int };
    let m = if row.len() < k + 1 { row.len() as int } else { (k + 1) as int };
    assert(rows.push(row).drop_last() =~= rows);
    lemma_wanted_in(wanted(rows, k, experts), row.take(n), experts, 0);
    let none = Seq::<Seq<u32>>::empty();
    assert(seq![row].drop_last() =~= none);
    assert(wanted(none, k, experts) == Seq::<u32>::empty());
    assert(wanted(none, k + 1, experts) == Seq::<u32>::empty());
    let some = wanted_in(Seq::empty(), row.take(n), experts);
    if m > n {
        assert(row.take(m).drop_last() =~= row.take(n));
        assert(wanted_in(Seq::empty(), row.take(m), experts).take(some.len() as int) =~= some);
    } else {
        assert(some.take(some.len() as int) =~= some);
    }
}

/// Reading ahead: every expert wanted is one that sat in the pool or has a
/// seat to land in, as long as a seat could be taken, and it stops only
/// where every seat is held.
pub proof fn reading_ahead_stops_only_when_full(v: SeatsView, at: usize, all: Seq<u32>)
    requires
        v.inv(),
        at < v.seat_of.len(),
        forall|i: int| 0 <= i < all.len() ==> #[trigger] all[i] < v.seat_of[at as int].len(),
    ensures
        ({
            let a = ahead(v, at, all);
            &&& forall|i: int|
                0 <= i < all.len() ==> a.full || v.seat(at as int, #[trigger] all[i] as int) is Some
                    || exists|j: int|
                    0 <= j < a.landing.len() && (#[trigger] a.landing[j]).0 == at && a.landing[j].2 == all[i]
            &&& a.full ==> forall|s: int|
                0 <= s < a.seats.pool.holds.len() ==> #[trigger] a.seats.pool.holds[s] != Hold::Free
            &&& forall|j: int|
                0 <= j < a.landing.len() ==> all.contains((#[trigger] a.landing[j]).2)
            &&& (forall|i: int|
                0 <= i < all.len() ==> v.seat(at as int, #[trigger] all[i] as int) is Some)
                ==> a.landing.len() == 0 && !a.full && a.seats.seat_of == v.seat_of
            // nobody became resident
            &&& forall|g: int, e: int|
                v.names(g, e) ==> #[trigger] a.seats.seat(g, e) == v.seat(g, e) || a.seats.seat(
                    g,
                    e,
                ) is None
        }),
    decreases all.len(),
{
    if all.len() > 0 {
        let head = all.drop_last();
        let e = all.last();
        let n = all.len() - 1;
        assert(all[n] == e);
        assert forall|i: int| 0 <= i < head.len() implies #[trigger] head[i] < v.seat_of[at as int].len() by {
            assert(head[i] == all[i]);
        }
        reading_ahead_stops_only_when_full(v, at, head);
        lemma_ahead(v, at, head);
        let a = ahead(v, at, head);
        let b = ahead(v, at, all);
        lemma_pick(a.seats);
        a_victim_is_free_and_coldest(a.seats);
        assert(a.landing.len() <= b.landing.len());
        assert forall|j: int| 0 <= j < a.landing.len() implies #[trigger] b.landing[j] == a.landing[j] by {}
        assert forall|i: int| 0 <= i < all.len() implies b.full || v.seat(
            at as int,
            #[trigger] all[i] as int,
        ) is Some || exists|j: int|
            0 <= j < b.landing.len() && (#[trigger] b.landing[j]).0 == at && b.landing[j].2 == all[i] by {
            if i < n {
                assert(head[i] == all[i]);
                if !b.full && v.seat(at as int, all[i] as int) is None {
                    let j = choose|j: int|
                        0 <= j < a.landing.len() && (#[trigger] a.landing[j]).0 == at && a.landing[j].2
                            == head[i];
                    assert(b.landing[j] == a.landing[j]);
                }
            } else if !b.full && v.seat(at as int, e as int) is None {
                assert(v.names(at as int, e as int));
                assert(a.seats.seat(at as int, e as int) is None);
                assert(b.landing.last() == (at, a.seats.pool.pick()->0, e));
                assert(b.landing[b.landing.len() - 1].2 == all[i]);
            }
        }
        assert forall|j: int| 0 <= j < b.landing.len() implies all.contains((#[trigger] b.landing[j]).2) by {
            if j < a.landing.len() {
                assert(head.contains(a.landing[j].2));
                let i = head.index_of(a.landing[j].2);
                assert(all[i] == a.landing[j].2);
            }
        }
        if forall|i: int| 0 <= i < all.len() ==> v.seat(at as int, #[trigger] all[i] as int) is Some {
            assert forall|i: int| 0 <= i < head.len() implies v.seat(at as int, #[trigger] head[i] as int) is Some by {
                assert(head[i] == all[i]);
            }
            assert(v.seat(at as int, all[n] as int) is Some);
        }
        assert forall|g: int, x: int| v.names(g, x) implies #[trigger] b.seats.seat(g, x) == v.seat(g, x)
            || b.seats.seat(g, x) is None by {
            assert(a.seats.seat(g, x) == v.seat(g, x) || a.seats.seat(g, x) is None);
        }
    }
}

/// A seat table says, word by word, the seat each expert sits in; in a half
/// of the ring, the half's own.
pub proof fn a_table_says_each_seat(seat_of: Seq<Option<u32>>, experts: u32, half: Seq<u32>, e: int)
    requires
        0 <= e < experts,
    ensures
        seat_table(seat_of).len() == seat_of.len(),
        half_table(experts, half).len() == experts,
        e < seat_of.len() && seat_of[e] is Some ==> Some(seat_table(seat_of)[e]) == seat_of[e],
        e < half.len() ==> half_table(experts, half)[e] == half[e],
{
}

/// What is read ahead goes to seats nobody held, empty and held for the copy
/// till it has landed, each for one expert.
pub proof fn what_is_read_ahead_is_held_for_it(v: SeatsView, at: usize, all: Seq<u32>)
    requires
        v.inv(),
        at < v.seat_of.len(),
        forall|i: int| 0 <= i < all.len() ==> #[trigger] all[i] < v.seat_of[at as int].len(),
    ensures
        ({
            let a = ahead(v, at, all);
            &&& forall|j: int|
                0 <= j < a.landing.len() ==> {
                    let s = (#[trigger] a.landing[j]).1 as int;
                    &&& a.landing[j].0 == at
                    &&& s < v.pool.holds.len()
                    &&& v.pool.holds[s] == Hold::Free
                    &&& a.seats.pool.holds[s] == Hold::Inflight
                    &&& a.seats.pool.in_seat[s] is None
                }
            &&& forall|j: int, k: int|
                0 <= j < k < a.landing.len() ==> (#[trigger] a.landing[j]).1 != (#[trigger] a.landing[k]).1
        }),
{
    lemma_ahead(v, at, all);
}

/// One expert more is read ahead: one that sits is only made most recent,
/// one that does not takes the seat that goes next, which is most recent
/// then, and where none goes nothing changes.
pub proof fn one_more_is_read_ahead(v: SeatsView, at: usize, all: Seq<u32>, e: u32)
    requires
        !ahead(v, at, all).full,
    ensures
        ({
            let a = ahead(v, at, all);
            let b = ahead(v, at, all.push(e));
            match (a.seats.seat(at as int, e as int), a.seats.pool.pick()) {
                (Some(s), _) => {
                    &&& b.landing == a.landing && !b.full
                    &&& b.seats.pool.list.last() == s
                    &&& b.seats.pool.list.len() == a.seats.pool.bump(s).list.len()
                    &&& b.seats.pool.holds == a.seats.pool.holds
                    &&& b.seats.seat_of == a.seats.seat_of
                },
                (None, Some(s)) => {
                    &&& b.landing == a.landing.push((at, s, e)) && !b.full
                    &&& b.seats.pool.list.last() == s
                    &&& b.seats.pool.holds == a.seats.pool.holds.update(s as int, Hold::Inflight)
                },
                (None, None) => b.full && b.landing == a.landing && b.seats == a.seats,
            }
        }),
{
    assert(all.push(e).drop_last() =~= all);
}

} // verus!
