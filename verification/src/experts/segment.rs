//! One cut of a decode fire: the segment's own seats, the table that says
//! where they are, and what is read ahead for the next.

use vstd::prelude::*;

use crate::experts::ahead_laws::every_row_says_what_is_wanted;
use crate::experts::deciding::{
    bytes_moved, decided, deciding_seats_every_expert, jobs_for, Job, Landing,
};
use crate::experts::landing::{moved_bytes, stripped};
use crate::experts::pool::{lemma_bump, Hold};
use crate::experts::seats::{
    lemma_pick, lemma_release, lemma_take, lemma_touch, SeatsView,
};
use crate::experts::tally::{Prediction, Tally};
use crate::experts::tier::{
    assigned, guess, in_the_air, keeps_held, lemma_assigned, lemma_assigned_resident,
    lemma_decided_in_the_air, lemma_keeps_held, lends_no_more, ranks, spans_fit, Seating, Tier, TierView,
};
use crate::fault::Fault;
use crate::ids::{laid, push_word};
use crate::trace::ValueId;

verus! {

/// Where a group's experts sit, one word apiece: an expert that sits nowhere
/// is written as seat zero, and never read.
pub open spec fn seat_table(seat_of: Seq<Option<u32>>) -> Seq<u32> {
    Seq::new(
        seat_of.len(),
        |e: int|
            match seat_of[e] {
                Some(seat) => seat,
                None => 0,
            },
    )
}

/// Where a ring half's experts sit: one borrowed seat apiece.
pub open spec fn half_table(experts: u32, half: Seq<u32>) -> Seq<u32> {
    Seq::new(experts as nat, |e: int| if e < half.len() { half[e] } else { 0 })
}

/// The experts worth reading ahead: of every row the first `k`, each once,
/// in the order they are first named.
pub open spec fn wanted(rows: Seq<Seq<u32>>, k: nat, experts: u32) -> Seq<u32>
    decreases rows.len(),
{
    if rows.len() == 0 {
        Seq::empty()
    } else {
        wanted_in(
            wanted(rows.drop_last(), k, experts),
            rows.last().take(if rows.last().len() < k { rows.last().len() as int } else { k as int }),
            experts,
        )
    }
}

/// `found`, and after it what `row` adds.
pub open spec fn wanted_in(found: Seq<u32>, row: Seq<u32>, experts: u32) -> Seq<u32>
    decreases row.len(),
{
    if row.len() == 0 {
        found
    } else {
        let so_far = wanted_in(found, row.drop_last(), experts);
        if row.last() < experts && !so_far.contains(row.last()) {
            so_far.push(row.last())
        } else {
            so_far
        }
    }
}

/// Reading ahead, part of the way.
pub struct Ahead {
    pub seats: SeatsView,
    pub landing: Seq<Landing>,
    /// No seat was left: nothing more is read ahead.
    pub full: bool,
}

impl Ahead {
    pub open spec fn step(self, at: usize, expert: u32) -> Ahead {
        if self.full {
            self
        } else {
            match self.seats.seat(at as int, expert as int) {
                Some(seat) => Ahead {
                    seats: self.seats.with_pool(self.seats.pool.bump(seat)),
                    ..self
                },
                None => match self.seats.pool.pick() {
                    None => Ahead { full: true, ..self },
                    Some(seat) => {
                        let seats = self.seats.take();
                        Ahead {
                            seats: seats.with_pool(seats.pool.hold(seat, Hold::Inflight)),
                            landing: self.landing.push((at, seat, expert)),
                            ..self
                        }
                    },
                },
            }
        }
    }
}

/// What reading these experts ahead takes: a seat for each that sits
/// nowhere, as long as seats can be taken.
pub open spec fn ahead(seats: SeatsView, at: usize, experts: Seq<u32>) -> Ahead
    decreases experts.len(),
{
    if experts.len() == 0 {
        Ahead { seats, landing: Seq::empty(), full: false }
    } else {
        ahead(seats, at, experts.drop_last()).step(at, experts.last())
    }
}

/// Reading ahead takes seats around those held, and each for one expert.
pub proof fn lemma_ahead(v: SeatsView, at: usize, all: Seq<u32>)
    requires
        v.inv(),
        at < v.seat_of.len(),
        forall|i: int| 0 <= i < all.len() ==> #[trigger] all[i] < v.seat_of[at as int].len(),
    ensures
        ({
            let a = ahead(v, at, all);
            &&& a.seats.inv()
            &&& keeps_held(v, a.seats)
            &&& lends_no_more(v, a.seats)
            &&& a.seats.ever == v.ever
            &&& a.seats.distinct == v.distinct
            &&& in_the_air(a.seats, a.landing, Hold::Inflight)
            &&& a.landing.len() <= all.len()
            &&& forall|i: int|
                0 <= i < a.landing.len() ==> (#[trigger] a.landing[i]).0 == at && v.pool.holds[a.landing[i].1 as int] == Hold::Free
        }),
    decreases all.len(),
{
    if all.len() > 0 {
        let head = all.drop_last();
        let e = all.last();
        assert(all[all.len() - 1] == e);
        assert forall|i: int| 0 <= i < head.len() implies #[trigger] head[i] < v.seat_of[at as int].len() by {
            assert(head[i] == all[i]);
        }
        lemma_ahead(v, at, head);
        let a = ahead(v, at, head);
        let b = ahead(v, at, all);
        assert(a.seats.seat_of[at as int].len() == v.seat_of[at as int].len());
        assert(a.seats.names(at as int, e as int));
        if !a.full {
            match a.seats.seat(at as int, e as int) {
                Some(s) => {
                    assert(a.seats.pool.in_seat[s as int] is Some);
                    assert(!a.seats.pool.free.contains(s));
                    assert(a.seats.pool.list.contains(s));
                    lemma_touch(a.seats, s, Hold::Free);
                    lemma_bump(a.seats.pool.list, s);
                    assert(keeps_held(a.seats, b.seats));
                },
                None => {
                    lemma_pick(a.seats);
                    if let Some(s) = a.seats.pool.pick() {
                        lemma_take(a.seats);
                        let mid = a.seats.take();
                        lemma_bump(a.seats.pool.list, s);
                        assert(mid.pool.list.contains(s));
                        lemma_touch(mid, s, Hold::Inflight);
                        assert(keeps_held(a.seats, b.seats));
                        lemma_keeps_held(a.seats, b.seats, a.landing, Seq::empty());
                        assert(v.pool.holds[s as int] == Hold::Free) by {
                            if v.pool.holds[s as int] != Hold::Free {
                                lemma_ahead_holds(v, at, head, s);
                            }
                        }
                        assert forall|i: int| 0 <= i < b.landing.len() implies {
                            let (g, t, x) = #[trigger] b.landing[i];
                            &&& b.seats.names(g as int, x as int)
                            &&& t < b.seats.pool.holds.len()
                            &&& b.seats.pool.holds[t as int] == Hold::Inflight
                            &&& b.seats.pool.in_seat[t as int] is None
                        } by {
                            if i < a.landing.len() {
                                assert(b.landing[i] == a.landing[i]);
                            }
                        }
                        assert forall|i: int, j: int| 0 <= i < j < b.landing.len() implies (#[trigger] b.landing[i]).1
                            != (#[trigger] b.landing[j]).1 by {
                            assert(b.landing[i] == a.landing[i]);
                            if j < a.landing.len() {
                                assert(b.landing[j] == a.landing[j]);
                            }
                        }
                    }
                },
            }
            lemma_keeps_held(a.seats, b.seats, a.landing, Seq::empty());
            assert forall|i: int| 0 <= i < b.landing.len() implies (#[trigger] b.landing[i]).0 == at
                && v.pool.holds[b.landing[i].1 as int] == Hold::Free by {
                if i < a.landing.len() {
                    assert(b.landing[i] == a.landing[i]);
                }
            }
        }
    }
}

/// A seat that was held before reading ahead is still held after.
proof fn lemma_ahead_holds(v: SeatsView, at: usize, all: Seq<u32>, s: u32)
    requires
        v.inv(),
        at < v.seat_of.len(),
        forall|i: int| 0 <= i < all.len() ==> #[trigger] all[i] < v.seat_of[at as int].len(),
        s < v.pool.holds.len(),
        v.pool.holds[s as int] != Hold::Free,
    ensures
        ahead(v, at, all).seats.pool.holds[s as int] == v.pool.holds[s as int],
    decreases all.len(),
{
    if all.len() > 0 {
        let head = all.drop_last();
        assert forall|i: int| 0 <= i < head.len() implies #[trigger] head[i] < v.seat_of[at as int].len() by {
            assert(head[i] == all[i]);
        }
        lemma_ahead_holds(v, at, head, s);
        lemma_ahead_inv(v, at, head);
        lemma_pick(ahead(v, at, head).seats);
    }
}

proof fn lemma_ahead_inv(v: SeatsView, at: usize, all: Seq<u32>)
    requires
        v.inv(),
        at < v.seat_of.len(),
        forall|i: int| 0 <= i < all.len() ==> #[trigger] all[i] < v.seat_of[at as int].len(),
    ensures
        ahead(v, at, all).seats.inv(),
        ahead(v, at, all).seats.seat_of.len() == v.seat_of.len(),
        ahead(v, at, all).seats.seat_of[at as int].len() == v.seat_of[at as int].len(),
        ahead(v, at, all).seats.pool.holds.len() == v.pool.holds.len(),
    decreases all.len(),
{
    if all.len() > 0 {
        let head = all.drop_last();
        let e = all.last();
        assert(all[all.len() - 1] == e);
        assert forall|i: int| 0 <= i < head.len() implies #[trigger] head[i] < v.seat_of[at as int].len() by {
            assert(head[i] == all[i]);
        }
        lemma_ahead_inv(v, at, head);
        let a = ahead(v, at, head);
        assert(a.seats.names(at as int, e as int));
        if !a.full {
            match a.seats.seat(at as int, e as int) {
                Some(s) => {
                    assert(a.seats.pool.in_seat[s as int] is Some);
                    assert(!a.seats.pool.free.contains(s));
                    assert(a.seats.pool.list.contains(s));
                    lemma_touch(a.seats, s, Hold::Free);
                },
                None => {
                    lemma_pick(a.seats);
                    if let Some(s) = a.seats.pool.pick() {
                        lemma_take(a.seats);
                        let mid = a.seats.take();
                        lemma_bump(a.seats.pool.list, s);
                        assert(mid.pool.list.contains(s));
                        lemma_touch(mid, s, Hold::Inflight);
                    }
                },
            }
        }
    }
}

impl Tier {
    /// The group a routing vector belongs to; none, when this load does not
    /// stream it.
    pub fn group_of(&self, routes: ValueId) -> (at: Option<usize>)
        ensures
            at == if self.terms.of_routes@.contains_key(routes.0) {
                Some(self.terms.of_routes@[routes.0])
            } else {
                None
            },
    {
        match self.terms.of_routes.get(&routes.0) {
            Some(at) => Some(*at),
            None => None,
        }
    }

    /// The value a routing vector's prediction is read from.
    pub fn hint_for(&self, routes: ValueId) -> (hint: Option<ValueId>)
        ensures
            hint == if self.terms.hint_of@.contains_key(routes.0) {
                Some(self.terms.hint_of@[routes.0])
            } else {
                None
            },
    {
        match self.terms.hint_of.get(&routes.0) {
            Some(hint) => Some(*hint),
            None => None,
        }
    }

    /// A segment is cut: the read in flight, which ended as `landed` says,
    /// is taken. The cut waited for the previous segment's matmuls, so
    /// nothing on the device reads those seats any more and they are let go.
    pub fn segment_at(&mut self, landed: Result<(), Fault>) -> (done: Result<(), Fault>)
        requires
            old(self).wf(),
            old(self).tally.segments < u64::MAX,
        ensures
            final(self).wf(),
            final(self).beside(old(self)),
            done == if old(self).inflight { landed } else { Ok(()) },
            final(self)@ == if done is Ok {
                old(self)@.joined(landed is Ok).cut()
            } else {
                old(self)@.joined(landed is Ok)
            },
    {
        self.join_inflight(landed)?;
        let ghost v = self.seats@;
        let ghost mid = *self;
        self.seats.pool.release(Hold::Segment);
        self.tally.segments = self.tally.segments + 1;
        proof {
            assert(self.seats@ =~= v.with_pool(v.pool.release(Hold::Segment)));
            lemma_release(v, Hold::Segment);
            assert(keeps_held(v, self.seats@));
            assert(lends_no_more(v, self.seats@));
            let lent = match mid@.ring {
                Some(ring) => ring.seats,
                None => Seq::empty(),
            };
            lemma_keeps_held(v, self.seats@, self.landing@, lent);
            assert(self@.ring == mid@.ring);
        }
        Ok(())
    }

    /// Where group `at`'s seat table goes and what it says, so the matmuls
    /// that follow this cut read the seats the tier landed their experts in.
    /// `seat_of` answers for a pool segment; a ring segment reads the half
    /// it was filled into, one borrowed seat per expert.
    pub fn say_seats(&self, at: usize, half: Option<&[u32]>) -> (table: (u64, Vec<u8>))
        requires
            self.wf(),
            at < self.seats.groups@.len(),
            self.terms.tables.0 + at * self.terms.tables.1 <= u64::MAX,
        ensures
            table.0 == self.terms.tables.0 + at * self.terms.tables.1,
            table.1@ == laid(
                match half {
                    Some(half) => half_table(self.seats.groups@[at as int].experts, half@),
                    None => seat_table(self.seats.groups@[at as int].seat_of@),
                },
            ),
    {
        let group = &self.seats.groups[at];
        let ghost words = match half {
            Some(half) => half_table(group.experts, half@),
            None => seat_table(group.seat_of@),
        };
        let mut table: Vec<u8> = Vec::new();
        let mut e: u32 = 0;
        assert(words.take(0) =~= Seq::<u32>::empty());
        while e < group.experts
            invariant
                group.wf(),
                e <= group.experts,
                words == (match half {
                    Some(half) => half_table(group.experts, half@),
                    None => seat_table(group.seat_of@),
                }),
                table@ == laid(words.take(e as int)),
            decreases group.experts - e,
        {
            let seat: u32 = match half {
                Some(half) => if (e as usize) < half.len() {
                    half[e as usize]
                } else {
                    0
                },
                None => match group.seat_of[e as usize] {
                    Some(seat) => seat,
                    None => 0,
                },
            };
            assert(words.take(e + 1).drop_last() =~= words.take(e as int));
            assert(words.take(e + 1).last() == seat);
            push_word(&mut table, seat);
            e += 1;
        }
        assert(words.take(group.experts as int) =~= words);
        assert(0 <= at * self.terms.tables.1 <= u64::MAX) by (nonlinear_arith)
            requires
                self.terms.tables.0 + at * self.terms.tables.1 <= u64::MAX,
                at >= 0,
                self.terms.tables.1 >= 0,
                self.terms.tables.0 >= 0,
        ;
        (self.terms.tables.0 + at as u64 * self.terms.tables.1, table)
    }

    /// Which experts of group `at` to read ahead, and into which seats. The
    /// segment that just ran holds the seats the device is about to read, so
    /// this takes seats around them. Each is held until its copy lands: it
    /// is not resident yet, and the cut that joins the copy is what makes it
    /// so.
    pub fn prefetch(&mut self, at: usize, rows: &Vec<Vec<u32>>) -> (seating: Seating)
        requires
            old(self).wf(),
            at < old(self).seats.groups@.len(),
            spans_fit(old(self).seats.groups@[at as int], old(self).seats.pool.slots),
            old(self).tally.prediction.prefetched + wanted(
                ranks(rows@),
                old(self).terms.prefetch_k as nat,
                old(self).seats.groups@[at as int].experts,
            ).len() <= u64::MAX,
        ensures
            final(self).wf(),
            final(self).beside(old(self)),
            in_the_air(final(self)@.seats, seating.landing@, Hold::Inflight),
            !old(self).terms.filed ==> final(self)@ == old(self)@ && seating.jobs@.len() == 0
                && seating.landing@.len() == 0,
            old(self).terms.filed ==> {
                let a = ahead(
                    old(self)@.seats,
                    at,
                    wanted(
                        ranks(rows@),
                        old(self).terms.prefetch_k as nat,
                        old(self).seats.groups@[at as int].experts,
                    ),
                );
                &&& seating.landing@ == a.landing
                &&& seating.jobs@ == jobs_for(old(self).seats.groups@[at as int].bands@, a.landing)
                &&& final(self)@ == old(self)@.went_ahead(a)
            },
    {
        if !self.terms.filed {
            return Seating { jobs: Vec::new(), landing: Vec::new() };
        }
        let experts: u32 = self.seats.groups[at].experts;
        let want: Vec<u32> = wanted_experts(rows, self.terms.prefetch_k, experts);
        proof {
            lemma_wanted(ranks(rows@), self.terms.prefetch_k as nat, experts);
        }
        self.go_ahead(at, &want)
    }

    /// Read ahead for the group after `at`, its segment seated, if this load
    /// does and a prediction says which experts.
    pub fn prefetch_after(&mut self, at: usize) -> (seating: Seating)
        requires
            old(self).wf(),
            at < old(self).seats.groups@.len(),
            at + 1 < old(self).seats.groups@.len() ==> {
                &&& spans_fit(old(self).seats.groups@[at + 1], old(self).seats.pool.slots)
                &&& old(self)@.predicted[at + 1] matches Some(rows) ==> old(self).tally.prediction.prefetched + wanted(
                    rows,
                    old(self).terms.prefetch_k as nat,
                    old(self).seats.groups@[at + 1].experts,
                ).len() <= u64::MAX
            },
        ensures
            final(self).wf(),
            final(self).beside(old(self)),
            in_the_air(final(self)@.seats, seating.landing@, Hold::Inflight),
            if old(self).terms.prefetch && old(self).terms.filed && at + 1
                < old(self).seats.groups@.len() && old(self)@.predicted[at + 1] is Some {
                let a = ahead(
                    old(self)@.seats,
                    (at + 1) as usize,
                    wanted(
                        old(self)@.predicted[at + 1]->0,
                        old(self).terms.prefetch_k as nat,
                        old(self).seats.groups@[at + 1].experts,
                    ),
                );
                &&& seating.landing@ == a.landing
                &&& seating.jobs@ == jobs_for(old(self).seats.groups@[at + 1].bands@, a.landing)
                &&& final(self)@ == old(self)@.went_ahead(a)
            } else {
                seating.jobs@.len() == 0 && seating.landing@.len() == 0 && final(self)@ == old(self)@
            },
    {
        let n: usize = self.predicted.len();
        if !self.terms.prefetch || !self.terms.filed || at + 1 >= n {
            return Seating { jobs: Vec::new(), landing: Vec::new() };
        }
        let experts: u32 = self.seats.groups[at + 1].experts;
        let k: usize = self.terms.prefetch_k;
        assert(self@.predicted[at + 1] == guess(self.predicted@[at + 1]));
        let want: Vec<u32> = match &self.predicted[at + 1] {
            Some(rows) => wanted_experts(rows, k, experts),
            None => {
                return Seating { jobs: Vec::new(), landing: Vec::new() };
            },
        };
        proof {
            lemma_wanted(self@.predicted[at + 1]->0, k as nat, experts);
        }
        self.go_ahead(at + 1, &want)
    }

    /// A seat, held until its copy lands, for each of `want` that sits
    /// nowhere, as long as seats can be taken.
    fn go_ahead(&mut self, at: usize, want: &Vec<u32>) -> (seating: Seating)
        requires
            old(self).wf(),
            at < old(self).seats.groups@.len(),
            spans_fit(old(self).seats.groups@[at as int], old(self).seats.pool.slots),
            forall|i: int|
                0 <= i < want@.len() ==> #[trigger] want@[i] < old(self).seats.groups@[at as int].experts,
            old(self).tally.prediction.prefetched + want@.len() <= u64::MAX,
        ensures
            final(self).wf(),
            final(self).beside(old(self)),
            in_the_air(final(self)@.seats, seating.landing@, Hold::Inflight),
            ({
                let a = ahead(old(self)@.seats, at, want@);
                &&& seating.landing@ == a.landing
                &&& seating.jobs@ == jobs_for(old(self).seats.groups@[at as int].bands@, a.landing)
                &&& final(self)@ == old(self)@.went_ahead(a)
            }),
    {
        let mut jobs: Vec<Job> = Vec::new();
        let mut landing: Vec<Landing> = Vec::new();
        let experts: u32 = self.seats.groups[at].experts;
        let ghost v = self.seats@;
        let ghost all = want@;
        let ghost bands = self.seats.groups@[at as int].bands@;
        let mut i: usize = 0;
        let mut full: bool = false;
        assert(all.take(0) =~= Seq::<u32>::empty());
        while i < want.len() && !full
            invariant
                i <= want@.len(),
                all == want@,
                old(self).wf(),
                v == old(self).seats@,
                at < v.seat_of.len(),
                v.seat_of[at as int].len() == experts,
                experts == old(self).seats.groups@[at as int].experts,
                bands == old(self).seats.groups@[at as int].bands@,
                spans_fit(old(self).seats.groups@[at as int], old(self).seats.pool.slots),
                forall|j: int| 0 <= j < all.len() ==> #[trigger] all[j] < experts,
                old(self).tally.prediction.prefetched + all.len() <= u64::MAX,
                self.seats.wf(),
                self.seats.beside(&old(self).seats),
                *self == (Tier { seats: self.seats, tally: self.tally, ..*old(self) }),
                self.tally == (Tally { prediction: self.tally.prediction, ..old(self).tally }),
                self.tally.prediction == (Prediction {
                    prefetched: self.tally.prediction.prefetched,
                    ..old(self).tally.prediction
                }),
                ({
                    let a = ahead(v, at, all.take(i as int));
                    &&& a.full == full
                    &&& self.seats@ == a.seats
                    &&& landing@ == a.landing
                    &&& jobs@ == jobs_for(bands, a.landing)
                    &&& self.tally.prediction.prefetched == old(self).tally.prediction.prefetched
                        + a.landing.len()
                }),
            decreases want@.len() - i,
        {
            let ghost a = ahead(v, at, all.take(i as int));
            let ghost b = ahead(v, at, all.take(i + 1));
            let expert: u32 = want[i];
            proof {
                assert(all.take(i + 1).drop_last() =~= all.take(i as int));
                assert(all.take(i + 1).last() == expert);
                assert(all[i as int] == expert);
                lemma_ahead(v, at, all.take(i as int));
                assert(a.seats.seat_of[at as int].len() == experts);
                assert(a.seats.names(at as int, expert as int));
            }
            i += 1;
            match self.seats.groups[at].seat_of[expert as usize] {
                Some(seat) => {
                    assert(a.seats.seat(at as int, expert as int) == Some(seat));
                    proof {
                        assert(a.seats.pool.in_seat[seat as int] is Some);
                        assert(!a.seats.pool.free.contains(seat));
                        assert(a.seats.pool.list.contains(seat));
                        lemma_touch(a.seats, seat, Hold::Free);
                    }
                    self.seats.pool.bump(seat);
                    assert(self.seats@ =~= b.seats);
                },
                None => {
                    assert(a.seats.seat(at as int, expert as int) is None);
                    match self.take(at) {
                        Ok(seat) => {
                            proof {
                                lemma_take(a.seats);
                                lemma_pick(a.seats);
                                lemma_bump(a.seats.pool.list, seat);
                                lemma_touch(a.seats.take(), seat, Hold::Inflight);
                            }
                            self.seats.pool.hold(seat, Hold::Inflight);
                            assert(self.seats@ =~= b.seats);
                            self.jobs(at, seat, expert, &mut jobs);
                            landing.push((at, seat, expert));
                            self.tally.prediction.prefetched = self.tally.prediction.prefetched + 1;
                            assert(b.landing.drop_last() =~= a.landing);
                        },
                        Err(_) => {
                            full = true;
                            assert(self.seats@ =~= b.seats);
                        },
                    }
                },
            }
        }
        proof {
            if full {
                lemma_ahead_stops(v, at, all, i as int);
            } else {
                assert(all.take(all.len() as int) =~= all);
            }
            lemma_ahead(v, at, all);
            let lent = match old(self)@.ring {
                Some(ring) => ring.seats,
                None => Seq::empty(),
            };
            lemma_keeps_held(v, self.seats@, old(self).landing@, lent);
            assert(self@.ring == old(self)@.ring);
        }
        Seating { jobs, landing }
    }

    /// The reads of `seating` are put on a thread of their own, if the store
    /// took them (`checked`): its seats are held until `join_inflight` takes
    /// the read and makes them resident. True when there is a read to run.
    /// A read that is refused here leaves its seats empty and free.
    pub fn spawn(&mut self, seating: Seating, checked: Result<(), Fault>) -> (started: Result<
        bool,
        Fault,
    >)
        requires
            old(self).wf(),
            !old(self).inflight,
            in_the_air(old(self)@.seats, seating.landing@, Hold::Inflight),
            old(self).tally.swaps + seating.jobs@.len() <= u64::MAX,
            old(self).tally.bytes_read + bytes_moved(seating.jobs@) <= u64::MAX,
        ensures
            final(self).wf(),
            final(self).beside(old(self)),
            !old(self).terms.filed || seating.jobs@.len() == 0 ==> started == Ok::<bool, Fault>(false)
                && final(self)@ == old(self)@,
            old(self).terms.filed && seating.jobs@.len() > 0 ==> {
                let counted = TierView {
                    tally: Tally {
                        swaps: (old(self).tally.swaps + seating.jobs@.len()) as u64,
                        bytes_read: (old(self).tally.bytes_read + bytes_moved(seating.jobs@)) as u64,
                        ..old(self).tally
                    },
                    ..old(self)@
                };
                match checked {
                    Err(why) => started == Err::<bool, Fault>(why) && final(self)@ == (TierView {
                        seats: stripped(old(self)@.seats, seating.landing@),
                        ..counted
                    }),
                    Ok(_) => started == Ok::<bool, Fault>(true) && final(self)@ == (TierView {
                        landing: seating.landing@,
                        inflight: true,
                        ..counted
                    }),
                }
            },
    {
        if !self.terms.filed {
            return Ok(false);
        }
        if seating.jobs.len() == 0 {
            return Ok(false);
        }
        self.tally.swaps = self.tally.swaps + seating.jobs.len() as u64;
        self.tally.bytes_read = self.tally.bytes_read + moved_bytes(&seating.jobs);
        assert(self@.ring == old(self)@.ring);
        if let Err(why) = checked {
            self.give_up(&seating.landing);
            return Err(why);
        }
        self.landing = seating.landing;
        self.inflight = true;
        Ok(true)
    }
}

proof fn lemma_ahead_stops(v: SeatsView, at: usize, all: Seq<u32>, n: int)
    requires
        0 <= n <= all.len(),
        ahead(v, at, all.take(n)).full,
    ensures
        ahead(v, at, all) == ahead(v, at, all.take(n)),
    decreases all.len() - n,
{
    if n == all.len() {
        assert(all.take(n) =~= all);
    } else {
        assert(all.take(n + 1).drop_last() =~= all.take(n));
        lemma_ahead_stops(v, at, all, n + 1);
    }
}

/// Everything wanted is an expert the group has, wanted once.
pub proof fn lemma_wanted(rows: Seq<Seq<u32>>, k: nat, experts: u32)
    ensures
        forall|i: int| 0 <= i < wanted(rows, k, experts).len() ==> #[trigger] wanted(rows, k, experts)[i]
            < experts,
        wanted(rows, k, experts).no_duplicates(),
    decreases rows.len(),
{
    if rows.len() > 0 {
        lemma_wanted(rows.drop_last(), k, experts);
        lemma_wanted_in(
            wanted(rows.drop_last(), k, experts),
            rows.last().take(if rows.last().len() < k { rows.last().len() as int } else { k as int }),
            experts,
        );
    }
}

proof fn lemma_wanted_in(found: Seq<u32>, row: Seq<u32>, experts: u32)
    requires
        forall|i: int| 0 <= i < found.len() ==> #[trigger] found[i] < experts,
        found.no_duplicates(),
    ensures
        forall|i: int|
            0 <= i < wanted_in(found, row, experts).len() ==> #[trigger] wanted_in(found, row, experts)[i]
                < experts,
        wanted_in(found, row, experts).no_duplicates(),
    decreases row.len(),
{
    if row.len() > 0 {
        lemma_wanted_in(found, row.drop_last(), experts);
        let so_far = wanted_in(found, row.drop_last(), experts);
        if row.last() < experts && !so_far.contains(row.last()) {
            crate::experts::seats::lemma_pushed(so_far, row.last());
        }
    }
}

/// Whether `held` has `x` in it.
pub fn holds_expert(held: &Vec<u32>, x: u32) -> (has: bool)
    ensures
        has == held@.contains(x),
{
    let mut i: usize = 0;
    while i < held.len()
        invariant
            i <= held@.len(),
            forall|j: int| 0 <= j < i ==> held@[j] != x,
        decreases held@.len() - i,
    {
        if held[i] == x {
            assert(held@[i as int] == x);
            return true;
        }
        i += 1;
    }
    false
}

/// The experts worth reading ahead.
pub fn wanted_experts(rows: &Vec<Vec<u32>>, k: usize, experts: u32) -> (want: Vec<u32>)
    ensures
        want@ == wanted(ranks(rows@), k as nat, experts),
        forall|r: int, j: int|
            #![trigger rows@[r]@[j]]
            0 <= r < rows@.len() && 0 <= j < rows@[r]@.len() && j < k && rows@[r]@[j] < experts
                ==> want@.contains(rows@[r]@[j]),
        forall|i: int|
            0 <= i < want@.len() ==> (#[trigger] want@[i]) < experts && exists|r: int, j: int|
                #![trigger rows@[r]@[j]]
                0 <= r < rows@.len() && 0 <= j < rows@[r]@.len() && j < k && rows@[r]@[j] == want@[i],
        want@.no_duplicates(),
{
    let ghost all = ranks(rows@);
    let mut want: Vec<u32> = Vec::new();
    let mut r: usize = 0;
    assert(all.take(0) =~= Seq::<Seq<u32>>::empty());
    while r < rows.len()
        invariant
            r <= rows@.len(),
            all == ranks(rows@),
            want@ == wanted(all.take(r as int), k as nat, experts),
        decreases rows@.len() - r,
    {
        let row: &Vec<u32> = &rows[r];
        let n: usize = if row.len() < k {
            row.len()
        } else {
            k
        };
        let ghost part = row@.take(n as int);
        let ghost found = want@;
        let mut i: usize = 0;
        assert(part.take(0) =~= Seq::<u32>::empty());
        while i < n
            invariant
                i <= n <= row@.len(),
                part == row@.take(n as int),
                want@ == wanted_in(found, part.take(i as int), experts),
            decreases n - i,
        {
            assert(part.take(i + 1).drop_last() =~= part.take(i as int));
            assert(part.take(i + 1).last() == row@[i as int]);
            let expert: u32 = row[i];
            if expert < experts && !holds_expert(&want, expert) {
                want.push(expert);
            }
            i += 1;
        }
        assert(part.take(n as int) =~= part);
        assert(all.take(r + 1).drop_last() =~= all.take(r as int));
        assert(all.take(r + 1).last() == row@);
        r += 1;
    }
    assert(all.take(rows@.len() as int) =~= all);
    proof {
        every_row_says_what_is_wanted(all, k as nat, experts);
        assert forall|r: int, j: int|
            #![trigger rows@[r]@[j]]
            0 <= r < rows@.len() && 0 <= j < rows@[r]@.len() && j < k && rows@[r]@[j] < experts
            implies want@.contains(rows@[r]@[j]) by {
            assert(all[r][j] == rows@[r]@[j]);
        }
        assert forall|i: int| 0 <= i < want@.len() implies (#[trigger] want@[i]) < experts && exists|
            r: int,
            j: int,
        |
            #![trigger rows@[r]@[j]]
            0 <= r < rows@.len() && 0 <= j < rows@[r]@.len() && j < k && rows@[r]@[j] == want@[i] by {
            let (r, j) = choose|r: int, j: int|
                #![trigger all[r][j]]
                0 <= r < all.len() && 0 <= j < all[r].len() && j < k && all[r][j] == want@[i];
            assert(rows@[r]@[j] == want@[i]);
        }
    }
    want
}

impl TierView {
    /// The tier once experts have been read ahead so.
    pub open spec fn went_ahead(self, a: Ahead) -> TierView {
        TierView {
            seats: a.seats,
            tally: Tally {
                prediction: Prediction {
                    prefetched: (self.tally.prediction.prefetched + a.landing.len()) as u64,
                    ..self.tally.prediction
                },
                ..self.tally
            },
            ..self
        }
    }

    /// The segment before is over: its seats are let go, and this one counts.
    pub open spec fn cut(self) -> TierView {
        TierView {
            seats: self.seats.with_pool(self.seats.pool.release(Hold::Segment)),
            tally: Tally { segments: (self.tally.segments + 1) as u64, ..self.tally },
            ..self
        }
    }
}

/// A routing vector decided and its bytes moved: every expert it names is
/// resident, and no two of them in one seat, so the seat table says for each
/// the seat its bytes are in.
pub proof fn a_landed_segment_is_resident(v: SeatsView, at: usize, experts: u32, ids: Seq<i32>)
    requires
        v.inv(),
        at < v.seat_of.len(),
        v.seat_of[at as int].len() == experts,
        decided(v, at, experts, ids).stop is None,
    ensures
        ({
            let d = decided(v, at, experts, ids);
            let w = assigned(d.seats, d.landing);
            &&& in_the_air(d.seats, d.landing, Hold::Segment)
            &&& w.inv()
            &&& forall|i: int|
                0 <= i < ids.len() && ids[i] >= 0 ==> {
                    &&& w.seat(at as int, #[trigger] ids[i] as int) == Some(d.taken[ids[i] as u32])
                    &&& seat_table(w.seat_of[at as int])[ids[i] as int] == d.taken[ids[i] as u32]
                }
            &&& forall|i: int, j: int|
                0 <= i < ids.len() && 0 <= j < ids.len() && #[trigger] ids[i] >= 0 && #[trigger] ids[j] >= 0
                    && ids[i] != ids[j] ==> w.seat(at as int, ids[i] as int) != w.seat(
                    at as int,
                    ids[j] as int,
                )
        }),
{
    deciding_seats_every_expert(v, at, experts, ids);
    let d = decided(v, at, experts, ids);
    let all = d.landing;
    lemma_decided_in_the_air(v, at, experts, ids);
    assert forall|i: int, j: int| 0 <= i < j < all.len() implies ((#[trigger] all[i]).0, all[i].2) != ((
    #[trigger] all[j]).0, all[j].2) by {}
    lemma_assigned(d.seats, all, Hold::Segment);
    lemma_assigned_resident(d.seats, all, Hold::Segment);
    let w = assigned(d.seats, all);
    assert(w.seat_of[at as int].len() == experts);
    assert forall|i: int| 0 <= i < ids.len() && ids[i] >= 0 implies {
        &&& w.seat(at as int, #[trigger] ids[i] as int) == Some(d.taken[ids[i] as u32])
        &&& seat_table(w.seat_of[at as int])[ids[i] as int] == d.taken[ids[i] as u32]
    } by {
        let e = ids[i] as u32;
        assert(d.taken.contains_key(e));
        let s = d.taken[e];
        assert(d.seats.names(at as int, e as int));
        if d.landing.contains((at, s, e)) {
            let j = d.landing.index_of((at, s, e));
            assert(all[j] == (at, s, e));
        } else {
            assert(d.seats.seat(at as int, e as int) == Some(s));
            assert forall|j: int| 0 <= j < all.len() implies ((#[trigger] all[j]).0 != at || all[j].2 != e) by {
                if all[j].2 == e {
                    assert(d.seats.seat(at as int, e as int) is None);
                }
            }
            assert(w.seat(at as int, e as int) == d.seats.seat(at as int, e as int));
        }
    }
    assert forall|i: int, j: int|
        0 <= i < ids.len() && 0 <= j < ids.len() && #[trigger] ids[i] >= 0 && #[trigger] ids[j] >= 0
            && ids[i] != ids[j] implies w.seat(at as int, ids[i] as int) != w.seat(
        at as int,
        ids[j] as int,
    ) by {
        assert(d.taken.contains_key(ids[i] as u32) && d.taken.contains_key(ids[j] as u32));
    }
}

} // verus!
