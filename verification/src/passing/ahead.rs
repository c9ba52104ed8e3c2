//! Reading ahead: the next group's predicted experts, or the next pass's.

use vstd::prelude::*;

use crate::experts::deciding::{bytes_moved, Job, Landing};
use crate::experts::landing::moved_bytes;
use crate::experts::segment::{lemma_wanted, wanted, wanted_experts};
use crate::experts::tally::Prediction;
use crate::experts::tier::{guess, lemma_lands, push_jobs, ranks, spans_fit};
use crate::fault::Fault;
use crate::passing::room::{lemma_place, lemma_touch, RoomView};
use crate::passing::tier::{copies, Counts, Tier, TierView};

verus! {

/// Reading ahead, part of the way.
pub struct Ahead {
    pub room: RoomView,
    pub landing: Seq<Landing>,
    /// No seat was left: nothing more is read ahead.
    pub full: bool,
}

impl Ahead {
    /// One expert more; one that sits already is used again, if `again`.
    pub open spec fn step(self, at: usize, expert: u32, again: bool) -> Ahead {
        if self.full {
            self
        } else {
            match self.room.seat(at as int, expert as int) {
                Some(seat) => if again {
                    Ahead { room: self.room.used(seat), ..self }
                } else {
                    self
                },
                None => match self.room.victim() {
                    None => Ahead { full: true, ..self },
                    Some(seat) => Ahead {
                        room: self.room.place(at as int, expert),
                        landing: self.landing.push((at, seat, expert)),
                        ..self
                    },
                },
            }
        }
    }
}

/// What reading these experts ahead does: a seat for each that sits nowhere,
/// as long as one is not pinned.
pub open spec fn ahead(room: RoomView, at: usize, experts: Seq<u32>, again: bool) -> Ahead
    decreases experts.len(),
{
    if experts.len() == 0 {
        Ahead { room, landing: Seq::empty(), full: false }
    } else {
        ahead(room, at, experts.drop_last(), again).step(at, experts.last(), again)
    }
}

/// What holds as experts are read ahead: whoever is pinned stays where they
/// sit, so a prefetch evicts only around the seats the device is about to
/// read.
pub proof fn lemma_ahead(v: RoomView, at: usize, all: Seq<u32>, again: bool)
    requires
        v.inv(),
        at < v.seat_of.len(),
        forall|i: int| 0 <= i < all.len() ==> #[trigger] all[i] < v.seat_of[at as int].len(),
        v.tick + all.len() <= u64::MAX,
    ensures
        ({
            let a = ahead(v, at, all, again);
            &&& crate::passing::sitting::keeps(v, a.room)
            &&& a.room.tick <= v.tick + all.len()
            &&& a.landing.len() <= all.len()
            &&& forall|i: int|
                0 <= i < a.landing.len() ==> {
                    &&& (#[trigger] a.landing[i]).0 == at
                    &&& a.landing[i].1 < v.in_seat.len()
                    &&& a.landing[i].2 < v.seat_of[at as int].len()
                }
        }),
    decreases all.len(),
{
    if all.len() > 0 {
        let head = all.drop_last();
        let e = all.last();
        assert(all[all.len() - 1] == e);
        assert forall|i: int| 0 <= i < head.len() implies #[trigger] head[i] < v.seat_of[at as int].len() by {
            assert(head[i] == all[i]);
        }
        lemma_ahead(v, at, head, again);
        let a = ahead(v, at, head, again);
        let b = ahead(v, at, all, again);
        assert(a.room.seat_of[at as int].len() == v.seat_of[at as int].len());
        assert(a.room.names(at as int, e as int));
        if !a.full {
            match a.room.seat(at as int, e as int) {
                Some(s) => {
                    if again {
                        lemma_touch(a.room, s);
                        assert(forall|g: int, x: int| b.room.seat(g, x) == #[trigger] a.room.seat(g, x));
                    }
                },
                None => {
                    lemma_place(a.room, at as int, e);
                },
            }
        }
        assert(crate::passing::sitting::keeps(a.room, b.room));
        crate::passing::sitting::lemma_keeps_trans(v, a.room, b.room);
        assert forall|i: int| 0 <= i < b.landing.len() implies {
            &&& (#[trigger] b.landing[i]).0 == at
            &&& b.landing[i].1 < v.in_seat.len()
            &&& b.landing[i].2 < v.seat_of[at as int].len()
        } by {
            if i < a.landing.len() {
                assert(b.landing[i] == a.landing[i]);
            }
        }
    }
}

proof fn lemma_ahead_stops(v: RoomView, at: usize, all: Seq<u32>, again: bool, n: int)
    requires
        0 <= n <= all.len(),
        ahead(v, at, all.take(n), again).full,
    ensures
        ahead(v, at, all, again) == ahead(v, at, all.take(n), again),
    decreases all.len() - n,
{
    if n == all.len() {
        assert(all.take(n) =~= all);
    } else {
        assert(all.take(n + 1).drop_last() =~= all.take(n));
        lemma_ahead_stops(v, at, all, again, n + 1);
    }
}

impl TierView {
    /// The tier once experts have been read ahead so.
    pub open spec fn went_ahead(self, a: Ahead) -> TierView {
        TierView {
            room: a.room,
            counts: Counts {
                prediction: Prediction {
                    prefetched: (self.counts.prediction.prefetched + a.landing.len()) as u64,
                    ..self.counts.prediction
                },
                ..self.counts
            },
            ..self
        }
    }

    /// `n` experts more can be read ahead and counted.
    pub open spec fn spare_ahead(self, n: nat) -> bool {
        &&& self.room.tick + n <= u64::MAX
        &&& self.counts.prediction.prefetched + n <= u64::MAX
    }
}

impl Tier {
    /// Give each of `want` that sits nowhere a seat, as long as one is not
    /// pinned: the copies that land them.
    fn go_ahead(&mut self, at: usize, want: &Vec<u32>, again: bool) -> (jobs: Vec<Job>)
        requires
            old(self).wf(),
            old(self).fits(),
            at < old(self).room.groups@.len(),
            forall|i: int|
                0 <= i < want@.len() ==> #[trigger] want@[i] < old(self).room.groups@[at as int].experts,
            old(self)@.spare_ahead(want@.len()),
        ensures
            final(self).wf(),
            final(self).beside(old(self)),
            ({
                let a = ahead(old(self)@.room, at, want@, again);
                &&& final(self)@ == old(self)@.went_ahead(a)
                &&& jobs@ == copies(old(self).room.groups@, a.landing)
            }),
    {
        let ghost v = self@;
        let ghost all = want@;
        let ghost groups = self.room.groups@;
        let ghost experts = self.room.groups@[at as int].experts;
        let mut jobs: Vec<Job> = Vec::new();
        let mut i: usize = 0;
        let mut full: bool = false;
        proof {
            assert(all.take(0) =~= Seq::<u32>::empty());
            assert(self@ =~= v.went_ahead(ahead(v.room, at, all.take(0), again)));
        }
        while i < want.len() && !full
            invariant
                i <= all.len(),
                all == want@,
                old(self).wf(),
                old(self).fits(),
                v == old(self)@,
                groups == old(self).room.groups@,
                v.spare_ahead(all.len()),
                at < old(self).room.groups@.len(),
                experts == old(self).room.groups@[at as int].experts,
                forall|i: int| 0 <= i < all.len() ==> #[trigger] all[i] < experts,
                self.wf(),
                self.beside(old(self)),
                ahead(v.room, at, all.take(i as int), again).full == full,
                self@ == v.went_ahead(ahead(v.room, at, all.take(i as int), again)),
                jobs@ == copies(groups, ahead(v.room, at, all.take(i as int), again).landing),
            decreases all.len() - i,
        {
            let ghost a = ahead(v.room, at, all.take(i as int), again);
            let ghost b = ahead(v.room, at, all.take(i + 1), again);
            let ghost before = *self;
            let expert: u32 = want[i];
            proof {
                assert(all.take(i + 1).drop_last() =~= all.take(i as int));
                assert(all.take(i + 1).last() == expert);
                assert(all[i as int] == expert);
                assert(v.room.seat_of[at as int].len() == experts);
                assert forall|j: int| 0 <= j < all.take(i as int).len() implies #[trigger] all.take(i as int)[j]
                    < experts by {
                    assert(all[j] < experts);
                }
                lemma_ahead(v.room, at, all.take(i as int), again);
                assert(a.room.seat_of[at as int].len() == experts);
                assert(a.room.seat(at as int, expert as int)
                    == self.room.groups@[at as int].seat_of@[expert as int]);
            }
            i += 1;
            match self.room.groups[at].seat_of[expert as usize] {
                Some(seat) => {
                    if again {
                        self.room.use_seat(seat);
                        assert(self@ =~= v.went_ahead(b));
                        proof {
                            lemma_ahead_wf(&before, self);
                        }
                    }
                },
                None => {
                    match self.room.place(at, expert) {
                        Some(seat) => {
                            proof {
                                lemma_place(before@.room, at as int, expert);
                                let group = self.room.groups@[at as int];
                                assert(group.bands == groups[at as int].bands);
                                assert(spans_fit(groups[at as int], old(self).room.pool.slots));
                                lemma_lands(groups[at as int], old(self).room.pool.slots, seat, expert);
                            }
                            push_jobs(&self.room.groups[at], seat, expert, &mut jobs);
                            self.counts.prediction.prefetched = self.counts.prediction.prefetched + 1;
                            proof {
                                assert(b.landing.drop_last() =~= a.landing);
                                assert(self@ =~= v.went_ahead(b));
                                lemma_ahead_wf(&before, self);
                            }
                        },
                        None => {
                            full = true;
                            assert(self@ =~= v.went_ahead(b));
                            proof {
                                lemma_ahead_wf(&before, self);
                            }
                        },
                    }
                },
            }
        }
        proof {
            if full {
                lemma_ahead_stops(v.room, at, all, again, i as int);
            } else {
                assert(all.take(all.len() as int) =~= all);
            }
        }
        jobs
    }

    /// Read group `at`'s predicted experts ahead: of every row the first few.
    /// Pins stay: the segment that just ran pinned the seats the device is
    /// about to read, and a prefetch may only evict around them. The copies
    /// that land the experts; none, where there is no file to read ahead
    /// from.
    pub fn prefetch(&mut self, at: usize, rows: &Vec<Vec<u32>>) -> (jobs: Vec<Job>)
        requires
            old(self).wf(),
            old(self).fits(),
            at < old(self).room.groups@.len(),
            old(self)@.spare_ahead(
                wanted(
                    ranks(rows@),
                    old(self).terms.prefetch_k as nat,
                    old(self).room.groups@[at as int].experts,
                ).len(),
            ),
        ensures
            final(self).wf(),
            final(self).beside(old(self)),
            !old(self).terms.filed ==> jobs@.len() == 0 && final(self)@ == old(self)@,
            old(self).terms.filed ==> {
                let a = ahead(
                    old(self)@.room,
                    at,
                    wanted(
                        ranks(rows@),
                        old(self).terms.prefetch_k as nat,
                        old(self).room.groups@[at as int].experts,
                    ),
                    true,
                );
                &&& final(self)@ == old(self)@.went_ahead(a)
                &&& jobs@ == copies(old(self).room.groups@, a.landing)
            },
    {
        if !self.terms.filed {
            return Vec::new();
        }
        let experts: u32 = self.room.groups[at].experts;
        let want: Vec<u32> = wanted_experts(rows, self.terms.prefetch_k, experts);
        proof {
            lemma_wanted(ranks(rows@), self.terms.prefetch_k as nat, experts);
        }
        self.go_ahead(at, &want, true)
    }

    /// Read the next pass's experts of group `at` ahead.
    pub fn prefetch_group(&mut self, at: usize, experts: &Vec<u32>) -> (jobs: Vec<Job>)
        requires
            old(self).wf(),
            old(self).fits(),
            at < old(self).room.groups@.len(),
            forall|i: int|
                0 <= i < experts@.len() ==> #[trigger] experts@[i] < old(self).room.groups@[at as int].experts,
            old(self)@.spare_ahead(experts@.len()),
        ensures
            final(self).wf(),
            final(self).beside(old(self)),
            !old(self).terms.filed ==> jobs@.len() == 0 && final(self)@ == old(self)@,
            old(self).terms.filed ==> {
                let a = ahead(old(self)@.room, at, experts@, false);
                &&& final(self)@ == old(self)@.went_ahead(a)
                &&& jobs@ == copies(old(self).room.groups@, a.landing)
            },
    {
        if !self.terms.filed {
            return Vec::new();
        }
        self.go_ahead(at, experts, false)
    }

    /// The copies of the group after `at` to put under way now that its
    /// segment is seated, if this load reads ahead and a prediction says
    /// which experts.
    pub fn prefetch_after(&mut self, at: usize) -> (jobs: Vec<Job>)
        requires
            old(self).wf(),
            old(self).fits(),
            at < old(self).room.groups@.len(),
            at + 1 < old(self).room.groups@.len() ==> (old(self)@.predicted[at + 1] matches Some(rows) ==> old(self)@.spare_ahead(
                wanted(
                    rows,
                    old(self).terms.prefetch_k as nat,
                    old(self).room.groups@[at + 1].experts,
                ).len(),
            )),
        ensures
            final(self).wf(),
            final(self).beside(old(self)),
            if old(self).terms.prefetch && old(self).terms.filed && at + 1 < old(self).room.groups@.len()
                && old(self)@.predicted[at + 1] is Some {
                let a = ahead(
                    old(self)@.room,
                    (at + 1) as usize,
                    wanted(
                        old(self)@.predicted[at + 1]->0,
                        old(self).terms.prefetch_k as nat,
                        old(self).room.groups@[at + 1].experts,
                    ),
                    true,
                );
                &&& final(self)@ == old(self)@.went_ahead(a)
                &&& jobs@ == copies(old(self).room.groups@, a.landing)
            } else {
                jobs@.len() == 0 && final(self)@ == old(self)@
            },
    {
        let n: usize = self.predicted.len();
        if !self.terms.prefetch || !self.terms.filed || at + 1 >= n {
            return Vec::new();
        }
        let experts: u32 = self.room.groups[at + 1].experts;
        let k: usize = self.terms.prefetch_k;
        assert(self@.predicted[at + 1] == guess(self.predicted@[at + 1]));
        let want: Vec<u32> = match &self.predicted[at + 1] {
            Some(rows) => wanted_experts(rows, k, experts),
            None => {
                return Vec::new();
            },
        };
        proof {
            lemma_wanted(self@.predicted[at + 1]->0, k as nat, experts);
        }
        self.go_ahead(at + 1, &want, true)
    }

    /// The copies are put on a thread of their own, if the store took them
    /// (`checked`). True when there is a read to run.
    pub fn spawn(&mut self, jobs: &Vec<Job>, checked: Result<(), Fault>) -> (started: Result<
        bool,
        Fault,
    >)
        requires
            old(self).wf(),
            old(self).counts.swaps + jobs@.len() <= u64::MAX,
            old(self).counts.bytes_read + bytes_moved(jobs@) <= u64::MAX,
        ensures
            final(self).wf(),
            final(self).beside(old(self)),
            !old(self).terms.filed || jobs@.len() == 0 ==> started == Ok::<bool, Fault>(false) && final(self)@ == old(self)@,
            old(self).terms.filed && jobs@.len() > 0 ==> {
                let counted = TierView {
                    counts: Counts {
                        swaps: (old(self).counts.swaps + jobs@.len()) as u64,
                        bytes_read: (old(self).counts.bytes_read + bytes_moved(jobs@)) as u64,
                        ..old(self).counts
                    },
                    ..old(self)@
                };
                match checked {
                    Err(why) => started == Err::<bool, Fault>(why) && final(self)@ == counted,
                    Ok(_) => started == Ok::<bool, Fault>(true) && final(self)@ == (TierView {
                        inflight: true,
                        ..counted
                    }),
                }
            },
    {
        if !self.terms.filed {
            return Ok(false);
        }
        if jobs.len() == 0 {
            return Ok(false);
        }
        self.counts.swaps = self.counts.swaps + jobs.len() as u64;
        self.counts.bytes_read = self.counts.bytes_read + moved_bytes(jobs);
        if let Err(why) = checked {
            return Err(why);
        }
        self.inflight = true;
        Ok(true)
    }
}

/// A tier whose groups stayed the size they were is in order.
proof fn lemma_ahead_wf(before: &Tier, after: &Tier)
    requires
        before.wf(),
        after.room.wf(),
        after.room.beside(&before.room),
        after.terms == before.terms,
        after.predicted == before.predicted,
        after.passing == before.passing,
        after.pending == before.pending,
        after@.room.seat_of.len() == before@.room.seat_of.len(),
        forall|g: int|
            0 <= g < before@.room.seat_of.len() ==> (#[trigger] after@.room.seat_of[g]).len()
                == before@.room.seat_of[g].len(),
        after@.room.in_seat.len() == before@.room.in_seat.len(),
    ensures
        after.wf(),
{
    assert forall|i: int| 0 <= i < after@.pending.len() implies {
        let (g, s, e) = #[trigger] after@.pending[i];
        &&& after@.room.names(g as int, e as int)
        &&& s < after@.room.in_seat.len()
    } by {
        let (g, s, e) = before@.pending[i];
        assert(before@.room.names(g as int, e as int));
        assert(after@.room.seat_of[g as int].len() == before@.room.seat_of[g as int].len());
    }
    assert forall|g: int| 0 <= g < after@.passing.len() implies (#[trigger] after@.passing[g] matches Some(
        p,
    ) ==> p.within(after@.room.seat_of[g].len() as u32, after@.room.in_seat.len())) by {
        assert(before@.passing[g] == after@.passing[g]);
        assert(after@.room.seat_of[g].len() == before@.room.seat_of[g].len());
    }
}

} // verus!
