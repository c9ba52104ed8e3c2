//! The tier that seats a segment's experts by recency, whole or in passes.

use std::collections::BTreeMap;
use vstd::prelude::*;

use crate::experts::deciding::{bytes_moved, jobs_of, Job, Landing, Stop};
use crate::experts::landing::moved_bytes;
use crate::experts::plan::Word;
use crate::experts::predict::guesses;
use crate::experts::seats::Group;
use crate::experts::tally::Prediction;
use crate::experts::tier::{lemma_lands, push_jobs, spans_fit};
use crate::fault::{Fault, Refusal};
use crate::passing::passes::{Passing, PassingView};
use crate::passing::room::{lemma_unpinned, Room, RoomView};
use crate::passing::sitting::{lemma_seat, Sitting};
use crate::trace::ValueId;

verus! {

/// What the tier has counted since the load. Times are whole nanoseconds.
#[derive(Debug, Clone, Copy)]
pub struct Counts {
    pub swaps: u64,
    pub segments: u64,
    pub hits: u64,
    pub misses: u64,
    pub bytes_read: u64,
    pub cut_ns: u64,
    pub copy_ns: u64,
    pub wait_ns: u64,
    pub gpu_ns: u64,
    pub prediction: Prediction,
}

/// What a load fixes.
#[derive(Debug)]
pub struct Terms {
    /// The group each routing vector belongs to.
    pub of_routes: BTreeMap<u32, usize>,
    /// The value each routing vector's prediction is read from.
    pub hint_of: BTreeMap<u32, ValueId>,
    pub per_slot: u64,
    pub pairs: u64,
    pub policy: Word,
    /// Whether the source is a file.
    pub filed: bool,
    /// Whether predicted experts are read ahead, and how many a row.
    pub prefetch: bool,
    pub prefetch_k: usize,
    /// Whether one pass takes half the pool.
    pub half: bool,
}

/// The tier: who sits where, what has yet to be copied, and what was
/// counted. The bytes themselves are moved by the caller, which says how
/// that went.
pub struct Tier {
    pub room: Room,
    /// The `(group, seat, expert)` whose bytes have yet to be copied.
    pub pending: Vec<Landing>,
    pub counts: Counts,
    pub inflight: bool,
    pub predicted: Vec<Option<Vec<Vec<u32>>>>,
    pub passing: Vec<Option<Passing>>,
    pub terms: Terms,
}

/// What changes as a tier runs.
#[verifier::ext_equal]
pub struct TierView {
    pub room: RoomView,
    pub pending: Seq<Landing>,
    pub counts: Counts,
    pub inflight: bool,
    pub predicted: Seq<Option<Seq<Seq<u32>>>>,
    pub passing: Seq<Option<PassingView>>,
}

pub open spec fn passing_view(passing: Option<Passing>) -> Option<PassingView> {
    match passing {
        Some(passing) => Some(passing@),
        None => None,
    }
}

impl View for Tier {
    type V = TierView;

    open spec fn view(&self) -> TierView {
        TierView {
            room: self.room@,
            pending: self.pending@,
            counts: self.counts,
            inflight: self.inflight,
            predicted: guesses(self.predicted@),
            passing: Seq::new(self.passing@.len(), |g: int| passing_view(self.passing@[g])),
        }
    }
}

/// The copies these landings ask for, in their order.
pub open spec fn copies(groups: Seq<Group>, landing: Seq<Landing>) -> Seq<Job>
    decreases landing.len(),
{
    if landing.len() == 0 {
        Seq::empty()
    } else {
        let (g, s, e) = landing.last();
        copies(groups, landing.drop_last()) + jobs_of(groups[g as int].bands@, s, e)
    }
}

impl TierView {
    /// Where a segment's seating starts from.
    pub open spec fn sitting(self) -> Sitting {
        Sitting {
            room: self.room,
            pending: self.pending,
            hits: self.counts.hits as nat,
            misses: self.counts.misses as nat,
            stop: None,
        }
    }

    /// The tier once experts have been seated so.
    pub open spec fn sit(self, s: Sitting) -> TierView {
        TierView {
            room: s.room,
            pending: s.pending,
            counts: Counts { hits: s.hits as u64, misses: s.misses as u64, ..self.counts },
            ..self
        }
    }

    /// The segment before is over: nothing on the device reads a seat any
    /// more, so every pin is let go; and this segment counts.
    pub open spec fn cut(self) -> TierView {
        TierView {
            room: self.room.unpinned(),
            counts: Counts { segments: (self.counts.segments + 1) as u64, ..self.counts },
            ..self
        }
    }

    /// Nothing left to copy.
    pub open spec fn drained(self) -> TierView {
        TierView { pending: Seq::empty(), ..self }
    }

    /// `n` experts more can be seated and counted.
    pub open spec fn spare(self, n: nat) -> bool {
        &&& self.room.tick + n <= u64::MAX
        &&& self.counts.hits + n <= u64::MAX
        &&& self.counts.misses + n <= u64::MAX
    }

    pub open spec fn wf(self) -> bool {
        &&& self.room.inv()
        &&& self.predicted.len() == self.room.seat_of.len()
        &&& self.passing.len() == self.room.seat_of.len()
        &&& forall|i: int|
            0 <= i < self.pending.len() ==> {
                let (g, s, e) = #[trigger] self.pending[i];
                &&& self.room.names(g as int, e as int)
                &&& s < self.room.in_seat.len()
            }
        &&& forall|g: int|
            0 <= g < self.passing.len() ==> (#[trigger] self.passing[g] matches Some(p) ==> p.within(
                self.room.seat_of[g].len() as u32,
                self.room.in_seat.len(),
            ))
    }
}

impl Tier {
    pub open spec fn wf(&self) -> bool {
        &&& self.room.wf()
        &&& self@.wf()
        &&& forall|k: u32| #[trigger] self.terms.of_routes@.contains_key(k)
            ==> self.terms.of_routes@[k] < self.room.groups@.len()
    }

    /// The same load as `before`: only what a fire may change differs.
    pub open spec fn beside(&self, before: &Tier) -> bool {
        &&& self.terms == before.terms
        &&& self.room.beside(&before.room)
    }

    /// The addresses every group's copies touch fit a device address.
    pub open spec fn fits(&self) -> bool {
        forall|g: int|
            0 <= g < self.room.groups@.len() ==> spans_fit(
                #[trigger] self.room.groups@[g],
                self.room.pool.slots,
            )
    }

    pub open spec fn full(&self, at: int) -> Fault {
        Fault::Residency(
            Refusal::PoolPinned {
                slots: self.room.pool.slots,
                name: self.room.groups@[at].bands@[0].name,
            },
        )
    }

    /// The fault a stop is refused with.
    pub open spec fn refusal(&self, at: int, stop: Stop) -> Fault {
        let group = self.room.groups@[at];
        match stop {
            Stop::NoSuchExpert(expert) => Fault::Residency(
                Refusal::NoSuchExpert {
                    expert,
                    name: group.bands@[0].name,
                    experts: group.experts,
                },
            ),
            Stop::Full => self.full(at),
        }
    }

    /// A seat for `expert` of group `at`: the one it sits in, or the coldest
    /// that is not pinned, its bytes then to be copied.
    pub fn seat(&mut self, at: usize, expert: u32) -> (seat: Result<u32, Fault>)
        requires
            old(self).wf(),
            old(self)@.room.names(at as int, expert as int),
            old(self)@.spare(1),
        ensures
            final(self).wf(),
            final(self).beside(old(self)),
            ({
                let s = old(self)@.sitting().seat(at, expert);
                &&& final(self)@ == old(self)@.sit(s)
                &&& match seat {
                    Ok(seat) => s.stop is None && s.room.seat(at as int, expert as int) == Some(seat),
                    Err(fault) => s.stop is Some && fault == old(self).full(at as int),
                }
            }),
    {
        let ghost v = self@;
        let ghost s = v.sitting().seat(at, expert);
        proof {
            lemma_seat(v.sitting(), at, expert);
            assert(v.room.seat(at as int, expert as int) == self.room.groups@[at as int].seat_of@[expert as int]);
        }
        if let Some(seat) = self.room.groups[at].seat_of[expert as usize] {
            if !self.room.pool.pinned[seat as usize] {
                self.counts.hits = self.counts.hits + 1;
            }
            self.room.touch(seat);
            assert(self@ =~= v.sit(s));
            assert(self.wf()) by {
                self.lemma_sat_wf(old(self));
            }
            return Ok(seat);
        }
        self.counts.misses = self.counts.misses + 1;
        match self.room.place(at, expert) {
            Some(seat) => {
                self.pending.push((at, seat, expert));
                assert(self@ =~= v.sit(s));
                proof {
                    crate::passing::room::lemma_place(v.room, at as int, expert);
                    self.lemma_sat_wf(old(self));
                }
                Ok(seat)
            },
            None => {
                assert(self@ =~= v.sit(s));
                proof {
                    self.lemma_sat_wf(old(self));
                }
                let name = self.room.groups[at].bands[0].name.clone();
                Err(Fault::Residency(Refusal::PoolPinned { slots: self.room.pool.slots, name }))
            },
        }
    }

    /// A tier whose groups are the same size and whose pending copies are of
    /// experts there are is in order.
    proof fn lemma_sat_wf(&self, before: &Tier)
        requires
            before.wf(),
            self.room.wf(),
            self.room.beside(&before.room),
            self.terms == before.terms,
            self@.predicted == before@.predicted,
            self@.passing == before@.passing,
            self@.room.seat_of.len() == before@.room.seat_of.len(),
            forall|g: int|
                0 <= g < before@.room.seat_of.len() ==> (#[trigger] self@.room.seat_of[g]).len()
                    == before@.room.seat_of[g].len(),
            self@.room.in_seat.len() == before@.room.in_seat.len(),
            forall|i: int|
                before@.pending.len() <= i < self@.pending.len() ==> {
                    let (g, s, e) = #[trigger] self@.pending[i];
                    &&& self@.room.names(g as int, e as int)
                    &&& s < self@.room.in_seat.len()
                },
            forall|i: int|
                0 <= i < before@.pending.len() && i < self@.pending.len() ==> #[trigger] self@.pending[i]
                    == before@.pending[i],
        ensures
            self.wf(),
    {
        assert forall|i: int| 0 <= i < self@.pending.len() implies {
            let (g, s, e) = #[trigger] self@.pending[i];
            &&& self@.room.names(g as int, e as int)
            &&& s < self@.room.in_seat.len()
        } by {
            if i < before@.pending.len() {
                let (g, s, e) = before@.pending[i];
                assert(before@.room.names(g as int, e as int));
                assert(self@.room.seat_of[g as int].len() == before@.room.seat_of[g as int].len());
            }
        }
        assert forall|g: int| 0 <= g < self@.passing.len() implies (#[trigger] self@.passing[g] matches Some(
            p,
        ) ==> p.within(self@.room.seat_of[g].len() as u32, self@.room.in_seat.len())) by {
            assert(before@.passing[g] == self@.passing[g]);
            assert(self@.room.seat_of[g].len() == before@.room.seat_of[g].len());
        }
    }

    /// A segment is cut: every pin is let go, and it counts.
    pub fn cut(&mut self)
        requires
            old(self).wf(),
            old(self).counts.segments < u64::MAX,
        ensures
            final(self).wf(),
            final(self).beside(old(self)),
            final(self)@ == old(self)@.cut(),
    {
        self.room.unpin();
        self.counts.segments = self.counts.segments + 1;
        proof {
            lemma_unpinned(old(self)@.room);
            assert(self@ =~= old(self)@.cut());
            self.lemma_sat_wf(old(self));
        }
    }

    /// The copies the segment's experts wait for; none of them waits any
    /// longer.
    pub fn flush(&mut self) -> (jobs: Vec<Job>)
        requires
            old(self).wf(),
            old(self).fits(),
        ensures
            final(self).wf(),
            final(self).beside(old(self)),
            final(self)@ == old(self)@.drained(),
            jobs@ == copies(old(self).room.groups@, old(self)@.pending),
    {
        let ghost all = self.pending@;
        let ghost groups = self.room.groups@;
        let mut jobs: Vec<Job> = Vec::new();
        let mut i: usize = 0;
        assert(all.take(0) =~= Seq::<Landing>::empty());
        while i < self.pending.len()
            invariant
                *self == *old(self),
                old(self).wf(),
                old(self).fits(),
                all == self.pending@,
                groups == self.room.groups@,
                i <= all.len(),
                jobs@ == copies(groups, all.take(i as int)),
            decreases all.len() - i,
        {
            let entry: Landing = self.pending[i];
            proof {
                assert(all.take(i + 1).drop_last() =~= all.take(i as int));
                assert(all.take(i + 1).last() == entry);
                assert(self@.pending[i as int] == entry);
                assert(self@.room.names(entry.0 as int, entry.2 as int));
                let group = groups[entry.0 as int];
                assert(spans_fit(group, self.room.pool.slots));
                lemma_lands(group, self.room.pool.slots, entry.1, entry.2);
            }
            push_jobs(&self.room.groups[entry.0], entry.1, entry.2, &mut jobs);
            i += 1;
        }
        self.pending.clear();
        proof {
            assert(all.take(all.len() as int) =~= all);
            assert(self@ =~= old(self)@.drained());
            self.lemma_sat_wf(old(self));
        }
        jobs
    }

    /// The copies were made, or were not, in `ns` of host time.
    pub fn flushed(&mut self, jobs: &Vec<Job>, moved: Result<(), Fault>, ns: u64) -> (done: Result<
        (),
        Fault,
    >)
        requires
            old(self).wf(),
            old(self).counts.swaps + jobs@.len() <= u64::MAX,
            old(self).counts.bytes_read + bytes_moved(jobs@) <= u64::MAX,
            old(self).counts.copy_ns + ns <= u64::MAX,
        ensures
            final(self).wf(),
            final(self).beside(old(self)),
            jobs@.len() == 0 ==> done is Ok && final(self)@ == old(self)@,
            jobs@.len() > 0 && moved is Err ==> done == moved && final(self)@ == old(self)@,
            jobs@.len() > 0 && moved is Ok ==> done is Ok && final(self)@ == (TierView {
                counts: Counts {
                    swaps: (old(self).counts.swaps + jobs@.len()) as u64,
                    bytes_read: (old(self).counts.bytes_read + bytes_moved(jobs@)) as u64,
                    copy_ns: (old(self).counts.copy_ns + ns) as u64,
                    ..old(self).counts
                },
                ..old(self)@
            }),
    {
        if jobs.len() == 0 {
            return Ok(());
        }
        if let Err(why) = moved {
            return Err(why);
        }
        self.counts.swaps = self.counts.swaps + jobs.len() as u64;
        self.counts.bytes_read = self.counts.bytes_read + moved_bytes(jobs);
        self.counts.copy_ns = self.counts.copy_ns + ns;
        Ok(())
    }

    /// Take the read in flight, if any, which ended as `landed` says.
    pub fn join_inflight(&mut self, landed: Result<(), Fault>) -> (done: Result<(), Fault>)
        requires
            old(self).wf(),
        ensures
            final(self).wf(),
            final(self).beside(old(self)),
            final(self)@ == (TierView { inflight: false, ..old(self)@ }),
            done == if old(self).inflight { landed } else { Ok(()) },
    {
        if !self.inflight {
            return Ok(());
        }
        self.inflight = false;
        landed
    }

    /// The group a routing vector belongs to; none, when this load does not
    /// stream it.
    pub fn group_of(&self, routes: ValueId) -> (at: Option<usize>)
        ensures
            at == if self.terms.of_routes@.contains_key(routes.0) {
                Some(self.terms.of_routes@[routes.0])
            } else {
                None
            },
    {
        match self.terms.of_routes.get(&routes.0) {
            Some(at) => Some(*at),
            None => None,
        }
    }

    /// The value a routing vector's prediction is read from.
    pub fn hint_for(&self, routes: ValueId) -> (hint: Option<ValueId>)
        ensures
            hint == if self.terms.hint_of@.contains_key(routes.0) {
                Some(self.terms.hint_of@[routes.0])
            } else {
                None
            },
    {
        match self.terms.hint_of.get(&routes.0) {
            Some(hint) => Some(*hint),
            None => None,
        }
    }
}

} // verus!
