//! Bytes on their way into seats: what the tier does before and after the
//! caller moves them.

use vstd::prelude::*;

use crate::experts::deciding::{
    bytes_moved, lemma_bytes_moved_mono, lemma_bytes_moved_step, Job, Landing,
};
use crate::experts::pool::Hold;
use crate::experts::seats::{lemma_assign, lemma_strip, lemma_touch, SeatsView};
use crate::experts::tally::Tally;
use crate::experts::tier::{
    assigned, in_the_air, keeps_held, lemma_assigned, lemma_keeps_held, lends_no_more, Seating,
    Tier, TierView,
};
use crate::fault::{Fault, What};

verus! {

/// How many bytes copies move.
pub fn moved_bytes(jobs: &Vec<Job>) -> (bytes: u64)
    requires
        bytes_moved(jobs@) <= u64::MAX,
    ensures
        bytes == bytes_moved(jobs@),
{
    let mut bytes: u64 = 0;
    let mut i: usize = 0;
    while i < jobs.len()
        invariant
            i <= jobs@.len(),
            bytes_moved(jobs@) <= u64::MAX,
            bytes == bytes_moved(jobs@.take(i as int)),
        decreases jobs@.len() - i,
    {
        proof {
            lemma_bytes_moved_step(jobs@, i as int);
            lemma_bytes_moved_mono(jobs@, i + 1);
        }
        bytes += jobs[i].2;
        i += 1;
    }
    assert(jobs@.take(jobs@.len() as int) =~= jobs@);
    bytes
}

/// The part of a source of `have` bytes that a copy of `len` bytes from
/// byte `from` reads, or why there is none.
pub fn source_span(from: u64, len: u64, have: u64) -> (span: Result<(usize, usize), Fault>)
    requires
        have <= usize::MAX,
        from + len <= u64::MAX,
    ensures
        match span {
            Ok((start, end)) => start == from && end == from + len && from + len <= have,
            Err(fault) => from + len > have && fault == (Fault::Ceiling {
                what: What::SeatSource,
                need: (from + len) as u64,
                have,
            }),
        },
{
    let need: u64 = from + len;
    if need > have {
        Err(Fault::Ceiling { what: What::SeatSource, need, have })
    } else {
        Ok((from as usize, need as usize))
    }
}

/// A landing undone: its seats go back to the pool, in order.
pub open spec fn stripped(v: SeatsView, landing: Seq<Landing>) -> SeatsView
    decreases landing.len(),
{
    if landing.len() == 0 {
        v
    } else {
        let w = stripped(v, landing.drop_last());
        w.with_pool(w.pool.strip(landing.last().1))
    }
}

/// The read in flight taken: what landed is let go of and made resident.
pub open spec fn taken_in(v: SeatsView, landing: Seq<Landing>) -> SeatsView
    decreases landing.len(),
{
    if landing.len() == 0 {
        v
    } else {
        let w = taken_in(v, landing.drop_last());
        let (g, s, e) = landing.last();
        w.with_pool(w.pool.hold(s, Hold::Free)).assign(g as int, s, e)
    }
}

/// What taking the read in flight does to the seats: an expert that landed
/// sits in its seat; one whose read refused leaves its seat empty and free.
pub open spec fn joined(v: SeatsView, landing: Seq<Landing>, ok: bool) -> SeatsView {
    if ok {
        taken_in(v, landing)
    } else {
        stripped(v, landing)
    }
}

/// Joining one landing after another: the invariant stays, and a seat that
/// is not of the landing and was empty stays empty and held as it was.
pub proof fn lemma_joined(v: SeatsView, landing: Seq<Landing>, ok: bool)
    requires
        v.inv(),
        in_the_air(v, landing, Hold::Inflight),
    ensures
        joined(v, landing, ok).inv(),
        joined(v, landing, ok).pool.holds.len() == v.pool.holds.len(),
        joined(v, landing, ok).seat_of.len() == v.seat_of.len(),
        lends_no_more(v, joined(v, landing, ok)),
        forall|g: int|
            0 <= g < v.seat_of.len() ==> (#[trigger] joined(v, landing, ok).seat_of[g]).len()
                == v.seat_of[g].len(),
        forall|s: int|
            #![trigger joined(v, landing, ok).pool.holds[s]]
            #![trigger joined(v, landing, ok).pool.in_seat[s]]
            0 <= s < v.pool.holds.len() && v.pool.in_seat[s] is None && (forall|i: int|
                0 <= i < landing.len() ==> (#[trigger] landing[i]).1 != s) ==> {
                &&& joined(v, landing, ok).pool.in_seat[s] is None
                &&& joined(v, landing, ok).pool.holds[s] == v.pool.holds[s]
            },
    decreases landing.len(),
{
    if landing.len() > 0 {
        let head = landing.drop_last();
        let last = landing.last();
        assert(in_the_air(v, head, Hold::Inflight)) by {
            assert forall|i: int| 0 <= i < head.len() implies #[trigger] head[i] == landing[i] by {}
            assert forall|i: int, j: int| 0 <= i < j < head.len() implies (#[trigger] head[i]).1 != (
            #[trigger] head[j]).1 by {
                assert(head[i] == landing[i] && head[j] == landing[j]);
            }
        }
        lemma_joined(v, head, ok);
        let w = joined(v, head, ok);
        let x = joined(v, landing, ok);
        assert(landing[landing.len() - 1] == last);
        let s = last.1;
        assert forall|i: int| 0 <= i < head.len() implies (#[trigger] head[i]).1 != s by {
            assert(head[i] == landing[i]);
        }
        assert(w.pool.in_seat[s as int] is None);
        assert(w.pool.holds[s as int] == Hold::Inflight);
        assert(!w.pool.free.contains(s));
        assert(w.pool.list.contains(s));
        assert(w.names(last.0 as int, last.2 as int)) by {
            assert(v.names(last.0 as int, last.2 as int));
            assert(w.seat_of[last.0 as int].len() == v.seat_of[last.0 as int].len());
        }
        if ok {
            lemma_touch(w, s, Hold::Free);
            let y = w.with_pool(w.pool.hold(s, Hold::Free));
            lemma_assign(y, last.0 as int, s, last.2);
            assert(x == y.assign(last.0 as int, s, last.2));
            assert(y.seat(last.0 as int, last.2 as int) == w.seat(last.0 as int, last.2 as int));
        } else {
            lemma_strip(w, s);
        }
        assert forall|q: int|
            #![trigger x.pool.holds[q]]
            #![trigger x.pool.in_seat[q]]
            0 <= q < v.pool.holds.len() && v.pool.in_seat[q] is None && (forall|i: int|
                0 <= i < landing.len() ==> (#[trigger] landing[i]).1 != q) implies {
            &&& x.pool.in_seat[q] is None
            &&& x.pool.holds[q] == v.pool.holds[q]
        } by {
            assert(landing[landing.len() - 1].1 != q);
            assert forall|i: int| 0 <= i < head.len() implies (#[trigger] head[i]).1 != q by {
                assert(head[i] == landing[i]);
            }
            assert(w.pool.in_seat[q] is None);
            match w.seat(last.0 as int, last.2 as int) {
                Some(was) => {
                    assert(w.pool.in_seat[was as int] is Some);
                    assert(was != q);
                },
                None => {},
            }
        }
    }
}

impl TierView {
    /// The read in flight, taken.
    pub open spec fn joined(self, ok: bool) -> TierView {
        if self.inflight {
            TierView {
                seats: joined(self.seats, self.landing, ok),
                landing: Seq::empty(),
                inflight: false,
                ..self
            }
        } else {
            self
        }
    }

    /// The bytes of a seating moved, and its experts resident.
    pub open spec fn landed(self, jobs: Seq<Job>, landing: Seq<Landing>, ns: u64) -> TierView {
        TierView {
            seats: assigned(self.seats, landing),
            tally: Tally {
                swaps: (self.tally.swaps + jobs.len()) as u64,
                bytes_read: (self.tally.bytes_read + bytes_moved(jobs)) as u64,
                copy_ns: (self.tally.copy_ns + ns) as u64,
                ..self.tally
            },
            blocked: true,
            ..self
        }
    }
}

impl Tier {
    /// The bytes this seating asked for were moved, or were not, in `ns` of
    /// host time: say the experts are resident. Nothing is resident before
    /// its bytes are there: a read that refuses leaves an empty seat, not a
    /// false hit.
    pub fn land(&mut self, seating: Seating, moved: Result<(), Fault>, ns: u64) -> (done: Result<
        (),
        Fault,
    >)
        requires
            old(self).wf(),
            in_the_air(old(self)@.seats, seating.landing@, Hold::Segment),
            seating.jobs@.len() == 0 <==> seating.landing@.len() == 0,
            old(self).tally.swaps + seating.jobs@.len() <= u64::MAX,
            old(self).tally.bytes_read + bytes_moved(seating.jobs@) <= u64::MAX,
            old(self).tally.copy_ns + ns <= u64::MAX,
        ensures
            final(self).wf(),
            final(self).beside(old(self)),
            seating.jobs@.len() == 0 ==> done is Ok && final(self)@ == (TierView {
                blocked: false,
                ..old(self)@
            }),
            seating.jobs@.len() > 0 && moved is Err ==> done == moved && final(self)@ == (TierView {
                blocked: true,
                ..old(self)@
            }),
            seating.jobs@.len() > 0 && moved is Ok ==> done is Ok && final(self)@ == old(self)@.landed(
                seating.jobs@,
                seating.landing@,
                ns,
            ),
    {
        self.blocked = seating.jobs.len() > 0;
        if seating.jobs.len() == 0 {
            return Ok(());
        }
        if let Err(why) = moved {
            return Err(why);
        }
        self.tally.swaps = self.tally.swaps + seating.jobs.len() as u64;
        self.tally.bytes_read = self.tally.bytes_read + moved_bytes(&seating.jobs);
        self.tally.copy_ns = self.tally.copy_ns + ns;
        let ghost v = self.seats@;
        let ghost all = seating.landing@;
        let mut i: usize = 0;
        assert(all.take(0) =~= Seq::<Landing>::empty());
        while i < seating.landing.len()
            invariant
                i <= seating.landing@.len(),
                all == seating.landing@,
                v.inv(),
                in_the_air(v, all, Hold::Segment),
                self.seats.wf(),
                self.seats.beside(&old(self).seats),
                self.seats@ == assigned(v, all.take(i as int)),
                *self == (Tier {
                    seats: self.seats,
                    tally: self.tally,
                    blocked: true,
                    ..*old(self)
                }),
                self.tally == old(self)@.landed(seating.jobs@, all, ns).tally,
            decreases seating.landing@.len() - i,
        {
            let entry: Landing = seating.landing[i];
            proof {
                let head = all.take(i as int);
                lemma_part_in_the_air(v, all, i as int, Hold::Segment);
                lemma_part_in_the_air(v, all, i + 1, Hold::Segment);
                lemma_assigned(v, head, Hold::Segment);
                assert(all.take(i + 1).drop_last() =~= head);
                assert(all.take(i + 1).last() == entry);
                let w = assigned(v, head);
                assert(all[i as int] == entry);
                assert forall|j: int| 0 <= j < head.len() implies (#[trigger] head[j]).1 != entry.1 by {
                    assert(head[j] == all[j]);
                }
                assert(w.pool.in_seat[entry.1 as int] is None);
                assert(w.pool.holds[entry.1 as int] == Hold::Segment);
                assert(!w.pool.free.contains(entry.1));
                assert(w.pool.list.contains(entry.1));
                assert(v.names(entry.0 as int, entry.2 as int));
                assert(w.seat_of[entry.0 as int].len() == v.seat_of[entry.0 as int].len());
            }
            self.seats.assign(entry.0, entry.1, entry.2);
            i += 1;
        }
        proof {
            assert(all.take(all.len() as int) =~= all);
            lemma_assigned(v, all, Hold::Segment);
            self.lemma_landed_wf(old(self), all);
        }
        Ok(())
    }

    proof fn lemma_landed_wf(&self, before: &Tier, all: Seq<Landing>)
        requires
            before.wf(),
            in_the_air(before.seats@, all, Hold::Segment),
            self.seats.wf(),
            self.seats.beside(&before.seats),
            self.seats@ == assigned(before.seats@, all),
            self.tally.wf(),
            *self == (Tier { seats: self.seats, tally: self.tally, blocked: true, ..*before }),
        ensures
            self.wf(),
    {
        let v = before.seats@;
        lemma_assigned(v, all, Hold::Segment);
        assert(keeps_held(v, self.seats@)) by {
            assert forall|s: int|
                0 <= s < v.pool.holds.len() && (v.pool.holds[s] == Hold::Fire || v.pool.holds[s]
                    == Hold::Inflight) && v.pool.in_seat[s] is None implies {
                &&& #[trigger] self.seats@.pool.holds[s] == v.pool.holds[s]
                &&& self.seats@.pool.in_seat[s] is None
            } by {
                assert forall|i: int| 0 <= i < all.len() implies (#[trigger] all[i]).1 != s by {}
                assert(assigned(v, all).pool.in_seat[s] is None);
            }
        }
        let lent = match before@.ring {
            Some(ring) => ring.seats,
            None => Seq::empty(),
        };
        lemma_keeps_held(v, self.seats@, before.landing@, lent);
        assert(self@.ring == before@.ring);
    }

    /// Take the read in flight, if any, which ended as `landed` says, and
    /// make what it landed resident. A read that refused leaves its seats
    /// empty and free.
    pub fn join_inflight(&mut self, landed: Result<(), Fault>) -> (done: Result<(), Fault>)
        requires
            old(self).wf(),
        ensures
            final(self).wf(),
            final(self).beside(old(self)),
            final(self)@ == old(self)@.joined(landed is Ok),
            done == if old(self).inflight { landed } else { Ok(()) },
            !final(self).inflight,
    {
        if !self.inflight {
            return Ok(());
        }
        let ok: bool = landed.is_ok();
        let ghost v = self.seats@;
        let ghost all = self.landing@;
        let mut i: usize = 0;
        assert(all.take(0) =~= Seq::<Landing>::empty());
        while i < self.landing.len()
            invariant
                i <= all.len(),
                all == self.landing@,
                old(self).wf(),
                v == old(self).seats@,
                v.inv(),
                in_the_air(v, all, Hold::Inflight),
                self.seats.wf(),
                self.seats.beside(&old(self).seats),
                self.seats@ == joined(v, all.take(i as int), ok),
                *self == (Tier { seats: self.seats, ..*old(self) }),
            decreases all.len() - i,
        {
            let entry: Landing = self.landing[i];
            proof {
                let head = all.take(i as int);
                lemma_part_in_the_air(v, all, i as int, Hold::Inflight);
                lemma_joined(v, head, ok);
                assert(all.take(i + 1).drop_last() =~= head);
                assert(all.take(i + 1).last() == entry);
                let w = joined(v, head, ok);
                assert(all[i as int] == entry);
                assert forall|j: int| 0 <= j < head.len() implies (#[trigger] head[j]).1 != entry.1 by {
                    assert(head[j] == all[j]);
                }
                assert(w.pool.in_seat[entry.1 as int] is None);
                assert(w.pool.holds[entry.1 as int] == Hold::Inflight);
                assert(!w.pool.free.contains(entry.1));
                assert(w.pool.list.contains(entry.1));
                assert(v.names(entry.0 as int, entry.2 as int));
                assert(w.seat_of[entry.0 as int].len() == v.seat_of[entry.0 as int].len());
                lemma_touch(w, entry.1, Hold::Free);
                lemma_strip(w, entry.1);
                if !ok {
                    let y = w.with_pool(w.pool.hold(entry.1, Hold::Free));
                    lemma_strip(y, entry.1);
                    assert(y.pool.strip(entry.1) =~= w.pool.strip(entry.1));
                }
            }
            self.seats.pool.hold(entry.1, Hold::Free);
            assert(self.seats@ =~= joined(v, all.take(i as int), ok).with_pool(
                joined(v, all.take(i as int), ok).pool.hold(entry.1, Hold::Free),
            ));
            if ok {
                self.seats.assign(entry.0, entry.1, entry.2);
            } else {
                self.seats.pool.strip(entry.1);
                assert(self.seats@ =~= joined(v, all.take(i + 1), ok));
            }
            i += 1;
        }
        self.landing.clear();
        self.inflight = false;
        proof {
            assert(all.take(all.len() as int) =~= all);
            lemma_joined(v, all, ok);
            self.lemma_joined_wf(old(self), all, ok);
            assert(self@ =~= old(self)@.joined(ok));
        }
        landed
    }

    /// Seats held for a read that never started go back to the pool.
    pub fn give_up(&mut self, landing: &Vec<Landing>)
        requires
            old(self).wf(),
            !old(self).inflight,
            in_the_air(old(self)@.seats, landing@, Hold::Inflight),
        ensures
            final(self).wf(),
            final(self).beside(old(self)),
            final(self)@ == (TierView {
                seats: stripped(old(self)@.seats, landing@),
                ..old(self)@
            }),
    {
        let ghost v = self.seats@;
        let ghost all = landing@;
        let mut i: usize = 0;
        assert(all.take(0) =~= Seq::<Landing>::empty());
        while i < landing.len()
            invariant
                i <= all.len(),
                all == landing@,
                v.inv(),
                in_the_air(v, all, Hold::Inflight),
                self.seats.wf(),
                self.seats.beside(&old(self).seats),
                self.seats@ == stripped(v, all.take(i as int)),
                *self == (Tier { seats: self.seats, ..*old(self) }),
            decreases all.len() - i,
        {
            let seat: u32 = landing[i].1;
            proof {
                let head = all.take(i as int);
                lemma_part_in_the_air(v, all, i as int, Hold::Inflight);
                lemma_joined(v, head, false);
                assert(all.take(i + 1).drop_last() =~= head);
                assert(all[i as int].1 == seat);
                assert forall|j: int| 0 <= j < head.len() implies (#[trigger] head[j]).1 != seat by {
                    assert(head[j] == all[j]);
                }
                let w = joined(v, head, false);
                assert(w.pool.in_seat[seat as int] is None);
                assert(w.pool.holds[seat as int] == Hold::Inflight);
                assert(!w.pool.free.contains(seat));
                assert(w.pool.list.contains(seat));
                lemma_strip(w, seat);
            }
            self.seats.pool.strip(seat);
            assert(self.seats@ =~= stripped(v, all.take(i + 1)));
            i += 1;
        }
        proof {
            assert(all.take(all.len() as int) =~= all);
            lemma_joined(v, all, false);
            self.lemma_joined_wf(old(self), all, false);
        }
    }

    proof fn lemma_joined_wf(&self, before: &Tier, all: Seq<Landing>, ok: bool)
        requires
            before.wf(),
            self.seats.wf(),
            self.seats.beside(&before.seats),
            in_the_air(before.seats@, all, Hold::Inflight),
            self.seats@ == joined(before.seats@, all, ok),
            self.landing@.len() == 0,
            !self.inflight,
            self.ring == before.ring,
            self.tally == before.tally,
            self.whole == before.whole,
            self.predicted == before.predicted,
            self.terms == before.terms,
        ensures
            self.wf(),
    {
        let v = before.seats@;
        lemma_joined(v, all, ok);
        assert(self@.ring == before@.ring);
        if let Some(ring) = self@.ring {
            if self.whole {
                assert forall|i: int| 0 <= i < ring.seats.len() implies {
                    &&& #[trigger] ring.seats[i] < self.seats@.pool.holds.len()
                    &&& self.seats@.pool.holds[ring.seats[i] as int] == Hold::Fire
                    &&& self.seats@.pool.in_seat[ring.seats[i] as int] is None
                } by {
                    let s = ring.seats[i] as int;
                    assert forall|j: int| 0 <= j < all.len() implies (#[trigger] all[j]).1 != s by {}
                    assert(joined(v, all, ok).pool.in_seat[s] is None);
                }
            }
        }
    }
}

/// Part of a landing in the air is in the air.
pub proof fn lemma_part_in_the_air(v: SeatsView, all: Seq<Landing>, n: int, hold: Hold)
    requires
        0 <= n <= all.len(),
        in_the_air(v, all, hold),
    ensures
        in_the_air(v, all.take(n), hold),
{
    let head = all.take(n);
    assert forall|i: int| 0 <= i < head.len() implies #[trigger] head[i] == all[i] by {}
    assert forall|i: int, j: int| 0 <= i < j < head.len() implies (#[trigger] head[i]).1 != (
    #[trigger] head[j]).1 by {
        assert(head[i] == all[i] && head[j] == all[j]);
    }
}

} // verus!
