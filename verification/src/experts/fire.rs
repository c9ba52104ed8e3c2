//! A fire from its first cut to its last, and what the tier says of itself.

use vstd::prelude::*;

use crate::experts::plan::Word;
use crate::experts::pool::Hold;
use crate::experts::ring::lend;
use crate::experts::tally::{FireRecord, Tally};
use crate::experts::tier::{Tier, TierView};
use crate::fault::Fault;

verus! {

/// Who sits where, of one group.
#[derive(Debug)]
pub struct GroupResidency {
    pub name: String,
    pub experts: u32,
    pub slots: u32,
    /// The expert of this group in each seat of the pool.
    pub in_seat: Vec<Option<u32>>,
}

/// What the pool has done since the load.
#[derive(Debug, Clone, Copy, PartialEq, Eq, Structural)]
pub struct CacheReport {
    pub policy: Word,
    pub slots: u32,
    pub pairs: u64,
    pub per_slot: u64,
    pub resident: u64,
    pub distinct: u64,
    pub hits: u64,
    pub misses: u64,
    pub bytes_read: u64,
    pub segments: u64,
    pub copy_ns: u64,
    pub wait_ns: u64,
    pub gpu_ns: u64,
    pub ring_fills: u64,
    pub ring_copied: u64,
    pub ring_read: u64,
    pub ring_bytes: u64,
    pub ring_wait_ns: u64,
}

/// The expert of group `at` in each seat.
pub open spec fn seated_of(in_seat: Seq<Option<(u32, u32)>>, at: int) -> Seq<Option<u32>> {
    Seq::new(
        in_seat.len(),
        |s: int|
            match in_seat[s] {
                Some((g, e)) => if g == at {
                    Some(e)
                } else {
                    None
                },
                None => None,
            },
    )
}

/// The expert of group `at` in each seat.
pub fn seats_of(held: &Vec<Option<(u32, u32)>>, at: usize) -> (in_seat: Vec<Option<u32>>)
    ensures
        in_seat@ == seated_of(held@, at as int),
{
    let ghost all = seated_of(held@, at as int);
    let mut in_seat: Vec<Option<u32>> = Vec::new();
    let mut s: usize = 0;
    while s < held.len()
        invariant
            s <= held@.len(),
            all == seated_of(held@, at as int),
            in_seat@ == all.take(s as int),
        decreases held@.len() - s,
    {
        let mut expert: Option<u32> = None;
        if let Some((of, sits)) = held[s] {
            if of as usize == at {
                expert = Some(sits);
            }
        }
        in_seat.push(expert);
        s += 1;
        assert(in_seat@ =~= all.take(s as int));
    }
    assert(all.take(all.len() as int) =~= all);
    in_seat
}

/// Whether some lane has rows enough.
fn any_lane(lane_rows: &[u32], prefill_min: u32) -> (any: bool)
    ensures
        any <==> exists|i: int| 0 <= i < lane_rows@.len() && #[trigger] lane_rows@[i] >= prefill_min,
{
    let mut i: usize = 0;
    while i < lane_rows.len()
        invariant
            i <= lane_rows@.len(),
            forall|j: int| 0 <= j < i ==> lane_rows@[j] < prefill_min,
        decreases lane_rows@.len() - i,
    {
        if lane_rows[i] >= prefill_min {
            return true;
        }
        i += 1;
    }
    false
}

impl Tier {
    /// Open a fire over these lane row counts, at `now` by the caller's
    /// clock, and say whether it is a prefill one. A prefill fire names
    /// nearly every expert of every layer, so it borrows two whole layers of
    /// seats from the pool and runs its routed matmuls over those, leaving
    /// the rest of the pool as the decode left it.
    ///
    /// The fire before this one is over: its last prefetch, which ended as
    /// `landed` says, is taken first, so the seats it is landing in are not
    /// held against this fire's borrow. A fire that never ended, its last
    /// fill having ended as `filled` says, ends now, rather than borrow
    /// twice.
    pub fn begin_fire(
        &mut self,
        lane_rows: &[u32],
        landed: Result<(), Fault>,
        filled: Result<(), Fault>,
        now: u64,
    ) -> (whole: Result<bool, Fault>)
        requires
            old(self).wf(),
        ensures
            final(self).wf(),
            final(self).beside(old(self)),
            ({
                let a = old(self)@.joined(landed is Ok);
                let b = a.returned(filled is Ok);
                if old(self).inflight && landed is Err {
                    &&& final(self)@ == a
                    &&& whole is Err && landed == Err::<(), Fault>(whole->Err_0)
                } else if a.whole && a.filling() && filled is Err {
                    &&& final(self)@ == b
                    &&& whole is Err && filled == Err::<(), Fault>(whole->Err_0)
                } else if !b.prefills(lane_rows@, old(self).terms.prefill_min) {
                    &&& final(self)@ == (TierView { tally: b.tally.opened(now), ..b })
                    &&& whole == Ok::<bool, Fault>(false)
                } else if lend(b.seats, 2 * b.ring->0.experts as nat).ok {
                    &&& final(self)@ == (TierView {
                        tally: b.tally.opened(now),
                        ..b.borrowing()
                    })
                    &&& whole == Ok::<bool, Fault>(true)
                } else {
                    &&& final(self)@ == b.borrowing()
                    &&& whole == Err::<bool, Fault>(old(self).full(0))
                }
            }),
    {
        if let Err(why) = self.join_inflight(landed) {
            return Err(why);
        }
        let ghost a = self@;
        if let Err(why) = self.return_ring(filled) {
            return Err(why);
        }
        let ghost b = self@;
        let prefill_min: u32 = self.terms.prefill_min;
        let whole: bool = prefill_min > 0 && any_lane(lane_rows, prefill_min) && self.ring.is_some();
        self.whole = whole;
        assert(whole == b.prefills(lane_rows@, prefill_min));
        if whole {
            self.whole = false;
            assert(self@ =~= b);
            if let Err(why) = self.borrow_ring() {
                return Err(why);
            }
        }
        self.tally.open(now);
        Ok(whole)
    }

    /// Close the fire: the ring goes back to the pool, and the pool says
    /// what this fire cost it, and whether it is time for the whole report.
    pub fn end_fire(&mut self, rows: u32, walk_ns: u64, filled: Result<(), Fault>) -> (closed: Result<
        (FireRecord, bool),
        Fault,
    >)
        requires
            old(self).wf(),
            old(self).tally.fires < u64::MAX,
        ensures
            final(self).wf(),
            final(self).beside(old(self)),
            ({
                let b = old(self)@.returned(filled is Ok);
                if old(self).whole && old(self)@.filling() && filled is Err {
                    &&& final(self)@ == b
                    &&& closed is Err && filled == Err::<(), Fault>(closed->Err_0)
                } else {
                    let tally = b.tally.closed();
                    &&& final(self)@ == (TierView { tally, ..b })
                    &&& closed == Ok::<(FireRecord, bool), Fault>(
                        (
                            b.tally.record(rows, walk_ns),
                            tally.report_every > 0 && tally.fires % tally.report_every == 0,
                        ),
                    )
                }
            }),
            !final(self).whole,
            forall|s: int|
                0 <= s < final(self)@.seats.pool.holds.len()
                    ==> #[trigger] final(self)@.seats.pool.holds[s] != Hold::Fire,
    {
        if let Err(why) = self.return_ring(filled) {
            return Err(why);
        }
        let record = self.tally.close(rows, walk_ns);
        let due: bool = self.tally.due();
        Ok((record, due))
    }

    /// Who sits where, group by group.
    pub fn residency(&self) -> (groups: Vec<GroupResidency>)
        requires
            self.wf(),
        ensures
            groups@.len() == self.seats.groups@.len(),
            forall|g: int|
                0 <= g < groups@.len() ==> {
                    &&& (#[trigger] groups@[g]).name == self.seats.groups@[g].bands@[0].name
                    &&& groups@[g].experts == self.seats.groups@[g].experts
                    &&& groups@[g].slots == self.seats.pool.slots
                    &&& groups@[g].in_seat@ == seated_of(self@.seats.pool.in_seat, g)
                },
    {
        let slots: u32 = self.seats.pool.slots;
        let mut groups: Vec<GroupResidency> = Vec::new();
        let mut g: usize = 0;
        while g < self.seats.groups.len()
            invariant
                self.wf(),
                slots == self.seats.pool.slots,
                g <= self.seats.groups@.len(),
                groups@.len() == g,
                forall|h: int|
                    0 <= h < g ==> {
                        &&& (#[trigger] groups@[h]).name == self.seats.groups@[h].bands@[0].name
                        &&& groups@[h].experts == self.seats.groups@[h].experts
                        &&& groups@[h].slots == slots
                        &&& groups@[h].in_seat@ == seated_of(self@.seats.pool.in_seat, h)
                    },
            decreases self.seats.groups@.len() - g,
        {
            let group = &self.seats.groups[g];
            groups.push(
                GroupResidency {
                    name: group.bands[0].name.clone(),
                    experts: group.experts,
                    slots,
                    in_seat: seats_of(&self.seats.pool.in_seat, g),
                },
            );
            g += 1;
        }
        groups
    }

    /// What the pool has done since the load.
    pub fn report(&self) -> (report: CacheReport)
        requires
            self.wf(),
        ensures
            report.policy == self.terms.policy,
            report.slots == self.seats.pool.slots,
            report.pairs == self.terms.pairs,
            report.per_slot == self.terms.per_slot,
            report.resident == crate::experts::pool::seated(self@.seats.pool.in_seat),
            report.distinct == self.seats.distinct,
            report.hits == self.tally.hits,
            report.misses == self.tally.misses,
            report.bytes_read == self.tally.bytes_read,
            report.segments == self.tally.segments,
            report.copy_ns == self.tally.copy_ns,
            report.wait_ns == self.tally.wait_ns,
            report.gpu_ns == self.tally.gpu_ns,
            match self@.ring {
                Some(ring) => {
                    &&& report.ring_fills == ring.fills
                    &&& report.ring_copied == ring.copied
                    &&& report.ring_read == ring.read
                    &&& report.ring_bytes == ring.bytes
                    &&& report.ring_wait_ns == ring.wait_ns
                },
                None => {
                    &&& report.ring_fills == 0
                    &&& report.ring_copied == 0
                    &&& report.ring_read == 0
                    &&& report.ring_bytes == 0
                    &&& report.ring_wait_ns == 0
                },
            },
    {
        let (fills, copied, read, bytes, wait_ns): (u64, u64, u64, u64, u64) = match &self.ring {
            Some(ring) => (ring.fills, ring.copied, ring.read, ring.bytes, ring.wait_ns),
            None => (0, 0, 0, 0, 0),
        };
        CacheReport {
            policy: self.terms.policy,
            slots: self.seats.pool.slots,
            pairs: self.terms.pairs,
            per_slot: self.terms.per_slot,
            resident: self.seats.pool.resident() as u64,
            distinct: self.seats.distinct,
            hits: self.tally.hits,
            misses: self.tally.misses,
            bytes_read: self.tally.bytes_read,
            segments: self.tally.segments,
            copy_ns: self.tally.copy_ns,
            wait_ns: self.tally.wait_ns,
            gpu_ns: self.tally.gpu_ns,
            ring_fills: fills,
            ring_copied: copied,
            ring_read: read,
            ring_bytes: bytes,
            ring_wait_ns: wait_ns,
        }
    }

    /// Copies made, and segments cut.
    pub fn motion(&self) -> (moved: (u64, u64))
        ensures
            moved == (self.tally.swaps, self.tally.segments),
    {
        (self.tally.swaps, self.tally.segments)
    }

    /// A cut waited this long on the device, which is idle until the next
    /// commit. If the last segment read from disk this one probably will
    /// too, and the wait is long enough that the clock falls: the answer is
    /// whether to hold it up. If it did not, the gap is tens of microseconds
    /// and a heater kernel would only be in the way, unless the heater is to
    /// run at every gap (`always`).
    pub fn note_wait(&mut self, ns: u64, always: bool) -> (heat: bool)
        requires
            old(self).wf(),
            old(self).tally.wait_ns + ns <= u64::MAX,
        ensures
            final(self).wf(),
            final(self).beside(old(self)),
            heat == (old(self).blocked || always),
            final(self)@ == (TierView {
                tally: Tally {
                    wait_ns: (old(self).tally.wait_ns + ns) as u64,
                    ..old(self).tally
                },
                ..old(self)@
            }),
    {
        self.tally.wait_ns = self.tally.wait_ns + ns;
        assert(self@.ring == old(self)@.ring);
        self.blocked || always
    }

    /// Device time of the fire's final frame, as it lands, and whether to
    /// hold the clock up after it: where the last segment read from disk, or
    /// at every gap (`always`).
    pub fn note_tail(&mut self, ns: u64, always: bool) -> (heat: bool)
        requires
            old(self).wf(),
            old(self).tally.tail_ns + ns <= u64::MAX,
        ensures
            final(self).wf(),
            final(self).beside(old(self)),
            heat == (old(self).blocked || always),
            final(self)@ == (TierView {
                tally: Tally {
                    tail_ns: (old(self).tally.tail_ns + ns) as u64,
                    ..old(self).tally
                },
                ..old(self)@
            }),
    {
        self.tally.tail_ns = self.tally.tail_ns + ns;
        assert(self@.ring == old(self)@.ring);
        self.blocked || always
    }

    /// Device time of a cut frame, as the command buffer reports it.
    pub fn note_gpu(&mut self, ns: u64)
        requires
            old(self).wf(),
            old(self).tally.gpu_ns + ns <= u64::MAX,
        ensures
            final(self).wf(),
            final(self).beside(old(self)),
            final(self)@ == (TierView {
                tally: Tally { gpu_ns: (old(self).tally.gpu_ns + ns) as u64, ..old(self).tally },
                ..old(self)@
            }),
    {
        self.tally.gpu_ns = self.tally.gpu_ns + ns;
        assert(self@.ring == old(self)@.ring);
    }

    /// A cut is over, after this long.
    pub fn note_cut(&mut self, ns: u64)
        requires
            old(self).wf(),
            old(self).tally.cut_ns + ns <= u64::MAX,
        ensures
            final(self).wf(),
            final(self).beside(old(self)),
            final(self)@ == (TierView {
                tally: Tally { cut_ns: (old(self).tally.cut_ns + ns) as u64, ..old(self).tally },
                ..old(self)@
            }),
    {
        self.tally.cut_ns = self.tally.cut_ns + ns;
        assert(self@.ring == old(self)@.ring);
    }
}

} // verus!
