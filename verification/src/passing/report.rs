//! What a tier in passes says of itself.

use vstd::prelude::*;

use crate::experts::fire::{seated_of, seats_of, CacheReport, GroupResidency};
use crate::experts::pool::{count_seated, seated};
use crate::experts::tally::Prediction;
use crate::passing::tier::{Counts, Tier, TierView};

verus! {

impl Tier {
    /// Who sits where, group by group.
    pub fn residency(&self) -> (groups: Vec<GroupResidency>)
        requires
            self.wf(),
        ensures
            groups@.len() == self.room.groups@.len(),
            forall|g: int|
                0 <= g < groups@.len() ==> {
                    &&& (#[trigger] groups@[g]).name == self.room.groups@[g].bands@[0].name
                    &&& groups@[g].experts == self.room.groups@[g].experts
                    &&& groups@[g].slots == self.room.pool.slots
                    &&& groups@[g].in_seat@ == seated_of(self@.room.in_seat, g)
                },
    {
        let slots: u32 = self.room.pool.slots;
        let mut groups: Vec<GroupResidency> = Vec::new();
        let mut g: usize = 0;
        while g < self.room.groups.len()
            invariant
                self.wf(),
                slots == self.room.pool.slots,
                g <= self.room.groups@.len(),
                groups@.len() == g,
                forall|h: int|
                    0 <= h < g ==> {
                        &&& (#[trigger] groups@[h]).name == self.room.groups@[h].bands@[0].name
                        &&& groups@[h].experts == self.room.groups@[h].experts
                        &&& groups@[h].slots == slots
                        &&& groups@[h].in_seat@ == seated_of(self@.room.in_seat, h)
                    },
            decreases self.room.groups@.len() - g,
        {
            let group = &self.room.groups[g];
            groups.push(
                GroupResidency {
                    name: group.bands[0].name.clone(),
                    experts: group.experts,
                    slots,
                    in_seat: seats_of(&self.room.pool.in_seat, g),
                },
            );
            g += 1;
        }
        groups
    }

    /// What the pool has done since the load. A pool in passes has no ring.
    pub fn report(&self) -> (report: CacheReport)
        requires
            self.wf(),
        ensures
            report.resident == seated(self@.room.in_seat),
            report == (CacheReport {
                policy: self.terms.policy,
                slots: self.room.pool.slots,
                pairs: self.terms.pairs,
                per_slot: self.terms.per_slot,
                resident: report.resident,
                distinct: self.room.distinct,
                hits: self.counts.hits,
                misses: self.counts.misses,
                bytes_read: self.counts.bytes_read,
                segments: self.counts.segments,
                copy_ns: self.counts.copy_ns,
                wait_ns: self.counts.wait_ns,
                gpu_ns: self.counts.gpu_ns,
                ring_fills: 0,
                ring_copied: 0,
                ring_read: 0,
                ring_bytes: 0,
                ring_wait_ns: 0,
            }),
    {
        CacheReport {
            policy: self.terms.policy,
            slots: self.room.pool.slots,
            pairs: self.terms.pairs,
            per_slot: self.terms.per_slot,
            resident: count_seated(&self.room.pool.in_seat),
            distinct: self.room.distinct,
            hits: self.counts.hits,
            misses: self.counts.misses,
            bytes_read: self.counts.bytes_read,
            segments: self.counts.segments,
            copy_ns: self.counts.copy_ns,
            wait_ns: self.counts.wait_ns,
            gpu_ns: self.counts.gpu_ns,
            ring_fills: 0,
            ring_copied: 0,
            ring_read: 0,
            ring_bytes: 0,
            ring_wait_ns: 0,
        }
    }

    /// Copies made, and segments cut.
    pub fn motion(&self) -> (moved: (u64, u64))
        ensures
            moved == (self.counts.swaps, self.counts.segments),
    {
        (self.counts.swaps, self.counts.segments)
    }

    /// Experts found seated, and experts that had to be read.
    pub fn hits(&self) -> (looked: (u64, u64))
        ensures
            looked == (self.counts.hits, self.counts.misses),
    {
        (self.counts.hits, self.counts.misses)
    }

    pub fn bytes_read(&self) -> (bytes: u64)
        ensures
            bytes == self.counts.bytes_read,
    {
        self.counts.bytes_read
    }

    pub fn prediction(&self) -> (prediction: Prediction)
        ensures
            prediction == self.counts.prediction,
    {
        self.counts.prediction
    }

    /// Host time in cuts, in copies, and waiting on the device.
    pub fn host_time(&self) -> (ns: (u64, u64, u64))
        ensures
            ns == (self.counts.cut_ns, self.counts.copy_ns, self.counts.wait_ns),
    {
        (self.counts.cut_ns, self.counts.copy_ns, self.counts.wait_ns)
    }

    /// Device time in the cut frames.
    pub fn gpu_ns(&self) -> (ns: u64)
        ensures
            ns == self.counts.gpu_ns,
    {
        self.counts.gpu_ns
    }

    /// A cut waited this long on the device.
    pub fn note_wait(&mut self, ns: u64)
        requires
            old(self).wf(),
            old(self).counts.wait_ns + ns <= u64::MAX,
        ensures
            final(self).wf(),
            final(self).beside(old(self)),
            final(self)@ == (TierView {
                counts: Counts {
                    wait_ns: (old(self).counts.wait_ns + ns) as u64,
                    ..old(self).counts
                },
                ..old(self)@
            }),
    {
        self.counts.wait_ns = self.counts.wait_ns + ns;
    }

    /// Device time of a cut frame, as the command buffer reports it.
    pub fn note_gpu(&mut self, ns: u64)
        requires
            old(self).wf(),
            old(self).counts.gpu_ns + ns <= u64::MAX,
        ensures
            final(self).wf(),
            final(self).beside(old(self)),
            final(self)@ == (TierView {
                counts: Counts { gpu_ns: (old(self).counts.gpu_ns + ns) as u64, ..old(self).counts },
                ..old(self)@
            }),
    {
        self.counts.gpu_ns = self.counts.gpu_ns + ns;
    }

    /// A cut is over, after this long.
    pub fn note_cut(&mut self, ns: u64)
        requires
            old(self).wf(),
            old(self).counts.cut_ns + ns <= u64::MAX,
        ensures
            final(self).wf(),
            final(self).beside(old(self)),
            final(self)@ == (TierView {
                counts: Counts { cut_ns: (old(self).counts.cut_ns + ns) as u64, ..old(self).counts },
                ..old(self)@
            }),
    {
        self.counts.cut_ns = self.counts.cut_ns + ns;
    }
}

} // verus!
