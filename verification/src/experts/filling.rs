//! A prefill segment: which half holds the layer, how the other is filled,
//! and what the routing vector may name.

use vstd::prelude::*;

use crate::experts::deciding::{bytes_moved, jobs_of, Job};
use crate::experts::landing::moved_bytes;
use crate::experts::ring::{half, with_half};
use crate::experts::seats::Band;
use crate::experts::tally::Tally;
use crate::experts::tier::{lemma_address, spans_fit, RingView, Tier, TierView};
use crate::fault::{Fault, Refusal};
use crate::ids::{id_at, ids};

verus! {

/// What filling one half of the ring with one group takes: the copies out
/// of seats the pool holds, the reads of everything else, and how many
/// experts each is for.
#[derive(Debug)]
pub struct Fill {
    pub group: usize,
    pub half: usize,
    pub copies: Vec<Job>,
    pub reads: Vec<Job>,
    pub copied: u64,
    pub read: u64,
}

pub struct FillView {
    pub copies: Seq<Job>,
    pub reads: Seq<Job>,
    pub copied: nat,
    pub read: nat,
}

impl View for Fill {
    type V = FillView;

    open spec fn view(&self) -> FillView {
        FillView {
            copies: self.copies@,
            reads: self.reads@,
            copied: self.copied as nat,
            read: self.read as nat,
        }
    }
}

/// The copies that take an expert from one seat to another: one per band.
pub open spec fn copies_of(bands: Seq<Band>, to: u32, from: u32) -> Seq<Job> {
    Seq::new(
        bands.len(),
        |b: int|
            (
                (bands[b].at + to * bands[b].stride) as u64,
                (bands[b].at + from * bands[b].stride) as u64,
                bands[b].stride,
            ),
    )
}

/// The first `n` experts of a group brought into the seats of a half: from
/// its own seat where the pool holds it, from the source where it does not.
pub open spec fn fill(bands: Seq<Band>, seat_of: Seq<Option<u32>>, into: Seq<u32>, n: nat) -> FillView
    decreases n,
{
    if n == 0 {
        FillView { copies: Seq::empty(), reads: Seq::empty(), copied: 0, read: 0 }
    } else {
        let e = (n - 1) as nat;
        let f = fill(bands, seat_of, into, e);
        match seat_of[e as int] {
            Some(seat) => FillView {
                copies: f.copies + copies_of(bands, into[e as int], seat),
                copied: f.copied + 1,
                ..f
            },
            None => FillView {
                reads: f.reads + jobs_of(bands, into[e as int], e as u32),
                read: f.read + 1,
                ..f
            },
        }
    }
}

/// The seats of half `h`.
pub open spec fn half_seats(ring: RingView, h: int) -> Seq<u32> {
    ring.seats.subrange(h * ring.experts, (h + 1) * ring.experts)
}

/// The half that holds group `at`.
pub open spec fn holder(holds: (Option<usize>, Option<usize>), at: usize) -> Option<usize> {
    if holds.0 == Some(at) {
        Some(0)
    } else if holds.1 == Some(at) {
        Some(1)
    } else {
        None
    }
}

/// The half a layer nothing was ahead of is filled into: the one the layer
/// before it does not sit in.
pub open spec fn spare(holds: (Option<usize>, Option<usize>), at: usize) -> usize {
    if at > 0 && holds.0 == Some((at - 1) as usize) {
        1
    } else {
        0
    }
}

/// What a cut finds of its layer in the ring.
#[derive(Debug, Clone, Copy, PartialEq, Eq, Structural)]
pub enum Ready {
    /// This half holds it.
    Held(usize),
    /// Nothing was ahead of it: this half is to be filled with it.
    Fill(usize),
}

/// The ids that name an expert.
pub open spec fn looked_up(ids: Seq<i32>) -> nat
    decreases ids.len(),
{
    if ids.len() == 0 {
        0
    } else {
        looked_up(ids.drop_last()) + if ids.last() < 0 { 0nat } else { 1 }
    }
}

/// The first id that names an expert there is not.
pub open spec fn first_outside(ids: Seq<i32>, experts: u32) -> Option<u32>
    decreases ids.len(),
{
    if ids.len() == 0 {
        None
    } else if first_outside(ids.drop_last(), experts) is Some {
        first_outside(ids.drop_last(), experts)
    } else if ids.last() >= 0 && ids.last() >= experts {
        Some(ids.last() as u32)
    } else {
        None
    }
}

/// An id outside stays the first one whatever follows it.
pub proof fn lemma_first_outside(ids: Seq<i32>, experts: u32, n: int)
    requires
        0 <= n <= ids.len(),
        first_outside(ids.take(n), experts) is Some,
    ensures
        first_outside(ids, experts) == first_outside(ids.take(n), experts),
    decreases ids.len() - n,
{
    if n == ids.len() {
        assert(ids.take(n) =~= ids);
    } else {
        assert(ids.take(n + 1).drop_last() =~= ids.take(n));
        lemma_first_outside(ids, experts, n + 1);
    }
}

impl TierView {
    /// A fill under way: its work counted, and the half no longer holding
    /// what it held.
    pub open spec fn fill_started(self, group: usize, h: usize, fill: FillView) -> TierView {
        let ring = self.ring->0;
        let bytes = bytes_moved(fill.reads);
        TierView {
            tally: Tally {
                bytes_read: (self.tally.bytes_read + bytes) as u64,
                swaps: (self.tally.swaps + fill.copies.len() + fill.reads.len()) as u64,
                ..self.tally
            },
            ring: Some(
                RingView {
                    fills: (ring.fills + 1) as u64,
                    copied: (ring.copied + fill.copied) as u64,
                    read: (ring.read + fill.read) as u64,
                    bytes: (ring.bytes + bytes) as u64,
                    holds: with_half(ring.holds, h as int, None),
                    filling: Some((group, h)),
                    ..ring
                },
            ),
            ..self
        }
    }

    /// Whether the ring holds group `at`, or will once the fill under way
    /// has landed.
    pub open spec fn has(self, at: usize) -> bool {
        self.ring matches Some(ring) && {
            ||| holder(ring.holds, at) is Some
            ||| ring.filling matches Some((g, _)) && g == at
        }
    }
}

impl Tier {
    /// Whether the ring holds group `at`, or will once the fill under way
    /// has landed.
    pub fn ring_has(&self, at: usize) -> (has: bool)
        ensures
            has == self@.has(at),
    {
        match &self.ring {
            None => false,
            Some(ring) => {
                if ring.holds.0 == Some(at) || ring.holds.1 == Some(at) {
                    return true;
                }
                match ring.filling {
                    Some((group, _)) => group == at,
                    None => false,
                }
            },
        }
    }

    /// The half holding group `at`, once the fill under way, if any, was
    /// joined as `filled` says after `waited` nanoseconds; or the half to
    /// fill with it now, if no fill was ahead. Either half is free then, the
    /// cut having waited for the device, but the one the layer before it
    /// used is kept.
    pub fn ring_ready(&mut self, at: usize, filled: Result<(), Fault>, waited: u64) -> (ready: Result<
        Ready,
        Fault,
    >)
        requires
            old(self).wf(),
            old(self).whole,
            old(self)@.ring matches Some(ring) ==> ring.wait_ns + waited <= u64::MAX,
        ensures
            final(self).wf(),
            final(self).beside(old(self)),
            final(self)@ == old(self)@.ring_joined(filled is Ok, Some(at), waited),
            match ready {
                Err(fault) => old(self)@.filling() && filled == Err::<(), Fault>(fault),
                Ok(ready) => {
                    let holds = final(self)@.ring->0.holds;
                    &&& !old(self)@.filling() || filled is Ok
                    &&& ready == match holder(holds, at) {
                        Some(h) => Ready::Held(h),
                        None => Ready::Fill(spare(holds, at)),
                    }
                    &&& ready is Fill ==> !final(self)@.has(at)
                },
            },
    {
        if let Err(why) = self.ring_join(Some(at), filled, waited) {
            return Err(why);
        }
        match &self.ring {
            None => Ok(Ready::Fill(0)),
            Some(ring) => {
                if ring.holds.0 == Some(at) {
                    Ok(Ready::Held(0))
                } else if ring.holds.1 == Some(at) {
                    Ok(Ready::Held(1))
                } else if at > 0 && ring.holds.0 == Some(at - 1) {
                    Ok(Ready::Fill(1))
                } else {
                    Ok(Ready::Fill(0))
                }
            },
        }
    }

    /// The seats of half `h`, one per expert of the layer it holds.
    pub fn ring_seats(&self, h: usize) -> (seats: Vec<u32>)
        requires
            self.wf(),
            self.whole,
            h < 2,
        ensures
            seats@ == half_seats(self@.ring->0, h as int),
            seats@.len() == self@.ring->0.experts,
    {
        let mut seats: Vec<u32> = Vec::new();
        if let Some(ring) = &self.ring {
            let experts: usize = ring.experts as usize;
            let from: usize = if h == 0 { 0 } else { experts };
            let ghost all = half_seats(ring@, h as int);
            let mut e: usize = 0;
            assert(h * ring@.experts == from && (h + 1) * ring@.experts == from + experts) by (nonlinear_arith)
                requires
                    h == 0 || h == 1,
                    experts == ring@.experts,
                    h == 0 ==> from == 0,
                    h == 1 ==> from == experts,
            ;
            while e < experts
                invariant
                    e <= experts,
                    from <= experts,
                    from + experts <= ring.seats@.len(),
                    all == ring.seats@.subrange(from as int, from + experts),
                    seats@ == all.take(e as int),
                decreases experts - e,
            {
                let len: usize = ring.seats.len();
                assert(from + e < len);
                seats.push(ring.seats[from + e]);
                e += 1;
                assert(seats@ =~= all.take(e as int));
            }
            assert(all.take(experts as int) =~= all);
        }
        seats
    }

    /// What filling half `h` with every expert of `group` takes: seats the
    /// pool holds are copied, the rest are read.
    pub fn ring_jobs(&self, group: usize, h: usize) -> (work: Result<Fill, Fault>)
        requires
            self.wf(),
            self.whole,
            h < 2,
            group < self.seats.groups@.len(),
            spans_fit(self.seats.groups@[group as int], self.seats.pool.slots),
        ensures
            match work {
                Ok(work) => {
                    &&& self.terms.filed
                    &&& work.group == group
                    &&& work.half == h
                    &&& work@ == fill(
                        self.seats.groups@[group as int].bands@,
                        self@.seats.seat_of[group as int],
                        half_seats(self@.ring->0, h as int),
                        self@.ring->0.experts as nat,
                    )
                },
                Err(fault) => !self.terms.filed && fault == Fault::Residency(Refusal::RingWantsFile),
            },
    {
        if !self.terms.filed {
            return Err(Fault::Residency(Refusal::RingWantsFile));
        }
        let into = self.ring_seats(h);
        let held = &self.seats.groups[group];
        let ghost ring = self@.ring->0;
        let ghost seat_of = self@.seats.seat_of[group as int];
        assert(self@.seats.seat_of[group as int].len() == ring.experts);
        let experts: u32 = held.experts;
        let mut copies: Vec<Job> = Vec::new();
        let mut reads: Vec<Job> = Vec::new();
        let mut copied: u64 = 0;
        let mut read: u64 = 0;
        let mut e: u32 = 0;
        while e < experts
            invariant
                self.wf(),
                self.whole,
                ring == self@.ring->0,
                h < 2,
                group < self.seats.groups@.len(),
                *held == self.seats.groups@[group as int],
                experts == held.experts,
                experts == ring.experts,
                spans_fit(*held, self.seats.pool.slots),
                seat_of == held.seat_of@,
                seat_of == self@.seats.seat_of[group as int],
                into@ == half_seats(ring, h as int),
                into@.len() == experts,
                e <= experts,
                copied + read <= e,
                ({
                    let f = fill(held.bands@, seat_of, into@, e as nat);
                    copies@ == f.copies && reads@ == f.reads && copied == f.copied && read == f.read
                }),
            decreases experts - e,
        {
            let dst: u32 = into[e as usize];
            proof {
                lemma_half_seat(ring, h as int, e as int);
                assert(dst == ring.seats[h * ring.experts + e]);
            }
            match held.seat_of[e as usize] {
                Some(seat) => {
                    assert(self@.seats.seat(group as int, e as int) == Some(seat));
                    assert(self@.seats.names(group as int, e as int));
                    copied += 1;
                    let ghost all = copies_of(held.bands@, dst, seat);
                    let ghost had = copies@;
                    let mut b: usize = 0;
                    assert(had + all.take(0) =~= had);
                    while b < held.bands.len()
                        invariant
                            b <= held.bands@.len(),
                            spans_fit(*held, self.seats.pool.slots),
                            dst < self.seats.pool.slots,
                            seat < self.seats.pool.slots,
                            all == copies_of(held.bands@, dst, seat),
                            copies@ == had + all.take(b as int),
                        decreases held.bands@.len() - b,
                    {
                        let band = &held.bands[b];
                        proof {
                            lemma_address(band.at, band.stride, dst, self.seats.pool.slots);
                            lemma_address(band.at, band.stride, seat, self.seats.pool.slots);
                            assert(all.take(b + 1) =~= all.take(b as int).push(all[b as int]));
                        }
                        copies.push(
                            (
                                band.at + dst as u64 * band.stride,
                                band.at + seat as u64 * band.stride,
                                band.stride,
                            ),
                        );
                        b += 1;
                    }
                    assert(all.take(all.len() as int) =~= all);
                },
                None => {
                    read += 1;
                    self.jobs(group, dst, e, &mut reads);
                },
            }
            e += 1;
        }
        Ok(Fill { group, half: h, copies, reads, copied, read })
    }

    /// Start filling a half of the ring: `checked` says whether the store
    /// can take every copy and read of `work`, and a fill that cannot start
    /// leaves everything as it was. A layer the ring has is not filled again.
    pub fn ring_fill(&mut self, work: &Fill, checked: Result<(), Fault>) -> (done: Result<(), Fault>)
        requires
            old(self).wf(),
            old(self).whole,
            work.half < 2,
            work.group < old(self).seats.groups@.len(),
            !old(self)@.has(work.group),
            old(self)@.ring matches Some(ring) && {
                &&& ring.fills < u64::MAX
                &&& ring.copied + work.copied <= u64::MAX
                &&& ring.read + work.read <= u64::MAX
                &&& ring.bytes + bytes_moved(work.reads@) <= u64::MAX
            },
            old(self).tally.bytes_read + bytes_moved(work.reads@) <= u64::MAX,
            old(self).tally.swaps + work.copies@.len() + work.reads@.len() <= u64::MAX,
        ensures
            final(self).wf(),
            final(self).beside(old(self)),
            done == checked,
            final(self)@ == if checked is Ok {
                old(self)@.fill_started(work.group, work.half, work@)
            } else {
                old(self)@
            },
    {
        if checked.is_err() {
            return checked;
        }
        let bytes: u64 = moved_bytes(&work.reads);
        self.tally.bytes_read = self.tally.bytes_read + bytes;
        self.tally.swaps = self.tally.swaps + work.copies.len() as u64 + work.reads.len() as u64;
        if let Some(ring) = &mut self.ring {
            ring.fills = ring.fills + 1;
            ring.copied = ring.copied + work.copied;
            ring.read = ring.read + work.read;
            ring.bytes = ring.bytes + bytes;
            if work.half == 0 {
                ring.holds.0 = None;
            } else {
                ring.holds.1 = None;
            }
            ring.filling = Some((work.group, work.half));
        }
        assert(self@ =~= old(self)@.fill_started(work.group, work.half, work@));
        checked
    }

    /// Count the experts a prefill segment's routing vector names; the ring
    /// holds every expert its group has, and no other.
    pub fn ring_lookups(&mut self, at: usize, raw: &[u8]) -> (done: Result<(), Fault>)
        requires
            old(self).wf(),
            old(self).whole,
            at < old(self).seats.groups@.len(),
            old(self)@.ring matches Some(ring) ==> ring.lookups + raw@.len() / 4 <= u64::MAX,
        ensures
            final(self).wf(),
            final(self).beside(old(self)),
            ({
                let ring = old(self)@.ring->0;
                match first_outside(ids(raw@), ring.experts) {
                    Some(expert) => {
                        &&& final(self)@ == old(self)@
                        &&& done == Err::<(), Fault>(
                            Fault::Residency(
                                Refusal::NotInRing {
                                    expert,
                                    name: old(self).seats.groups@[at as int].bands@[0].name,
                                    experts: ring.experts,
                                },
                            ),
                        )
                    },
                    None => {
                        &&& done is Ok
                        &&& final(self)@ == (TierView {
                            ring: Some(
                                RingView {
                                    lookups: (ring.lookups + looked_up(ids(raw@))) as u64,
                                    ..ring
                                },
                            ),
                            ..old(self)@
                        })
                    },
                }
            }),
    {
        let experts: u32 = match &self.ring {
            Some(ring) => ring.experts,
            None => 0,
        };
        let ghost all = ids(raw@);
        let n: usize = raw.len() / 4;
        let mut lookups: u64 = 0;
        let mut i: usize = 0;
        assert(all.take(0) =~= Seq::<i32>::empty());
        while i < n
            invariant
                old(self).wf(),
                old(self).whole,
                old(self)@.ring matches Some(ring) && ring.experts == experts,
                at < old(self).seats.groups@.len(),
                *self == *old(self),
                all == ids(raw@),
                n == raw@.len() / 4,
                i <= n,
                lookups == looked_up(all.take(i as int)),
                lookups <= i,
                first_outside(all.take(i as int), experts) is None,
            decreases n - i,
        {
            let id: i32 = id_at(raw, i);
            proof {
                assert(all.take(i + 1).drop_last() =~= all.take(i as int));
                assert(all.take(i + 1).last() == id);
            }
            i += 1;
            if id < 0 {
                continue ;
            }
            let expert: u32 = id as u32;
            if expert >= experts {
                let name = self.seats.groups[at].bands[0].name.clone();
                proof {
                    lemma_first_outside(all, experts, i as int);
                }
                return Err(Fault::Residency(Refusal::NotInRing { expert, name, experts }));
            }
            lookups += 1;
        }
        assert(all.take(n as int) =~= all);
        if let Some(ring) = &mut self.ring {
            ring.lookups = ring.lookups + lookups;
        }
        assert(self.seats@ == old(self).seats@);
        Ok(())
    }

    /// The layer to fill ahead of the next cut, and the half to fill it
    /// into, while this layer's matmuls run over half `h`.
    pub fn ring_next(&self, at: usize, h: usize) -> (next: Option<(usize, usize)>)
        requires
            at < self.seats.groups@.len(),
            h < 2,
        ensures
            next == if at + 1 < self.seats.groups@.len() && !self@.has((at + 1) as usize) {
                Some(((at + 1) as usize, (1 - h) as usize))
            } else {
                None
            },
    {
        let groups: usize = self.seats.groups.len();
        if at + 1 < groups && !self.ring_has(at + 1) {
            Some((at + 1, 1 - h))
        } else {
            None
        }
    }
}

pub proof fn lemma_half_seat(ring: RingView, h: int, e: int)
    requires
        0 <= h < 2,
        0 <= e < ring.experts,
        ring.seats.len() == 2 * ring.experts,
    ensures
        0 <= h * ring.experts + e < ring.seats.len(),
        half_seats(ring, h)[e] == ring.seats[h * ring.experts + e],
{
    assert(0 <= h * ring.experts <= ring.experts && (h + 1) * ring.experts == h * ring.experts + ring.experts)
        by (nonlinear_arith)
        requires
            0 <= h < 2,
            ring.experts >= 0,
    ;
}

} // verus!
