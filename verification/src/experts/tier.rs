//! The tier that seats a segment's experts in the pool.

use std::collections::BTreeMap;
use vstd::prelude::*;

use crate::experts::deciding::{
    decided, deciding_seats_every_expert, jobs_for, jobs_of, Job, Landing, Stop,
};
use crate::experts::plan::Word;
use crate::experts::pool::Hold;
use crate::experts::ring::half;
use crate::experts::seats::{lemma_assign, Group, Seats, SeatsView};
use crate::experts::tally::Tally;
use crate::fault::{Fault, Refusal};
use crate::ids::{id_at, ids};
use crate::trace::ValueId;

verus! {

/// What a cut decided: the copies a segment's seats are waiting on, and the
/// `(group, seat, expert)` each one makes resident once it has landed.
#[derive(Debug)]
pub struct Seating {
    pub jobs: Vec<Job>,
    pub landing: Vec<Landing>,
}

/// Two whole layers of seats, borrowed from the pool for one prefill fire.
/// A fire in which some lane has enough rows names nearly every expert of
/// every layer, so its routed matmuls run over a half holding the whole
/// layer while the next layer fills the other: experts the pool holds are
/// copied from their seats, the rest are read. The fire takes the two halves
/// at its start and gives them back at its end holding the last two layers
/// it read, so the damage to the working set is those `2 * experts` seats
/// whatever the layer count.
#[derive(Debug)]
pub struct Ring {
    pub experts: u32,
    /// The seats this fire borrowed, `2 * experts` of them: half `h` holds
    /// `seats[h * experts ..][.. experts]`, one seat per expert of the layer
    /// that half was filled with. Empty between prefill fires.
    pub seats: Vec<u32>,
    /// The group each half holds.
    pub holds: (Option<usize>, Option<usize>),
    /// The fill under way: which group, into which half.
    pub filling: Option<(usize, usize)>,
    pub fills: u64,
    pub copied: u64,
    pub read: u64,
    pub bytes: u64,
    pub lookups: u64,
    pub wait_ns: u64,
}

pub struct RingView {
    pub experts: u32,
    pub seats: Seq<u32>,
    pub holds: (Option<usize>, Option<usize>),
    pub filling: Option<(usize, usize)>,
    pub fills: u64,
    pub copied: u64,
    pub read: u64,
    pub bytes: u64,
    pub lookups: u64,
    pub wait_ns: u64,
}

impl View for Ring {
    type V = RingView;

    open spec fn view(&self) -> RingView {
        RingView {
            experts: self.experts,
            seats: self.seats@,
            holds: self.holds,
            filling: self.filling,
            fills: self.fills,
            copied: self.copied,
            read: self.read,
            bytes: self.bytes,
            lookups: self.lookups,
            wait_ns: self.wait_ns,
        }
    }
}

/// What a load fixes: nothing a fire does changes any of it.
#[derive(Debug)]
pub struct Terms {
    /// The group each routing vector belongs to.
    pub of_routes: BTreeMap<u32, usize>,
    /// The value each routing vector's prediction is read from.
    pub hint_of: BTreeMap<u32, ValueId>,
    /// Rows in one lane from which a fire is a prefill one and takes the
    /// ring; 0 when this load has no ring.
    pub prefill_min: u32,
    pub per_slot: u64,
    pub pairs: u64,
    pub policy: Word,
    /// Where this load's seat tables start in the store, and how far apart
    /// they are: group `g`'s table sits at `tables.0 + g * tables.1`.
    pub tables: (u64, u64),
    /// Whether the source is a file.
    pub filed: bool,
    /// Whether predicted experts are read ahead, and how many a row.
    pub prefetch: bool,
    pub prefetch_k: usize,
}

/// The tier: who sits where, what is on its way, and what was counted. The
/// bytes themselves are moved by the caller, which says how that went.
pub struct Tier {
    pub seats: Seats,
    pub ring: Option<Ring>,
    pub tally: Tally,
    /// What the read in flight will make resident once it lands.
    pub landing: Vec<Landing>,
    pub inflight: bool,
    /// Whether the fire open now is a prefill one, holding the ring.
    pub whole: bool,
    /// Whether the last segment read from disk.
    pub blocked: bool,
    pub predicted: Vec<Option<Vec<Vec<u32>>>>,
    pub terms: Terms,
}

/// What changes as a tier runs.
#[verifier::ext_equal]
pub struct TierView {
    pub seats: SeatsView,
    pub ring: Option<RingView>,
    pub tally: Tally,
    pub landing: Seq<Landing>,
    pub inflight: bool,
    pub whole: bool,
    pub blocked: bool,
    pub predicted: Seq<Option<Seq<Seq<u32>>>>,
}

/// Predicted experts, row by row.
pub open spec fn ranks(rows: Seq<Vec<u32>>) -> Seq<Seq<u32>> {
    Seq::new(rows.len(), |r: int| rows[r]@)
}

pub open spec fn guess(rows: Option<Vec<Vec<u32>>>) -> Option<Seq<Seq<u32>>> {
    match rows {
        Some(rows) => Some(ranks(rows@)),
        None => None,
    }
}

impl View for Tier {
    type V = TierView;

    open spec fn view(&self) -> TierView {
        TierView {
            seats: self.seats@,
            ring: match self.ring {
                Some(ring) => Some(ring@),
                None => None,
            },
            tally: self.tally,
            landing: self.landing@,
            inflight: self.inflight,
            whole: self.whole,
            blocked: self.blocked,
            predicted: Seq::new(self.predicted@.len(), |g: int| guess(self.predicted@[g])),
        }
    }
}

/// Everything of `landing` is to land in an empty seat of its own, held so.
pub open spec fn in_the_air(v: SeatsView, landing: Seq<Landing>, hold: Hold) -> bool {
    &&& forall|i: int|
        0 <= i < landing.len() ==> {
            let (g, s, e) = #[trigger] landing[i];
            &&& v.names(g as int, e as int)
            &&& s < v.pool.holds.len()
            &&& v.pool.holds[s as int] == hold
            &&& v.pool.in_seat[s as int] is None
        }
    &&& forall|i: int, j: int|
        0 <= i < j < landing.len() ==> (#[trigger] landing[i]).1 != (#[trigger] landing[j]).1
}

/// Seats the fire borrowed: empty, its own, each once.
pub open spec fn borrowed(v: SeatsView, seats: Seq<u32>) -> bool {
    &&& seats.no_duplicates()
    &&& forall|i: int|
        0 <= i < seats.len() ==> {
            &&& #[trigger] seats[i] < v.pool.holds.len()
            &&& v.pool.holds[seats[i] as int] == Hold::Fire
            &&& v.pool.in_seat[seats[i] as int] is None
        }
}

/// No seat is the fire's but those it borrowed.
pub open spec fn borrowed_only(v: SeatsView, seats: Seq<u32>) -> bool {
    forall|s: int|
        0 <= s < v.pool.holds.len() && #[trigger] v.pool.holds[s] == Hold::Fire ==> seats.contains(
            s as u32,
        )
}

/// No seat is the fire's in `w` that was not in `v`.
pub open spec fn lends_no_more(v: SeatsView, w: SeatsView) -> bool {
    forall|s: int|
        0 <= s < v.pool.holds.len() && #[trigger] w.pool.holds[s] == Hold::Fire ==> v.pool.holds[s]
            == Hold::Fire
}

/// A seat a fire or a copy holds, empty in `v`, is as it was in `w`.
pub open spec fn keeps_held(v: SeatsView, w: SeatsView) -> bool {
    &&& w.pool.holds.len() == v.pool.holds.len()
    &&& w.seat_of.len() == v.seat_of.len()
    &&& forall|g: int| 0 <= g < v.seat_of.len() ==> (#[trigger] w.seat_of[g]).len() == v.seat_of[g].len()
    &&& forall|s: int|
        0 <= s < v.pool.holds.len() && (v.pool.holds[s] == Hold::Fire || v.pool.holds[s]
            == Hold::Inflight) && v.pool.in_seat[s] is None ==> {
            &&& #[trigger] w.pool.holds[s] == v.pool.holds[s]
            &&& w.pool.in_seat[s] is None
        }
}

pub proof fn lemma_keeps_held(v: SeatsView, w: SeatsView, landing: Seq<Landing>, seats: Seq<u32>)
    requires
        keeps_held(v, w),
    ensures
        in_the_air(v, landing, Hold::Inflight) ==> in_the_air(w, landing, Hold::Inflight),
        borrowed(v, seats) ==> borrowed(w, seats),
{
    if in_the_air(v, landing, Hold::Inflight) {
        assert forall|i: int| 0 <= i < landing.len() implies {
            let (g, s, e) = #[trigger] landing[i];
            &&& w.names(g as int, e as int)
            &&& s < w.pool.holds.len()
            &&& w.pool.holds[s as int] == Hold::Inflight
            &&& w.pool.in_seat[s as int] is None
        } by {
            let (g, s, e) = landing[i];
            assert(v.names(g as int, e as int));
            assert(w.seat_of[g as int].len() == v.seat_of[g as int].len());
            assert(w.pool.holds[s as int] == v.pool.holds[s as int]);
        }
    }
    if borrowed(v, seats) {
        assert forall|i: int| 0 <= i < seats.len() implies {
            &&& #[trigger] seats[i] < w.pool.holds.len()
            &&& w.pool.holds[seats[i] as int] == Hold::Fire
            &&& w.pool.in_seat[seats[i] as int] is None
        } by {
            assert(w.pool.holds[seats[i] as int] == v.pool.holds[seats[i] as int]);
        }
    }
}

/// The addresses a group's copies touch fit a device address.
pub open spec fn spans_fit(group: Group, slots: u32) -> bool {
    forall|b: int|
        0 <= b < group.bands@.len() ==> {
            &&& (#[trigger] group.bands@[b]).at + slots * group.bands@[b].stride <= u64::MAX
            &&& group.bands@[b].from + group.experts * group.bands@[b].stride <= u64::MAX
        }
}

/// The addresses the copies of one expert into one seat start at fit.
pub open spec fn lands(group: Group, seat: u32, expert: u32) -> bool {
    forall|b: int|
        0 <= b < group.bands@.len() ==> {
            &&& (#[trigger] group.bands@[b]).at + seat * group.bands@[b].stride <= u64::MAX
            &&& group.bands@[b].from + expert * group.bands@[b].stride <= u64::MAX
        }
}

/// Where every span fits, so do the addresses inside them.
pub proof fn lemma_lands(group: Group, slots: u32, seat: u32, expert: u32)
    requires
        spans_fit(group, slots),
        seat < slots,
        expert < group.experts,
    ensures
        lands(group, seat, expert),
{
    assert forall|b: int| 0 <= b < group.bands@.len() implies {
        &&& (#[trigger] group.bands@[b]).at + seat * group.bands@[b].stride <= u64::MAX
        &&& group.bands@[b].from + expert * group.bands@[b].stride <= u64::MAX
    } by {
        let band = group.bands@[b];
        lemma_address(band.at, band.stride, seat, slots);
        lemma_address(band.from, band.stride, expert, group.experts);
    }
}

/// The copies that land `expert` of a group in `seat`: one per band.
pub fn push_jobs(group: &Group, seat: u32, expert: u32, into: &mut Vec<Job>)
    requires
        lands(*group, seat, expert),
    ensures
        final(into)@ == old(into)@ + jobs_of(group.bands@, seat, expert),
{
    let ghost all = jobs_of(group.bands@, seat, expert);
    let mut b: usize = 0;
    while b < group.bands.len()
        invariant
            lands(*group, seat, expert),
            all == jobs_of(group.bands@, seat, expert),
            b <= group.bands@.len(),
            into@ == old(into)@ + all.take(b as int),
        decreases group.bands@.len() - b,
    {
        let band = &group.bands[b];
        proof {
            assert(0 <= seat * band.stride && 0 <= expert * band.stride) by (nonlinear_arith)
                requires
                    seat >= 0,
                    expert >= 0,
                    band.stride >= 0,
            ;
            assert(all.take(b + 1) =~= all.take(b as int).push(all[b as int]));
        }
        into.push(
            (
                band.at + seat as u64 * band.stride,
                band.from + expert as u64 * band.stride,
                band.stride,
            ),
        );
        b += 1;
    }
    assert(all.take(all.len() as int) =~= all);
}

impl TierView {
    /// What holds of a ring between any two steps.
    pub open spec fn ring_wf(self) -> bool {
        match self.ring {
            None => !self.whole && borrowed_only(self.seats, Seq::empty()),
            Some(ring) => {
                &&& ring.experts <= u32::MAX / 2
                &&& self.seats.seat_of.len() > 0
                &&& forall|g: int|
                    0 <= g < self.seats.seat_of.len() ==> (#[trigger] self.seats.seat_of[g]).len()
                        == ring.experts
                &&& ring.holds.0 matches Some(g) ==> g < self.seats.seat_of.len()
                &&& ring.holds.1 matches Some(g) ==> g < self.seats.seat_of.len()
                &&& ring.holds.0 is Some ==> ring.holds.0 != ring.holds.1
                &&& ring.filling matches Some((g, h)) ==> {
                    &&& g < self.seats.seat_of.len()
                    &&& h < 2
                    &&& half(ring.holds, h as int) is None
                    &&& ring.holds.0 != Some(g)
                    &&& ring.holds.1 != Some(g)
                }
                &&& borrowed_only(self.seats, ring.seats)
                &&& !self.whole ==> ring.filling is None && ring.seats.len() == 0
                &&& self.whole ==> {
                    &&& ring.seats.len() == 2 * ring.experts
                    &&& borrowed(self.seats, ring.seats)
                }
            },
        }
    }

    pub open spec fn wf(self) -> bool {
        &&& self.seats.inv()
        &&& self.seats.seat_of.len() == self.predicted.len()
        &&& self.tally.wf()
        &&& in_the_air(self.seats, self.landing, Hold::Inflight)
        &&& !self.inflight ==> self.landing.len() == 0
        &&& self.ring_wf()
    }
}

impl Tier {
    pub open spec fn wf(&self) -> bool {
        &&& self.seats.wf()
        &&& self@.wf()
        &&& forall|k: u32| #[trigger] self.terms.of_routes@.contains_key(k)
            ==> self.terms.of_routes@[k] < self.seats.groups@.len()
    }

    /// The same load as `before`: only what a fire may change differs.
    pub open spec fn beside(&self, before: &Tier) -> bool {
        &&& self.terms == before.terms
        &&& self.seats.beside(&before.seats)
    }

    /// The fault a stop is refused with.
    pub open spec fn refusal(&self, at: int, stop: Stop) -> Fault {
        let group = self.seats.groups@[at];
        match stop {
            Stop::NoSuchExpert(expert) => Fault::Residency(
                Refusal::NoSuchExpert {
                    expert,
                    name: group.bands@[0].name,
                    experts: group.experts,
                },
            ),
            Stop::Full => self.full(at),
        }
    }

    pub open spec fn full(&self, at: int) -> Fault {
        Fault::Residency(
            Refusal::PoolFull {
                slots: self.seats.pool.slots,
                name: self.seats.groups@[at].bands@[0].name,
            },
        )
    }

    /// A seat for a new expert of group `at`, or why there is none.
    pub fn take(&mut self, at: usize) -> (seat: Result<u32, Fault>)
        requires
            old(self).seats.wf(),
            at < old(self).seats.groups@.len(),
        ensures
            *final(self) == (Tier { seats: final(self).seats, ..*old(self) }),
            final(self).seats.wf(),
            final(self).seats.beside(&old(self).seats),
            final(self).seats@ == old(self).seats@.take(),
            seat == match old(self).seats@.pool.pick() {
                Some(seat) => Ok(seat),
                None => Err(old(self).full(at as int)),
            },
            seat matches Ok(s) ==> s < final(self).seats.pool.slots,
    {
        match self.seats.take() {
            Some(seat) => Ok(seat),
            None => {
                let name = self.seats.groups[at].bands[0].name.clone();
                Err(Fault::Residency(Refusal::PoolFull { slots: self.seats.pool.slots, name }))
            },
        }
    }

    /// The copies that land `expert` of group `at` in `seat`: one per band.
    pub fn jobs(&self, at: usize, seat: u32, expert: u32, into: &mut Vec<Job>)
        requires
            at < self.seats.groups@.len(),
            spans_fit(self.seats.groups@[at as int], self.seats.pool.slots),
            seat < self.seats.pool.slots,
            expert < self.seats.groups@[at as int].experts,
        ensures
            final(into)@ == old(into)@ + jobs_of(
                self.seats.groups@[at as int].bands@,
                seat,
                expert,
            ),
    {
        proof {
            lemma_lands(self.seats.groups@[at as int], self.seats.pool.slots, seat, expert);
        }
        push_jobs(&self.seats.groups[at], seat, expert, into);
    }

    /// Where every expert this segment routes to will sit, and the copies
    /// that must land before its matmuls read them.
    #[verifier::spinoff_prover]
    #[verifier::rlimit(40)]
    pub fn decide(&mut self, at: usize, raw: &[u8]) -> (seating: Result<Seating, Fault>)
        requires
            old(self).wf(),
            at < old(self).seats.groups@.len(),
            spans_fit(old(self).seats.groups@[at as int], old(self).seats.pool.slots),
            old(self).tally.hits + raw@.len() / 4 <= u64::MAX,
            old(self).tally.misses + raw@.len() / 4 <= u64::MAX,
        ensures
            final(self).wf(),
            final(self).beside(old(self)),
            ({
                let d = decided(
                    old(self)@.seats,
                    at,
                    old(self).seats.groups@[at as int].experts,
                    ids(raw@),
                );
                &&& final(self)@ == (TierView {
                    seats: d.seats,
                    tally: Tally {
                        hits: (old(self).tally.hits + d.hits) as u64,
                        misses: (old(self).tally.misses + d.misses) as u64,
                        ..old(self).tally
                    },
                    ..old(self)@
                })
                &&& match seating {
                    Ok(seating) => {
                        &&& d.stop is None
                        &&& in_the_air(final(self)@.seats, seating.landing@, Hold::Segment)
                        &&& seating.landing@ == d.landing
                        &&& seating.jobs@ == jobs_for(
                            old(self).seats.groups@[at as int].bands@,
                            d.landing,
                        )
                    },
                    Err(fault) => d.stop matches Some(stop) && fault == old(self).refusal(at as int, stop),
                }
            }),
    {
        let ghost v = self.seats@;
        let ghost all = ids(raw@);
        let experts: u32 = self.seats.groups[at].experts;
        let ghost bands = self.seats.groups@[at as int].bands@;
        let mut jobs: Vec<Job> = Vec::new();
        let mut landing: Vec<Landing> = Vec::new();
        let mut taken: BTreeMap<u32, u32> = BTreeMap::new();
        let n: usize = raw.len() / 4;
        let mut i: usize = 0;
        proof {
            assert(all.take(0) =~= Seq::<i32>::empty());
            assert(taken@ =~= Map::<u32, u32>::empty());
            deciding_seats_every_expert(v, at, experts, all.take(0));
        }
        while i < n
            invariant
                n == raw@.len() / 4,
                i <= n,
                all == ids(raw@),
                old(self).wf(),
                v == old(self).seats@,
                at < v.seat_of.len(),
                v.seat_of[at as int].len() == experts,
                experts == old(self).seats.groups@[at as int].experts,
                bands == old(self).seats.groups@[at as int].bands@,
                spans_fit(old(self).seats.groups@[at as int], old(self).seats.pool.slots),
                old(self).tally.hits + n <= u64::MAX,
                old(self).tally.misses + n <= u64::MAX,
                self.seats.wf(),
                self.seats.beside(&old(self).seats),
                *self == (Tier {
                    seats: self.seats,
                    tally: Tally {
                        hits: self.tally.hits,
                        misses: self.tally.misses,
                        ..old(self).tally
                    },
                    ..*old(self)
                }),
                ({
                    let d = decided(v, at, experts, all.take(i as int));
                    &&& d.stop is None
                    &&& self.seats@ == d.seats
                    &&& self.tally.hits == old(self).tally.hits + d.hits
                    &&& self.tally.misses == old(self).tally.misses + d.misses
                    &&& d.hits + d.misses <= i
                    &&& taken@ == d.taken
                    &&& landing@ == d.landing
                    &&& jobs@ == jobs_for(bands, d.landing)
                }),
            decreases n - i,
        {
            let ghost d = decided(v, at, experts, all.take(i as int));
            let ghost m = decided(v, at, experts, all.take(i + 1));
            let id: i32 = id_at(raw, i);
            proof {
                assert(all.take(i + 1).drop_last() =~= all.take(i as int));
                assert(all.take(i + 1).last() == id);
                assert(m == d.step(at, experts, id));
                deciding_seats_every_expert(v, at, experts, all.take(i as int));
                deciding_seats_every_expert(v, at, experts, all.take(i + 1));
            }
            i += 1;
            if id < 0 {
                continue ;
            }
            let expert: u32 = id as u32;
            if expert >= experts {
                let name = self.seats.groups[at].bands[0].name.clone();
                proof {
                    lemma_decided_stops(v, at, experts, all, i as int);
                    self.lemma_decided_wf(old(self), at, all);
                }
                return Err(
                    Fault::Residency(Refusal::NoSuchExpert { expert, name, experts }),
                );
            }
            if let Some(seat) = taken.get(&expert) {
                self.seats.pool.bump(*seat);
                assert(self.seats@ =~= m.seats);
                continue ;
            }
            if let Some(seat) = self.seats.groups[at].seat_of[expert as usize] {
                assert(d.seats.seat(at as int, expert as int) == Some(seat));
                assert(d.seats.names(at as int, expert as int));
                self.tally.hits = self.tally.hits + 1;
                self.seats.pool.bump(seat);
                self.seats.pool.hold(seat, Hold::Segment);
                taken.insert(expert, seat);
                assert(self.seats@ =~= m.seats);
                continue ;
            }
            assert(d.seats.seat(at as int, expert as int) is None);
            self.tally.misses = self.tally.misses + 1;
            match self.take(at) {
                Ok(seat) => {
                    self.seats.pool.hold(seat, Hold::Segment);
                    assert(self.seats@ =~= m.seats);
                    self.jobs(at, seat, expert, &mut jobs);
                    landing.push((at, seat, expert));
                    taken.insert(expert, seat);
                    assert(m.landing.drop_last() =~= d.landing);
                },
                Err(why) => {
                    proof {
                        assert(self.seats@ =~= m.seats);
                        lemma_decided_stops(v, at, experts, all, i as int);
                        self.lemma_decided_wf(old(self), at, all);
                    }
                    return Err(why);
                },
            }
        }
        proof {
            assert(all.take(n as int) =~= all);
            self.lemma_decided_wf(old(self), at, all);
            lemma_decided_in_the_air(v, at, experts, all);
        }
        Ok(Seating { jobs, landing })
    }

    /// A tier whose seats a whole routing vector decided is well formed.
    proof fn lemma_decided_wf(&self, before: &Tier, at: usize, all: Seq<i32>)
        requires
            before.wf(),
            at < before.seats.groups@.len(),
            self.seats.wf(),
            self.seats.beside(&before.seats),
            self.seats@ == decided(
                before.seats@,
                at,
                before.seats.groups@[at as int].experts,
                all,
            ).seats,
            before.tally.hits <= self.tally.hits,
            before.tally.misses <= self.tally.misses,
            *self == (Tier {
                seats: self.seats,
                tally: Tally {
                    hits: self.tally.hits,
                    misses: self.tally.misses,
                    ..before.tally
                },
                ..*before
            }),
        ensures
            self.wf(),
    {
        let v = before.seats@;
        deciding_seats_every_expert(v, at, before.seats.groups@[at as int].experts, all);
        let d = decided(v, at, before.seats.groups@[at as int].experts, all);
        assert(keeps_held(v, d.seats));
        let lent = match before@.ring {
            Some(ring) => ring.seats,
            None => Seq::empty(),
        };
        lemma_keeps_held(v, self.seats@, before.landing@, lent);
        assert(lends_no_more(v, self.seats@));
        assert(self@.ring == before@.ring);
        assert(self@.ring_wf());
    }
}

/// What a landing makes resident, one expert after another.
pub open spec fn assigned(v: SeatsView, landing: Seq<Landing>) -> SeatsView
    decreases landing.len(),
{
    if landing.len() == 0 {
        v
    } else {
        assigned(v, landing.drop_last()).assign(
            landing.last().0 as int,
            landing.last().1,
            landing.last().2,
        )
    }
}

/// One seating after another moves nobody it does not name: a seat outside
/// the landing that was empty stays empty and held as it was, and the seats
/// still to come stay empty.
pub proof fn lemma_assigned(v: SeatsView, landing: Seq<Landing>, hold: Hold)
    requires
        v.inv(),
        hold != Hold::Free,
        in_the_air(v, landing, hold),
    ensures
        assigned(v, landing).inv(),
        assigned(v, landing).pool.holds.len() == v.pool.holds.len(),
        assigned(v, landing).seat_of.len() == v.seat_of.len(),
        lends_no_more(v, assigned(v, landing)),
        forall|g: int|
            0 <= g < v.seat_of.len() ==> (#[trigger] assigned(v, landing).seat_of[g]).len()
                == v.seat_of[g].len(),
        forall|s: int|
            #![trigger assigned(v, landing).pool.holds[s]]
            #![trigger assigned(v, landing).pool.in_seat[s]]
            0 <= s < v.pool.holds.len() && v.pool.in_seat[s] is None ==> {
                &&& v.pool.holds[s] != Hold::Free ==> assigned(v, landing).pool.holds[s] == v.pool.holds[s] || assigned(v, landing).pool.holds[s] == Hold::Free
                &&& (forall|i: int| 0 <= i < landing.len() ==> (#[trigger] landing[i]).1 != s) ==> {
                    &&& assigned(v, landing).pool.in_seat[s] is None
                    &&& assigned(v, landing).pool.holds[s] == v.pool.holds[s]
                }
            },
    decreases landing.len(),
{
    if landing.len() > 0 {
        let head = landing.drop_last();
        let last = landing.last();
        assert forall|i: int| 0 <= i < head.len() implies #[trigger] head[i] == landing[i] by {}
        assert(in_the_air(v, head, hold)) by {
            assert forall|i: int, j: int| 0 <= i < j < head.len() implies (#[trigger] head[i]).1 != (
            #[trigger] head[j]).1 by {
                assert(head[i] == landing[i] && head[j] == landing[j]);
            }
        }
        lemma_assigned(v, head, hold);
        let w = assigned(v, head);
        assert(landing[landing.len() - 1] == last);
        let s = last.1;
        assert(forall|i: int| 0 <= i < head.len() ==> (#[trigger] head[i]).1 != s) by {
            assert forall|i: int| 0 <= i < head.len() implies (#[trigger] head[i]).1 != s by {
                assert(head[i] == landing[i]);
            }
        }
        assert(v.pool.holds[s as int] == hold);
        assert(w.pool.in_seat[s as int] is None);
        assert(w.pool.holds[s as int] == hold);
        assert(!w.pool.free.contains(s));
        assert(w.pool.list.contains(s));
        assert(w.names(last.0 as int, last.2 as int)) by {
            assert(v.names(last.0 as int, last.2 as int));
            assert(w.seat_of[last.0 as int].len() == v.seat_of[last.0 as int].len());
        }
        lemma_assign(w, last.0 as int, s, last.2);
        let x = assigned(v, landing);
        assert(x == w.assign(last.0 as int, s, last.2));
        assert forall|q: int|
            #![trigger x.pool.holds[q]]
            #![trigger x.pool.in_seat[q]]
            0 <= q < v.pool.holds.len() && v.pool.in_seat[q] is None implies {
            &&& v.pool.holds[q] != Hold::Free ==> x.pool.holds[q] == v.pool.holds[q] || x.pool.holds[q] == Hold::Free
            &&& (forall|i: int| 0 <= i < landing.len() ==> (#[trigger] landing[i]).1 != q) ==> {
                &&& x.pool.in_seat[q] is None
                &&& x.pool.holds[q] == v.pool.holds[q]
            }
        } by {
            assert(w.pool.holds[q] == w.pool.holds[q]);
            if forall|i: int| 0 <= i < landing.len() ==> (#[trigger] landing[i]).1 != q {
                assert(landing[landing.len() - 1].1 != q);
                assert forall|i: int| 0 <= i < head.len() implies (#[trigger] head[i]).1 != q by {
                    assert(head[i] == landing[i]);
                }
                assert(w.pool.in_seat[q] is None);
                match w.seat(last.0 as int, last.2 as int) {
                    Some(was) => {
                        assert(w.pool.in_seat[was as int] is Some);
                        assert(was != q);
                    },
                    None => {},
                }
            }
        }
    }
}

/// Once a landing of distinct experts has landed, each sits in its seat.
pub proof fn lemma_assigned_resident(v: SeatsView, landing: Seq<Landing>, hold: Hold)
    requires
        v.inv(),
        hold != Hold::Free,
        in_the_air(v, landing, hold),
        forall|i: int, j: int|
            0 <= i < j < landing.len() ==> ((#[trigger] landing[i]).0, landing[i].2) != ((
            #[trigger] landing[j]).0, landing[j].2),
    ensures
        forall|i: int|
            0 <= i < landing.len() ==> assigned(v, landing).seat(
                (#[trigger] landing[i]).0 as int,
                landing[i].2 as int,
            ) == Some(landing[i].1),
        forall|g: int, e: int|
            v.names(g, e) && (forall|i: int|
                0 <= i < landing.len() ==> ((#[trigger] landing[i]).0 != g || landing[i].2 != e))
                ==> #[trigger] assigned(v, landing).seat(g, e) == v.seat(g, e),
    decreases landing.len(),
{
    if landing.len() > 0 {
        let head = landing.drop_last();
        let last = landing.last();
        assert forall|i: int| 0 <= i < head.len() implies #[trigger] head[i] == landing[i] by {}
        assert(in_the_air(v, head, hold)) by {
            assert forall|i: int, j: int| 0 <= i < j < head.len() implies (#[trigger] head[i]).1 != (
            #[trigger] head[j]).1 by {
                assert(head[i] == landing[i] && head[j] == landing[j]);
            }
        }
        assert forall|i: int, j: int| 0 <= i < j < head.len() implies ((#[trigger] head[i]).0, head[i].2)
            != ((#[trigger] head[j]).0, head[j].2) by {
            assert(head[i] == landing[i] && head[j] == landing[j]);
        }
        lemma_assigned_resident(v, head, hold);
        lemma_assigned(v, head, hold);
        let w = assigned(v, head);
        let x = assigned(v, landing);
        assert(landing[landing.len() - 1] == last);
        assert(v.names(last.0 as int, last.2 as int));
        assert(w.seat_of[last.0 as int].len() == v.seat_of[last.0 as int].len());
        assert forall|i: int| 0 <= i < landing.len() implies x.seat(
            (#[trigger] landing[i]).0 as int,
            landing[i].2 as int,
        ) == Some(landing[i].1) by {
            if i < head.len() {
                assert(head[i] == landing[i]);
                assert(v.names(landing[i].0 as int, landing[i].2 as int));
            }
        }
        assert forall|g: int, e: int|
            v.names(g, e) && (forall|i: int|
                0 <= i < landing.len() ==> ((#[trigger] landing[i]).0 != g || landing[i].2 != e))
                implies #[trigger] x.seat(g, e) == v.seat(g, e) by {
            assert(landing[landing.len() - 1].0 != g || landing[landing.len() - 1].2 != e);
            assert forall|i: int| 0 <= i < head.len() implies ((#[trigger] head[i]).0 != g || head[i].2
                != e) by {
                assert(head[i] == landing[i]);
            }
            assert(w.seat(g, e) == v.seat(g, e));
        }
    }
}

/// An address inside a span that fits, fits.
pub proof fn lemma_address(base: u64, stride: u64, i: u32, n: u32)
    requires
        base + n * stride <= u64::MAX,
        i < n,
    ensures
        0 <= i * stride <= u64::MAX,
        base + i * stride + stride <= u64::MAX,
{
    assert(i * stride + stride <= n * stride && 0 <= i * stride) by (nonlinear_arith)
        requires
            i < n,
            stride >= 0,
    ;
}

/// A vector that stopped part of the way decides no more.
pub proof fn lemma_decided_stops(v: SeatsView, at: usize, experts: u32, all: Seq<i32>, n: int)
    requires
        0 <= n <= all.len(),
        decided(v, at, experts, all.take(n)).stop is Some,
    ensures
        decided(v, at, experts, all) == decided(v, at, experts, all.take(n)),
    decreases all.len() - n,
{
    if n == all.len() {
        assert(all.take(n) =~= all);
    } else {
        assert(all.take(n + 1).drop_last() =~= all.take(n));
        lemma_decided_stops(v, at, experts, all, n + 1);
    }
}

/// What a vector that was seated whole is to land, lands in seats of its own.
pub proof fn lemma_decided_in_the_air(v: SeatsView, at: usize, experts: u32, all: Seq<i32>)
    requires
        v.inv(),
        at < v.seat_of.len(),
        v.seat_of[at as int].len() == experts,
    ensures
        in_the_air(
            decided(v, at, experts, all).seats,
            decided(v, at, experts, all).landing,
            Hold::Segment,
        ),
{
    deciding_seats_every_expert(v, at, experts, all);
    let d = decided(v, at, experts, all);
    let landing = d.landing;
    assert forall|i: int| 0 <= i < landing.len() implies {
        let (g, s, e) = #[trigger] landing[i];
        &&& d.seats.names(g as int, e as int)
        &&& s < d.seats.pool.holds.len()
        &&& d.seats.pool.holds[s as int] == Hold::Segment
        &&& d.seats.pool.in_seat[s as int] is None
    } by {
        let (g, s, e) = landing[i];
        assert(d.taken.contains_key(e));
        assert(d.seats.pool.list.contains(s));
        assert(d.seats.seat_of[at as int].len() == experts);
    }
    assert forall|i: int, j: int| 0 <= i < j < landing.len() implies (#[trigger] landing[i]).1 != (
    #[trigger] landing[j]).1 by {
        assert(d.taken.contains_key(landing[i].2) && d.taken.contains_key(landing[j].2));
    }
}

} // verus!
