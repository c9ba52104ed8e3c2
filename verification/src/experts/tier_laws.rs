//! What opening a tier, borrowing its ring and counting its work come to.

use vstd::prelude::*;

use crate::experts::deciding::{bytes_moved, Job, Landing, Stop};
use crate::experts::laws::{a_refused_borrow_gives_its_seats_back, a_victim_is_free_and_coldest};
use crate::experts::opening::{laid, opened};
use crate::experts::plan::{BandPlan, Plan};
use crate::experts::pool::Hold;
use crate::experts::predict::unread;
use crate::experts::ring::{lemma_lend, lend};
use crate::experts::seats::SeatsView;
use crate::experts::segment::Ahead;
use crate::experts::tally::Tally;
use crate::experts::tier::{Tier, TierView};
use crate::fault::{Fault, Refusal};
use crate::weights::lemma_align_up;

verus! {

/// A ring is two seats an expert, of those nobody held: empty now, the fire's
/// own, each once, and holding no layer yet. Whoever lost a seat sat in one
/// of them. A pool that has too few keeps what it had.
pub proof fn a_ring_is_borrowed_of_free_seats(v: TierView)
    requires
        v.seats.inv(),
        v.ring is Some,
        !v.whole,
    ensures
        ({
            let n = 2 * v.ring->0.experts;
            let w = v.borrowing();
            let ring = w.ring->0;
            if lend(v.seats, n as nat).ok {
                &&& w.whole
                &&& w.ring is Some && ring.experts == v.ring->0.experts
                &&& ring.holds == (None::<usize>, None::<usize>)
                &&& ring.seats.len() == n
                &&& ring.seats.no_duplicates()
                &&& forall|i: int|
                    0 <= i < n ==> {
                        let s = #[trigger] ring.seats[i] as int;
                        &&& s < v.seats.pool.holds.len()
                        &&& v.seats.pool.holds[s] == Hold::Free
                        &&& w.seats.pool.holds[s] == Hold::Fire
                        &&& w.seats.pool.in_seat[s] is None
                    }
                &&& forall|g: int, e: int|
                    v.seats.names(g, e) ==> #[trigger] w.seats.seat(g, e) == v.seats.seat(g, e) || (
                    w.seats.seat(g, e) is None && v.seats.seat(g, e) is Some && ring.seats.contains(
                        v.seats.seat(g, e)->0,
                    ))
            } else {
                &&& !w.whole
                &&& w.ring == v.ring
                &&& w.seats.pool.holds =~= v.seats.pool.holds
                &&& forall|s: int|
                    0 <= s < v.seats.pool.holds.len() ==> #[trigger] lend(v.seats, n as nat).seats.pool.holds[s]
                        != Hold::Free
                &&& lend(v.seats, n as nat).lent.len() < n
            }
        }),
{
    let n = (2 * v.ring->0.experts) as nat;
    lemma_lend(v.seats, n);
    if !lend(v.seats, n).ok {
        a_refused_borrow_gives_its_seats_back(v.seats, n);
        lemma_lend_full(v.seats, n);
    }
}

/// Lending stops short only where no seat is left to take.
proof fn lemma_lend_full(v: SeatsView, n: nat)
    requires
        v.inv(),
        !lend(v, n).ok,
    ensures
        lend(v, n).lent.len() < n,
        forall|s: int|
            0 <= s < v.pool.holds.len() ==> #[trigger] lend(v, n).seats.pool.holds[s] != Hold::Free,
    decreases n,
{
    if n > 0 {
        let l = lend(v, (n - 1) as nat);
        lemma_lend(v, (n - 1) as nat);
        if l.ok {
            a_victim_is_free_and_coldest(l.seats);
        } else {
            lemma_lend_full(v, (n - 1) as nat);
        }
    }
}

/// A tier opens with every seat unused, nobody seated, nothing under way and
/// nothing predicted; it has a ring to borrow just when its plan does, and
/// its first seat goes first.
pub proof fn a_tier_opens_empty(plan: Plan, tally: Tally, g: int, e: int, s: int)
    requires
        0 <= g < plan.groups@.len(),
        0 <= e < plan.groups@[g].experts,
        0 <= s < plan.slots,
    ensures
        ({
            let v = opened(plan, tally);
            &&& v.seats.pool.holds.len() == plan.slots
            &&& v.seats.pool.holds[s] == Hold::Free
            &&& v.seats.pool.in_seat[s] is None
            &&& v.seats.pool.list.len() == 0
            &&& v.seats.pool.free.len() == plan.slots
            &&& v.seats.pool.free.contains(s as u32)
            &&& v.seats.pool.pick() == Some(0u32)
            &&& v.seats.seat_of.len() == plan.groups@.len()
            &&& v.seats.seat_of[g].len() == plan.groups@[g].experts
            &&& v.seats.seat(g, e) is None
            &&& v.seats.distinct == 0 && !v.seats.ever[g][e]
            &&& v.ring is Some <==> plan.ring > 0
            &&& v.ring matches Some(ring) ==> {
                &&& ring.experts == plan.groups@[0].experts
                &&& ring.seats.len() == 0 && ring.filling is None
                &&& ring.holds == (None::<usize>, None::<usize>)
                &&& ring.fills == 0 && ring.copied == 0 && ring.read == 0 && ring.bytes == 0
            }
            &&& !v.whole && !v.inflight && !v.blocked && v.landing.len() == 0
            &&& v.predicted.len() == plan.groups@.len() && v.predicted[g] is None
            &&& v.tally == tally
        }),
{
    let v = opened(plan, tally);
    assert(v.seats.pool.free[plan.slots - 1 - s] == s as u32);
}

/// A band lies at the offset its plane was put at, reads from where its
/// plane's bytes are, a stride an expert, and keeps its name.
pub proof fn a_band_lies_where_it_was_put(band: BandPlan, offsets: Seq<u64>, bands: Map<usize, u64>)
    ensures
        laid(band, offsets, bands).at == offsets[band.param as int],
        laid(band, offsets, bands).from == bands[band.param],
        laid(band, offsets, bands).stride == band.stride,
        laid(band, offsets, bands).name == band.name,
{
}

/// A group's seat table has a word an expert, on an aligned boundary.
pub proof fn a_seat_table_has_a_word_an_expert(plan: Plan, align: u64)
    requires
        align > 0,
        plan.groups@.len() > 0,
    ensures
        ({
            let words = 4 * plan.groups@[0].experts;
            &&& plan.table_stride(align) % align as int == 0
            &&& words <= plan.table_stride(align) < words + align
        }),
{
    lemma_align_up(4 * plan.groups@[0].experts, align as int);
}

/// A landing is counted: its jobs, their bytes and the time they took, and
/// the cut that waited for it.
pub proof fn a_landing_is_counted(v: TierView, jobs: Seq<Job>, landing: Seq<Landing>, ns: u64)
    requires
        v.tally.swaps + jobs.len() <= u64::MAX,
        v.tally.bytes_read + bytes_moved(jobs) <= u64::MAX,
        v.tally.copy_ns + ns <= u64::MAX,
    ensures
        ({
            let w = v.landed(jobs, landing, ns);
            &&& w.tally.swaps == v.tally.swaps + jobs.len()
            &&& w.tally.bytes_read == v.tally.bytes_read + bytes_moved(jobs)
            &&& w.tally.copy_ns == v.tally.copy_ns + ns
            &&& w.tally.hits == v.tally.hits && w.tally.misses == v.tally.misses
            &&& w.tally.segments == v.tally.segments
            &&& w.blocked
        }),
{
}

/// What is read ahead is counted once, by how many experts it is, and is no
/// hit and no miss.
pub proof fn what_went_ahead_is_counted(v: TierView, a: Ahead)
    requires
        v.tally.prediction.prefetched + a.landing.len() <= u64::MAX,
    ensures
        ({
            let w = v.went_ahead(a);
            &&& w.seats == a.seats
            &&& w.tally.prediction.prefetched == v.tally.prediction.prefetched + a.landing.len()
            &&& w.tally.prediction.total == v.tally.prediction.total
            &&& w.tally.hits == v.tally.hits && w.tally.misses == v.tally.misses
            &&& w.tally.swaps == v.tally.swaps && w.tally.bytes_read == v.tally.bytes_read
            &&& w.landing == v.landing && w.inflight == v.inflight
        }),
{
}

/// A fire is timed from the first: the first opens at nothing, and every
/// later one as long after it as it came.
pub proof fn a_fire_is_timed_from_the_first(t: Tally, first: u64, later: u64)
    requires
        t.first is None,
        first <= later,
    ensures
        t.opened(first).at_ns == 0,
        t.opened(first).opened(later).at_ns == later - first,
        t.opened(first).opened(later).opened(later).at_ns == later - first,
        t.opened(first).opened(later).first == Some(first),
        t.opened(first).fires == t.fires && t.opened(first).now() == t.now(),
{
}

/// A fire prefills just when one of its lanes is long enough, and then only
/// where there is a ring and rows it is worth: one lane more matters only by
/// its own rows.
pub proof fn a_fire_prefills_for_its_longest_lane(v: TierView, lanes: Seq<u32>, rows: u32, least: u32)
    ensures
        !v.prefills(Seq::<u32>::empty(), least),
        v.prefills(lanes.push(rows), least) <==> v.prefills(lanes, least) || (least > 0 && v.ring is Some
            && rows >= least),
{
    let more = lanes.push(rows);
    if v.prefills(lanes, least) {
        let i = choose|i: int| 0 <= i < lanes.len() && #[trigger] lanes[i] >= least;
        assert(more[i] >= least);
    }
    if v.prefills(more, least) {
        let i = choose|i: int| 0 <= i < more.len() && #[trigger] more[i] >= least;
        if i < lanes.len() {
            assert(lanes[i] >= least);
        }
    }
    assert(more[lanes.len() as int] == rows);
}

/// What could not be read is a fault: the truth, where there is a guess to
/// hold against it, and else the hint, where there is a layer to guess.
pub proof fn what_cannot_be_read_is_a_fault(
    predicted: Seq<Option<Seq<Seq<u32>>>>,
    at: usize,
    truth: Result<Vec<Vec<i32>>, Fault>,
    hint: Option<Result<Vec<Vec<i32>>, Fault>>,
)
    requires
        at < predicted.len(),
    ensures
        predicted[at as int] is Some && truth is Err ==> truth == Err::<Vec<Vec<i32>>, Fault>(
            unread(predicted, at, truth, hint)->0,
        ) && unread(predicted, at, truth, hint) is Some,
        !(predicted[at as int] is Some && truth is Err) ==> (unread(predicted, at, truth, hint) is Some
            <==> at + 1 < predicted.len() && (hint matches Some(said) && said is Err)),
        unread(predicted, at, truth, hint) matches Some(fault) ==> truth == Err::<Vec<Vec<i32>>, Fault>(fault)
            || hint == Some(Err::<Vec<Vec<i32>>, Fault>(fault)),
{
}

/// A segment is refused by the name of its group's first band, with the
/// expert it lacks and how many it has, or with how many seats there are.
pub proof fn a_refusal_names_the_group(tier: Tier, at: int, expert: u32)
    ensures
        tier.refusal(at, Stop::NoSuchExpert(expert)) == Fault::Residency(
            Refusal::NoSuchExpert {
                expert,
                name: tier.seats.groups@[at].bands@[0].name,
                experts: tier.seats.groups@[at].experts,
            },
        ),
        tier.refusal(at, Stop::Full) == Fault::Residency(
            Refusal::PoolFull {
                slots: tier.seats.pool.slots,
                name: tier.seats.groups@[at].bands@[0].name,
            },
        ),
{
}

} // verus!
