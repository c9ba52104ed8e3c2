//! What a fill of the ring moves, and where to.

use vstd::prelude::*;

use crate::experts::deciding::{bytes_moved, jobs_for, jobs_of, Job, Landing};
use crate::experts::filling::{
    copies_of, fill, first_outside, half_seats, holder, lemma_half_seat, looked_up, spare,
};
use crate::experts::ring::half;
use crate::experts::seats::Band;
use crate::experts::tier::RingView;

verus! {

/// A band's bytes moved into one seat of the pool.
pub open spec fn into_seat(band: Band, seat: u32, from: int) -> Job {
    ((band.at + seat * band.stride) as u64, from as u64, band.stride)
}

/// Band `b` of expert `e` brought into a seat: out of the seat that holds
/// it, or from its place at the source.
pub open spec fn brought(bands: Seq<Band>, seat_of: Seq<Option<u32>>, seat: u32, e: int, b: int) -> Job {
    match seat_of[e] {
        Some(held) => into_seat(bands[b], seat, bands[b].at + held * bands[b].stride),
        None => into_seat(bands[b], seat, bands[b].from + e * bands[b].stride),
    }
}

/// These moves bring band `b` of expert `e` into a seat, by a copy where the
/// pool holds it and by a read where not.
pub open spec fn brings(
    copies: Seq<Job>,
    reads: Seq<Job>,
    bands: Seq<Band>,
    seat_of: Seq<Option<u32>>,
    into: Seq<u32>,
    e: int,
    b: int,
) -> bool {
    let job = brought(bands, seat_of, into[e], e, b);
    if seat_of[e] is Some {
        copies.contains(job)
    } else {
        reads.contains(job)
    }
}

/// One move is of some band of one of the first `n` experts, to its own seat.
pub open spec fn is_a_move(
    job: Job,
    copy: bool,
    bands: Seq<Band>,
    seat_of: Seq<Option<u32>>,
    into: Seq<u32>,
    n: nat,
) -> bool {
    exists|e: int, b: int|
        0 <= e < n && 0 <= b < bands.len() && (seat_of[e] is Some) == copy && job == #[trigger] brought(
            bands,
            seat_of,
            into[e],
            e,
            b,
        )
}

/// How many of the first `n` experts the pool holds.
pub open spec fn held_among(seat_of: Seq<Option<u32>>, n: nat) -> Set<int> {
    Set::new(|e: int| 0 <= e < n && seat_of[e] is Some)
}

proof fn lemma_held_among(seat_of: Seq<Option<u32>>, n: nat)
    ensures
        held_among(seat_of, n).finite(),
        n > 0 ==> held_among(seat_of, n).len() == held_among(seat_of, (n - 1) as nat).len() + if seat_of[n
            - 1] is Some {
            1nat
        } else {
            0
        },
        held_among(seat_of, 0).len() == 0,
    decreases n,
{
    assert(held_among(seat_of, 0) =~= Set::empty());
    if n > 0 {
        lemma_held_among(seat_of, (n - 1) as nat);
        let before = held_among(seat_of, (n - 1) as nat);
        if seat_of[n - 1] is Some {
            assert(held_among(seat_of, n) =~= before.insert(n - 1));
        } else {
            assert(held_among(seat_of, n) =~= before);
        }
    }
}

/// What the moves of a fill are, and how many.
pub open spec fn fills(bands: Seq<Band>, seat_of: Seq<Option<u32>>, into: Seq<u32>, n: nat) -> bool {
    let work = fill(bands, seat_of, into, n);
    &&& forall|e: int, b: int|
        0 <= e < n && 0 <= b < bands.len() ==> #[trigger] brings(
            work.copies,
            work.reads,
            bands,
            seat_of,
            into,
            e,
            b,
        )
    &&& forall|i: int|
        0 <= i < work.copies.len() ==> is_a_move(#[trigger] work.copies[i], true, bands, seat_of, into, n)
    &&& forall|i: int|
        0 <= i < work.reads.len() ==> is_a_move(#[trigger] work.reads[i], false, bands, seat_of, into, n)
    &&& work.copied == held_among(seat_of, n).len()
    &&& work.copied + work.read == n
    &&& work.copies.len() == work.copied * bands.len()
    &&& work.reads.len() == work.read * bands.len()
}

proof fn lemma_still_a_move(
    job: Job,
    copy: bool,
    bands: Seq<Band>,
    seat_of: Seq<Option<u32>>,
    into: Seq<u32>,
    n: nat,
)
    requires
        n > 0,
        is_a_move(job, copy, bands, seat_of, into, (n - 1) as nat),
    ensures
        is_a_move(job, copy, bands, seat_of, into, n),
{
    let (e, b) = choose|e: int, b: int|
        0 <= e < n - 1 && 0 <= b < bands.len() && (seat_of[e] is Some) == copy && job
            == #[trigger] brought(bands, seat_of, into[e], e, b);
    assert(0 <= e < n && job == brought(bands, seat_of, into[e], e, b));
}

proof fn lemma_fills(bands: Seq<Band>, seat_of: Seq<Option<u32>>, into: Seq<u32>, n: nat)
    requires
        n <= seat_of.len() <= u32::MAX,
    ensures
        fills(bands, seat_of, into, n),
    decreases n,
{
    lemma_held_among(seat_of, n);
    if n > 0 {
        let k = (n - 1) as nat;
        lemma_fills(bands, seat_of, into, k);
        let was = fill(bands, seat_of, into, k);
        let work = fill(bands, seat_of, into, n);
        let held = seat_of[k as int];
        let more = match held {
            Some(seat) => copies_of(bands, into[k as int], seat),
            None => jobs_of(bands, into[k as int], k as u32),
        };
        let had = if held is Some {
            was.copies
        } else {
            was.reads
        };
        let now = had + more;
        assert(now == if held is Some {
            work.copies
        } else {
            work.reads
        });
        assert forall|b: int| 0 <= b < bands.len() implies #[trigger] more[b] == brought(
            bands,
            seat_of,
            into[k as int],
            k as int,
            b,
        ) by {}
        assert forall|e: int, b: int| 0 <= e < n && 0 <= b < bands.len() implies #[trigger] brings(
            work.copies,
            work.reads,
            bands,
            seat_of,
            into,
            e,
            b,
        ) by {
            let job = brought(bands, seat_of, into[e], e, b);
            if e < k {
                assert(brings(was.copies, was.reads, bands, seat_of, into, e, b));
                if (seat_of[e] is Some) == (held is Some) {
                    assert(had.contains(job));
                    assert(now[had.index_of(job)] == job);
                }
            } else {
                assert(more[b] == job);
                assert(now[had.len() + b] == job);
            }
        }
        assert forall|i: int| 0 <= i < now.len() implies is_a_move(
            #[trigger] now[i],
            held is Some,
            bands,
            seat_of,
            into,
            n,
        ) by {
            if i < had.len() {
                assert(now[i] == had[i]);
                lemma_still_a_move(now[i], held is Some, bands, seat_of, into, n);
            } else {
                assert(now[i] == more[i - had.len()]);
                assert(now[i] == brought(bands, seat_of, into[k as int], k as int, i - had.len()));
            }
        }
        if held is Some {
            assert forall|i: int| 0 <= i < work.reads.len() implies is_a_move(
                #[trigger] work.reads[i],
                false,
                bands,
                seat_of,
                into,
                n,
            ) by {
                assert(work.reads[i] == was.reads[i]);
                lemma_still_a_move(was.reads[i], false, bands, seat_of, into, n);
            }
        } else {
            assert forall|i: int| 0 <= i < work.copies.len() implies is_a_move(
                #[trigger] work.copies[i],
                true,
                bands,
                seat_of,
                into,
                n,
            ) by {
                assert(work.copies[i] == was.copies[i]);
                lemma_still_a_move(was.copies[i], true, bands, seat_of, into, n);
            }
        }
        let m = bands.len();
        let c = if held is Some {
            was.copied
        } else {
            was.read
        };
        assert((c + 1) * m == c * m + m) by (nonlinear_arith);
    }
}

/// A copy of band `b` of expert `e`, from the seat that holds it to the
/// expert's seat of half `h`.
pub open spec fn copies_over(
    job: Job,
    bands: Seq<Band>,
    seat_of: Seq<Option<u32>>,
    ring: RingView,
    h: int,
    e: int,
    b: int,
) -> bool {
    &&& seat_of[e] is Some
    &&& job == (
        (bands[b].at + ring.seats[h * ring.experts + e] * bands[b].stride) as u64,
        (bands[b].at + seat_of[e]->0 * bands[b].stride) as u64,
        bands[b].stride,
    )
}

/// A read of band `b` of expert `e`, which the pool does not hold, from its
/// place at the source to the expert's seat of half `h`.
pub open spec fn reads_over(
    job: Job,
    bands: Seq<Band>,
    seat_of: Seq<Option<u32>>,
    ring: RingView,
    h: int,
    e: int,
    b: int,
) -> bool {
    &&& seat_of[e] is None
    &&& job == (
        (bands[b].at + ring.seats[h * ring.experts + e] * bands[b].stride) as u64,
        (bands[b].from + e * bands[b].stride) as u64,
        bands[b].stride,
    )
}

/// A copy of some band of some expert of the layer, to its seat of half `h`.
pub open spec fn some_copy(
    job: Job,
    bands: Seq<Band>,
    seat_of: Seq<Option<u32>>,
    ring: RingView,
    h: int,
) -> bool {
    exists|e: int, b: int|
        0 <= e < ring.experts && 0 <= b < bands.len() && #[trigger] copies_over(
            job,
            bands,
            seat_of,
            ring,
            h,
            e,
            b,
        )
}

/// A read of some band of some expert of the layer, to its seat of half `h`.
pub open spec fn some_read(
    job: Job,
    bands: Seq<Band>,
    seat_of: Seq<Option<u32>>,
    ring: RingView,
    h: int,
) -> bool {
    exists|e: int, b: int|
        0 <= e < ring.experts && 0 <= b < bands.len() && #[trigger] reads_over(
            job,
            bands,
            seat_of,
            ring,
            h,
            e,
            b,
        )
}

/// A fill brings every expert of the layer to its own seat of the half, band
/// by band: by a copy out of the seat the pool holds it in, by a read from
/// the source where the pool does not.
pub proof fn a_fill_brings_every_expert_to_its_seat(
    bands: Seq<Band>,
    seat_of: Seq<Option<u32>>,
    ring: RingView,
    h: int,
    e: int,
    b: int,
)
    requires
        0 <= h < 2,
        ring.seats.len() == 2 * ring.experts,
        seat_of.len() == ring.experts,
        0 <= e < ring.experts,
        0 <= b < bands.len(),
    ensures
        ({
            let work = fill(bands, seat_of, half_seats(ring, h), ring.experts as nat);
            let band = bands[b];
            let to = band.at + ring.seats[h * ring.experts + e] * band.stride;
            match seat_of[e] {
                Some(s) => work.copies.contains(
                    (to as u64, (band.at + s * band.stride) as u64, band.stride),
                ),
                None => work.reads.contains(
                    (to as u64, (band.from + e * band.stride) as u64, band.stride),
                ),
            }
        }),
{
    let into = half_seats(ring, h);
    let n = ring.experts as nat;
    let work = fill(bands, seat_of, into, n);
    lemma_fills(bands, seat_of, into, n);
    lemma_half_seat(ring, h, e);
    assert(brings(work.copies, work.reads, bands, seat_of, into, e, b));
}

/// A fill moves nothing to any seat but a half's own, and nothing twice:
/// every copy and every read is of some band of some expert of the layer,
/// and there are no more of them than there are of these.
pub proof fn a_fill_moves_nothing_else(bands: Seq<Band>, seat_of: Seq<Option<u32>>, ring: RingView, h: int)
    requires
        0 <= h < 2,
        ring.seats.len() == 2 * ring.experts,
        seat_of.len() == ring.experts,
    ensures
        ({
            let work = fill(bands, seat_of, half_seats(ring, h), ring.experts as nat);
            let n = ring.experts as int;
            &&& forall|i: int|
                0 <= i < work.copies.len() ==> some_copy(
                    #[trigger] work.copies[i],
                    bands,
                    seat_of,
                    ring,
                    h,
                )
            &&& forall|i: int|
                0 <= i < work.reads.len() ==> some_read(
                    #[trigger] work.reads[i],
                    bands,
                    seat_of,
                    ring,
                    h,
                )
            &&& work.copied + work.read == n
            &&& work.copied == Set::new(|e: int| 0 <= e < n && seat_of[e] is Some).len()
            &&& work.copies.len() == work.copied * bands.len()
            &&& work.reads.len() == work.read * bands.len()
        }),
{
    let into = half_seats(ring, h);
    let n = ring.experts as int;
    let work = fill(bands, seat_of, into, n as nat);
    lemma_fills(bands, seat_of, into, n as nat);
    assert forall|i: int| 0 <= i < work.copies.len() implies some_copy(
                    #[trigger] work.copies[i],
                    bands,
                    seat_of,
                    ring,
                    h,
                ) by {
        let job = work.copies[i];
        assert(is_a_move(job, true, bands, seat_of, into, n as nat));
        let (e, b) = choose|e: int, b: int|
            0 <= e < n && 0 <= b < bands.len() && (seat_of[e] is Some) == true && job
                == #[trigger] brought(bands, seat_of, into[e], e, b);
        lemma_half_seat(ring, h, e);
        assert(copies_over(job, bands, seat_of, ring, h, e, b));
    }
    assert forall|i: int| 0 <= i < work.reads.len() implies some_read(
                    #[trigger] work.reads[i],
                    bands,
                    seat_of,
                    ring,
                    h,
                ) by {
        let job = work.reads[i];
        assert(is_a_move(job, false, bands, seat_of, into, n as nat));
        let (e, b) = choose|e: int, b: int|
            0 <= e < n && 0 <= b < bands.len() && (seat_of[e] is Some) == false && job
                == #[trigger] brought(bands, seat_of, into[e], e, b);
        lemma_half_seat(ring, h, e);
        assert(reads_over(job, bands, seat_of, ring, h, e, b));
    }
    assert(held_among(seat_of, n as nat) =~= Set::new(|e: int| 0 <= e < n && seat_of[e] is Some));
}

/// What is to land is read band by band, in order: every band of every
/// landing from the expert's own place at the source to its seat, and
/// nothing else.
pub proof fn a_landing_is_read_band_by_band(bands: Seq<Band>, landing: Seq<Landing>, i: int, b: int)
    requires
        0 <= i < landing.len(),
        0 <= b < bands.len(),
    ensures
        ({
            let jobs = jobs_for(bands, landing);
            let at = i * bands.len() + b;
            let (_, seat, expert) = landing[i];
            &&& jobs.len() == landing.len() * bands.len()
            &&& 0 <= at < jobs.len()
            &&& jobs[at] == (
                (bands[b].at + seat * bands[b].stride) as u64,
                (bands[b].from + expert * bands[b].stride) as u64,
                bands[b].stride,
            )
        }),
    decreases landing.len(),
{
    let m = bands.len() as int;
    let n = landing.len() as int;
    let head = landing.drop_last();
    let more = jobs_of(bands, landing.last().1, landing.last().2);
    let had = jobs_for(bands, head);
    lemma_jobs_len(bands, head);
    lemma_jobs_len(bands, landing);
    assert((n - 1) * m + m == n * m) by (nonlinear_arith);
    assert(0 <= i * m) by (nonlinear_arith)
        requires
            i >= 0,
            m >= 0,
    ;
    if i < n - 1 {
        assert(i * m + m <= (n - 1) * m) by (nonlinear_arith)
            requires
                i < n - 1,
                m >= 0,
        ;
        a_landing_is_read_band_by_band(bands, head, i, b);
        assert(jobs_for(bands, landing)[i * m + b] == had[i * m + b]);
    } else {
        assert(jobs_for(bands, landing)[i * m + b] == more[b]);
    }
}

proof fn lemma_jobs_len(bands: Seq<Band>, landing: Seq<Landing>)
    ensures
        jobs_for(bands, landing).len() == landing.len() * bands.len(),
    decreases landing.len(),
{
    let m = bands.len() as int;
    let n = landing.len() as int;
    if n > 0 {
        lemma_jobs_len(bands, landing.drop_last());
        assert((n - 1) * m + m == n * m) by (nonlinear_arith);
    } else {
        assert(n * m == 0) by (nonlinear_arith)
            requires
                n == 0,
        ;
    }
}

/// What jobs move is every job's bytes, whichever order they stand in.
pub proof fn moved_bytes_add_up(a: Seq<Job>, b: Seq<Job>, job: Job)
    ensures
        bytes_moved(Seq::<Job>::empty()) == 0,
        bytes_moved(seq![job]) == job.2,
        bytes_moved(a + b) == bytes_moved(a) + bytes_moved(b),
    decreases b.len(),
{
    assert(bytes_moved(seq![job]) == job.2) by {
        assert(seq![job].drop_last() =~= Seq::<Job>::empty());
        assert(bytes_moved(seq![job].drop_last()) == 0);
    }
    if b.len() == 0 {
        assert(a + b =~= a);
    } else {
        moved_bytes_add_up(a, b.drop_last(), job);
        assert((a + b).drop_last() =~= a + b.drop_last());
    }
}

/// A layer is found in the half that holds it, and where neither does it is
/// filled into one that the layer before it does not sit in.
pub proof fn a_layer_is_filled_beside_the_one_before(holds: (Option<usize>, Option<usize>), at: usize)
    requires
        holds.0 is Some ==> holds.0 != holds.1,
    ensures
        match holder(holds, at) {
            Some(h) => h < 2 && half(holds, h as int) == Some(at),
            None => half(holds, 0) != Some(at) && half(holds, 1) != Some(at),
        },
        spare(holds, at) < 2,
        at > 0 ==> half(holds, spare(holds, at) as int) != Some((at - 1) as usize),
        at > 0 && half(holds, 0) != Some((at - 1) as usize) ==> spare(holds, at) == 0,
        at == 0 ==> spare(holds, at) == 0,
{
}

/// An id that names no expert there is is refused where it is the first such,
/// and otherwise every id that names one at all is counted.
pub proof fn a_lookup_names_an_expert_of_the_layer(ids: Seq<i32>, experts: u32)
    ensures
        match first_outside(ids, experts) {
            Some(e) => exists|i: int|
                0 <= i < ids.len() && e == #[trigger] ids[i] && ids[i] >= experts && forall|j: int|
                    0 <= j < i ==> #[trigger] ids[j] < experts,
            None => forall|i: int| 0 <= i < ids.len() ==> #[trigger] ids[i] < experts,
        },
        looked_up(ids) == Set::new(|i: int| 0 <= i < ids.len() && ids[i] >= 0).len(),
        Set::new(|i: int| 0 <= i < ids.len() && ids[i] >= 0).finite(),
    decreases ids.len(),
{
    let named = Set::new(|i: int| 0 <= i < ids.len() && ids[i] >= 0);
    if ids.len() == 0 {
        assert(named =~= Set::empty());
    } else {
        let head = ids.drop_last();
        a_lookup_names_an_expert_of_the_layer(head, experts);
        let before = Set::new(|i: int| 0 <= i < head.len() && head[i] >= 0);
        let k = ids.len() - 1;
        assert(ids[k] == ids.last());
        if ids.last() >= 0 {
            assert(named =~= before.insert(k));
        } else {
            assert(named =~= before);
        }
        if let Some(e) = first_outside(ids, experts) {
            if first_outside(head, experts) is Some {
                let i = choose|i: int|
                    0 <= i < head.len() && e == #[trigger] head[i] && head[i] >= experts && forall|j: int|
                        0 <= j < i ==> #[trigger] head[j] < experts;
                assert(ids[i] == e);
                assert forall|j: int| 0 <= j < i implies #[trigger] ids[j] < experts by {
                    assert(head[j] < experts);
                }
            } else {
                assert(ids[k] == e);
                assert forall|j: int| 0 <= j < k implies #[trigger] ids[j] < experts by {
                    assert(head[j] < experts);
                }
            }
        } else {
            assert forall|i: int| 0 <= i < ids.len() implies #[trigger] ids[i] < experts by {
                if i < k {
                    assert(head[i] < experts);
                }
            }
        }
    }
}

} // verus!
