//! What the pool reports and logs. Times are whole nanoseconds.

use vstd::prelude::*;

verus! {

/// How well the route predictions do: of `total` experts a router named,
/// `covered[i]` stood among the first few predicted ones, and of the
/// `misses`, `saved[i]` did.
#[derive(Debug, Clone, Copy, PartialEq, Eq)]
pub struct Prediction {
    pub total: u64,
    pub covered: [u64; 4],
    pub misses: u64,
    pub saved: [u64; 4],
    pub prefetched: u64,
}

/// One fire's slice of the tally.
#[derive(Debug, Clone, Copy, PartialEq, Eq, Structural)]
pub struct FireRecord {
    pub rows: u32,
    pub cuts: u64,
    pub copies: u64,
    pub hits: u64,
    pub misses: u64,
    pub bytes_read: u64,
    pub cut_ns: u64,
    pub copy_ns: u64,
    pub wait_ns: u64,
    pub walk_ns: u64,
    /// Device time of this fire's cut frames (every frame but the last).
    pub gpu_cut_ns: u64,
    /// Device time of final frames that landed since the previous record
    /// closed: the fire before this one, in steady decode.
    pub gpu_tail_ns: u64,
    /// Host time of the n-gram row gather at the hasher's cut: the join of
    /// a prefetch, and any rows read there and then.
    pub ple_ns: u64,
    /// N-gram rows this fire read from the artifact, and how many of them
    /// the prefetch had not already landed (read at the cut instead).
    pub ple_reads: u64,
    pub ple_prefetch_misses: u64,
    /// Wall clock as this fire opened, since the load's first fire.
    pub t_ns: u64,
}

/// One cut's slice: a layer's own misses, and what they cost it.
#[derive(Debug, Clone, Copy, PartialEq, Eq, Structural)]
pub struct CutRecord {
    pub fire: u64,
    pub group: u32,
    pub rows: u32,
    pub misses: u64,
    pub hits: u64,
    pub copies: u64,
    pub bytes_read: u64,
    /// Host time this cut spent reading its misses.
    pub copy_ns: u64,
    /// Host time waiting on the device for the frame this cut closed.
    pub wait_ns: u64,
    /// Device time that frame reported.
    pub gpu_ns: u64,
    /// The whole cut, reading and seating together.
    pub cut_ns: u64,
}

/// The counters at some moment.
#[derive(Debug, Clone, Copy, PartialEq, Eq, Structural)]
pub struct Mark {
    pub swaps: u64,
    pub segments: u64,
    pub hits: u64,
    pub misses: u64,
    pub bytes_read: u64,
    pub cut_ns: u64,
    pub copy_ns: u64,
    pub wait_ns: u64,
    pub gpu_ns: u64,
    pub tail_ns: u64,
    pub rows_ns: u64,
}

impl Mark {
    /// No counter of `self` is past its counter in `later`.
    pub open spec fn before(self, later: Mark) -> bool {
        &&& self.swaps <= later.swaps
        &&& self.segments <= later.segments
        &&& self.hits <= later.hits
        &&& self.misses <= later.misses
        &&& self.bytes_read <= later.bytes_read
        &&& self.cut_ns <= later.cut_ns
        &&& self.copy_ns <= later.copy_ns
        &&& self.wait_ns <= later.wait_ns
        &&& self.gpu_ns <= later.gpu_ns
        &&& self.tail_ns <= later.tail_ns
        &&& self.rows_ns <= later.rows_ns
    }

    pub open spec fn zero() -> Mark {
        Mark {
            swaps: 0,
            segments: 0,
            hits: 0,
            misses: 0,
            bytes_read: 0,
            cut_ns: 0,
            copy_ns: 0,
            wait_ns: 0,
            gpu_ns: 0,
            tail_ns: 0,
            rows_ns: 0,
        }
    }
}

/// What the pool has done, counted as it goes, and one fire's slice of it.
/// Nothing outside reads a counter in order to subtract it from another one
/// later.
#[derive(Debug, Clone, Copy, PartialEq, Eq)]
pub struct Tally {
    pub swaps: u64,
    pub segments: u64,
    pub hits: u64,
    pub misses: u64,
    pub bytes_read: u64,
    pub cut_ns: u64,
    pub copy_ns: u64,
    pub wait_ns: u64,
    pub gpu_ns: u64,
    /// Device time of the fires' final frames, summed as they land.
    pub tail_ns: u64,
    /// Host time of the n-gram row gathers.
    pub rows_ns: u64,
    /// This fire's n-gram row reads, and how many the prefetch missed.
    pub rows_read: u64,
    pub rows_missed: u64,
    /// When the load's first fire opened, and how long after it this one did.
    pub first: Option<u64>,
    pub at_ns: u64,
    pub prediction: Prediction,
    pub fires: u64,
    pub report_every: u64,
    pub at: Mark,
    /// The counters as the cut before this one closed.
    pub cut_at: Mark,
}

impl Tally {
    pub open spec fn now(self) -> Mark {
        Mark {
            swaps: self.swaps,
            segments: self.segments,
            hits: self.hits,
            misses: self.misses,
            bytes_read: self.bytes_read,
            cut_ns: self.cut_ns,
            copy_ns: self.copy_ns,
            wait_ns: self.wait_ns,
            gpu_ns: self.gpu_ns,
            tail_ns: self.tail_ns,
            rows_ns: self.rows_ns,
        }
    }

    /// The marks lie behind the counters.
    pub open spec fn wf(self) -> bool {
        self.at.before(self.now()) && self.cut_at.before(self.now())
    }

    /// Nothing counted yet.
    pub open spec fn fresh(self, report_every: u64) -> bool {
        &&& self == (Tally {
            swaps: 0,
            segments: 0,
            hits: 0,
            misses: 0,
            bytes_read: 0,
            cut_ns: 0,
            copy_ns: 0,
            wait_ns: 0,
            gpu_ns: 0,
            tail_ns: 0,
            rows_ns: 0,
            rows_read: 0,
            rows_missed: 0,
            first: None,
            at_ns: 0,
            prediction: self.prediction,
            fires: 0,
            report_every,
            at: Mark::zero(),
            cut_at: Mark::zero(),
        })
        &&& self.prediction.total == 0
        &&& self.prediction.misses == 0
        &&& self.prediction.prefetched == 0
        &&& forall|i: int| 0 <= i < 4 ==> self.prediction.covered@[i] == 0
        &&& forall|i: int| 0 <= i < 4 ==> self.prediction.saved@[i] == 0
    }

    pub fn new(report_every: u64) -> (tally: Tally)
        ensures
            tally.wf(),
            tally.fresh(report_every),
    {
        let zero = Mark {
            swaps: 0,
            segments: 0,
            hits: 0,
            misses: 0,
            bytes_read: 0,
            cut_ns: 0,
            copy_ns: 0,
            wait_ns: 0,
            gpu_ns: 0,
            tail_ns: 0,
            rows_ns: 0,
        };
        Tally {
            swaps: 0,
            segments: 0,
            hits: 0,
            misses: 0,
            bytes_read: 0,
            cut_ns: 0,
            copy_ns: 0,
            wait_ns: 0,
            gpu_ns: 0,
            tail_ns: 0,
            rows_ns: 0,
            rows_read: 0,
            rows_missed: 0,
            first: None,
            at_ns: 0,
            prediction: Prediction {
                total: 0,
                covered: [0, 0, 0, 0],
                misses: 0,
                saved: [0, 0, 0, 0],
                prefetched: 0,
            },
            fires: 0,
            report_every,
            at: zero,
            cut_at: zero,
        }
    }

    pub fn mark(&self) -> (mark: Mark)
        ensures
            mark == self.now(),
    {
        Mark {
            swaps: self.swaps,
            segments: self.segments,
            hits: self.hits,
            misses: self.misses,
            bytes_read: self.bytes_read,
            cut_ns: self.cut_ns,
            copy_ns: self.copy_ns,
            wait_ns: self.wait_ns,
            gpu_ns: self.gpu_ns,
            tail_ns: self.tail_ns,
            rows_ns: self.rows_ns,
        }
    }

    /// A fire opens, at `now` by the caller's clock: when it opened is what
    /// says how long the one before it took. The counters' mark stays where
    /// the last close left it, so a final frame that lands between one
    /// fire's close and the next one's open is counted by the record that
    /// follows, rather than by none.
    pub fn open(&mut self, now: u64)
        ensures
            *final(self) == old(self).opened(now),
    {
        let first: u64 = match self.first {
            Some(first) => first,
            None => now,
        };
        self.first = Some(first);
        self.at_ns = now.saturating_sub(first);
    }

    pub open spec fn opened(self, now: u64) -> Tally {
        let first = match self.first {
            Some(first) => first,
            None => now,
        };
        Tally {
            first: Some(first),
            at_ns: if now >= first { (now - first) as u64 } else { 0 },
            ..self
        }
    }

    /// A fire closes: its own slice, and one more fire on the count.
    pub fn close(&mut self, rows: u32, walk_ns: u64) -> (record: FireRecord)
        requires
            old(self).wf(),
            old(self).fires < u64::MAX,
        ensures
            final(self).wf(),
            *final(self) == old(self).closed(),
            record == old(self).record(rows, walk_ns),
    {
        let at = self.at;
        self.at = self.mark();
        self.fires = self.fires + 1;
        let reads = self.rows_read;
        let missed = self.rows_missed;
        self.rows_read = 0;
        self.rows_missed = 0;
        FireRecord {
            rows,
            cuts: self.segments - at.segments,
            copies: self.swaps - at.swaps,
            hits: self.hits - at.hits,
            misses: self.misses - at.misses,
            bytes_read: self.bytes_read - at.bytes_read,
            cut_ns: self.cut_ns - at.cut_ns,
            copy_ns: self.copy_ns - at.copy_ns,
            wait_ns: self.wait_ns - at.wait_ns,
            walk_ns,
            gpu_cut_ns: self.gpu_ns - at.gpu_ns,
            gpu_tail_ns: self.tail_ns - at.tail_ns,
            ple_ns: self.rows_ns - at.rows_ns,
            ple_reads: reads,
            ple_prefetch_misses: missed,
            t_ns: self.at_ns,
        }
    }

    /// The tally once a fire has closed.
    pub open spec fn closed(self) -> Tally {
        Tally {
            at: self.now(),
            fires: (self.fires + 1) as u64,
            rows_read: 0,
            rows_missed: 0,
            ..self
        }
    }

    /// What has been counted since the last fire closed.
    pub open spec fn record(self, rows: u32, walk_ns: u64) -> FireRecord {
        FireRecord {
            rows,
            cuts: (self.segments - self.at.segments) as u64,
            copies: (self.swaps - self.at.swaps) as u64,
            hits: (self.hits - self.at.hits) as u64,
            misses: (self.misses - self.at.misses) as u64,
            bytes_read: (self.bytes_read - self.at.bytes_read) as u64,
            cut_ns: (self.cut_ns - self.at.cut_ns) as u64,
            copy_ns: (self.copy_ns - self.at.copy_ns) as u64,
            wait_ns: (self.wait_ns - self.at.wait_ns) as u64,
            walk_ns,
            gpu_cut_ns: (self.gpu_ns - self.at.gpu_ns) as u64,
            gpu_tail_ns: (self.tail_ns - self.at.tail_ns) as u64,
            ple_ns: (self.rows_ns - self.at.rows_ns) as u64,
            ple_reads: self.rows_read,
            ple_prefetch_misses: self.rows_missed,
            t_ns: self.at_ns,
        }
    }

    pub fn fires(&self) -> (fires: u64)
        ensures
            fires == self.fires,
    {
        self.fires
    }

    /// One cut closes: its own slice of the counters since the cut before.
    pub fn close_cut(&mut self, group: u32, rows: u32, cut_ns: u64) -> (record: CutRecord)
        requires
            old(self).wf(),
        ensures
            final(self).wf(),
            *final(self) == (Tally { cut_at: old(self).now(), ..*old(self) }),
            record == old(self).cut_record(group, rows, cut_ns),
    {
        let at = self.cut_at;
        self.cut_at = self.mark();
        CutRecord {
            fire: self.fires,
            group,
            rows,
            misses: self.misses - at.misses,
            hits: self.hits - at.hits,
            copies: self.swaps - at.swaps,
            bytes_read: self.bytes_read - at.bytes_read,
            copy_ns: self.copy_ns - at.copy_ns,
            wait_ns: self.wait_ns - at.wait_ns,
            gpu_ns: self.gpu_ns - at.gpu_ns,
            cut_ns,
        }
    }

    /// What has been counted since the last cut closed.
    pub open spec fn cut_record(self, group: u32, rows: u32, cut_ns: u64) -> CutRecord {
        CutRecord {
            fire: self.fires,
            group,
            rows,
            misses: (self.misses - self.cut_at.misses) as u64,
            hits: (self.hits - self.cut_at.hits) as u64,
            copies: (self.swaps - self.cut_at.swaps) as u64,
            bytes_read: (self.bytes_read - self.cut_at.bytes_read) as u64,
            copy_ns: (self.copy_ns - self.cut_at.copy_ns) as u64,
            wait_ns: (self.wait_ns - self.cut_at.wait_ns) as u64,
            gpu_ns: (self.gpu_ns - self.cut_at.gpu_ns) as u64,
            cut_ns,
        }
    }

    /// Whether this fire is one the pool says a word about.
    pub fn due(&self) -> (due: bool)
        ensures
            due <==> self.report_every > 0 && self.fires % self.report_every == 0,
    {
        self.report_every > 0 && self.fires % self.report_every == 0
    }
}

/// What fire records add up to.
#[verifier::ext_equal]
pub struct Sums {
    pub swaps: int,
    pub segments: int,
    pub hits: int,
    pub misses: int,
    pub bytes_read: int,
    pub cut_ns: int,
    pub copy_ns: int,
    pub wait_ns: int,
    pub gpu_ns: int,
    pub tail_ns: int,
    pub rows_ns: int,
}

impl Mark {
    pub open spec fn sums(self) -> Sums {
        Sums {
            swaps: self.swaps as int,
            segments: self.segments as int,
            hits: self.hits as int,
            misses: self.misses as int,
            bytes_read: self.bytes_read as int,
            cut_ns: self.cut_ns as int,
            copy_ns: self.copy_ns as int,
            wait_ns: self.wait_ns as int,
            gpu_ns: self.gpu_ns as int,
            tail_ns: self.tail_ns as int,
            rows_ns: self.rows_ns as int,
        }
    }
}

/// Every slice of every record added up.
pub open spec fn summed(records: Seq<FireRecord>) -> Sums
    decreases records.len(),
{
    if records.len() == 0 {
        Mark::zero().sums()
    } else {
        let rest = summed(records.drop_last());
        let last = records.last();
        Sums {
            swaps: rest.swaps + last.copies,
            segments: rest.segments + last.cuts,
            hits: rest.hits + last.hits,
            misses: rest.misses + last.misses,
            bytes_read: rest.bytes_read + last.bytes_read,
            cut_ns: rest.cut_ns + last.cut_ns,
            copy_ns: rest.copy_ns + last.copy_ns,
            wait_ns: rest.wait_ns + last.wait_ns,
            gpu_ns: rest.gpu_ns + last.gpu_cut_ns,
            tail_ns: rest.tail_ns + last.gpu_tail_ns,
            rows_ns: rest.rows_ns + last.ple_ns,
        }
    }
}

impl Tally {
    /// Between two closes: fires may open, cuts close and counters run on,
    /// but no fire closes.
    pub open spec fn runs_on(self, later: Tally) -> bool {
        &&& later.wf()
        &&& self.now().before(later.now())
        &&& later.at == self.at
        &&& later.fires == self.fires
    }
}

/// A fire that opens and a cut that closes are such as come between closes.
pub proof fn an_open_is_no_close(t: Tally, now: u64)
    requires
        t.wf(),
    ensures
        t.runs_on(t.opened(now)),
        t.runs_on(Tally { cut_at: t.now(), ..t }),
{
}

/// A run of fires, `closes[k]` being the tally as the `k`th of them closes
/// and `records[k]` what that close says: from the load on, the records add
/// up to the counters as the last fire closed, so nothing is counted twice
/// or lost; every close is one fire more; and each hands over the rows read
/// and missed since the last, which start again from nothing.
pub proof fn records_partition_the_counters(
    report_every: u64,
    start: Tally,
    closes: Seq<Tally>,
    records: Seq<FireRecord>,
)
    requires
        start.fresh(report_every),
        closes.len() > 0,
        closes.len() <= u64::MAX,
        start.runs_on(closes[0]),
        forall|k: int|
            0 < k < closes.len() ==> closes[k - 1].closed().runs_on(#[trigger] closes[k]),
        records.len() == closes.len(),
        forall|k: int|
            0 <= k < closes.len() ==> #[trigger] records[k] == closes[k].record(
                records[k].rows,
                records[k].walk_ns,
            ),
    ensures
        summed(records) == closes.last().now().sums(),
        closes.last().closed().fires == closes.len(),
        forall|k: int|
            0 <= k < closes.len() ==> {
                &&& (#[trigger] records[k]).ple_reads == closes[k].rows_read
                &&& records[k].ple_prefetch_misses == closes[k].rows_missed
                &&& closes[k].closed().rows_read == 0
                &&& closes[k].closed().rows_missed == 0
            },
    decreases closes.len(),
{
    let n = closes.len() - 1;
    assert(records[n] == closes[n].record(records[n].rows, records[n].walk_ns));
    let head = closes.drop_last();
    let said = records.drop_last();
    if n == 0 {
        assert(said =~= Seq::<FireRecord>::empty());
        assert(summed(said) == Mark::zero().sums());
    } else {
        assert forall|k: int| 0 < k < head.len() implies head[k - 1].closed().runs_on(
            #[trigger] head[k],
        ) by {
            assert(head[k] == closes[k] && head[k - 1] == closes[k - 1]);
        }
        assert forall|k: int| 0 <= k < head.len() implies #[trigger] said[k] == head[k].record(
            said[k].rows,
            said[k].walk_ns,
        ) by {
            assert(said[k] == records[k] && head[k] == closes[k]);
        }
        records_partition_the_counters(report_every, start, head, said);
        assert(head.last() == closes[n - 1]);
        assert(closes[n - 1].closed().runs_on(closes[n]));
    }
    assert(closes[n].wf());
    assert(records.last() == records[n] && closes.last() == closes[n]);
    assert(summed(records) =~= closes.last().now().sums());
}

} // verus!
