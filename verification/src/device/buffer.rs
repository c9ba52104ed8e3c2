//! A device reservation: which spans lie inside it, how copies into it are
//! shared out over threads, and how a read is driven to its end.

use vstd::prelude::*;

use crate::experts::deciding::Job;
use crate::fault::{Fault, Refusal, What};

verus! {

/// A reservation of so many bytes.
#[derive(Debug, Clone, Copy, PartialEq, Eq, Structural)]
pub struct Buffer {
    pub bytes: u64,
}

/// Whether `len` bytes from `offset` lie inside `bytes`, and what they are
/// refused with where not.
pub open spec fn outside(bytes: u64, offset: u64, len: u64) -> Option<Fault> {
    if offset + len > u64::MAX {
        Some(Fault::Ceiling { what: What::Reservation, need: u64::MAX, have: bytes })
    } else if offset + len > bytes {
        Some(
            Fault::Ceiling { what: What::Reservation, need: (offset + len) as u64, have: bytes },
        )
    } else {
        None
    }
}

/// The first job of the first `n` whose destination, or source where that
/// lies in the reservation too, is outside it.
pub open spec fn first_outside(bytes: u64, jobs: Seq<Job>, within: bool, n: nat) -> Option<Fault>
    decreases n,
{
    if n == 0 {
        None
    } else if first_outside(bytes, jobs, within, (n - 1) as nat) is Some {
        first_outside(bytes, jobs, within, (n - 1) as nat)
    } else if outside(bytes, jobs[n - 1].0, jobs[n - 1].2) is Some {
        outside(bytes, jobs[n - 1].0, jobs[n - 1].2)
    } else if within {
        outside(bytes, jobs[n - 1].1, jobs[n - 1].2)
    } else {
        None
    }
}

proof fn lemma_first_outside_stays(bytes: u64, jobs: Seq<Job>, within: bool, n: nat, m: nat)
    requires
        n <= m,
        first_outside(bytes, jobs, within, n) is Some,
    ensures
        first_outside(bytes, jobs, within, m) == first_outside(bytes, jobs, within, n),
    decreases m,
{
    if n < m {
        lemma_first_outside_stays(bytes, jobs, within, n, (m - 1) as nat);
    }
}

impl Buffer {
    pub fn bytes(&self) -> (bytes: u64)
        ensures
            bytes == self.bytes,
    {
        self.bytes
    }

    /// Whether `len` bytes from `offset` lie inside the reservation.
    pub fn span(&self, offset: u64, len: u64) -> (done: Result<(), Fault>)
        ensures
            match done {
                Ok(_) => outside(self.bytes, offset, len) is None,
                Err(fault) => outside(self.bytes, offset, len) == Some(fault),
            },
    {
        match offset.checked_add(len) {
            None => Err(
                Fault::Ceiling { what: What::Reservation, need: u64::MAX, have: self.bytes },
            ),
            Some(end) => if end > self.bytes {
                Err(Fault::Ceiling { what: What::Reservation, need: end, have: self.bytes })
            } else {
                Ok(())
            },
        }
    }

    /// The device address of byte `offset`, the reservation lying at `base`.
    pub fn address_at(&self, base: u64, offset: u64) -> (address: Option<u64>)
        ensures
            address == if offset > self.bytes || base + offset > u64::MAX {
                None
            } else {
                Some((base + offset) as u64)
            },
    {
        if self.span(offset, 0).is_err() {
            return None;
        }
        base.checked_add(offset)
    }

    fn check(&self, jobs: &Vec<Job>, within: bool) -> (done: Result<(), Fault>)
        ensures
            match done {
                Ok(_) => first_outside(self.bytes, jobs@, within, jobs@.len()) is None,
                Err(fault) => first_outside(self.bytes, jobs@, within, jobs@.len()) == Some(fault),
            },
    {
        let mut i: usize = 0;
        while i < jobs.len()
            invariant
                i <= jobs@.len(),
                first_outside(self.bytes, jobs@, within, i as nat) is None,
            decreases jobs@.len() - i,
        {
            let (into, from, len) = jobs[i];
            if let Err(why) = self.span(into, len) {
                proof {
                    lemma_first_outside_stays(
                        self.bytes,
                        jobs@,
                        within,
                        (i + 1) as nat,
                        jobs@.len(),
                    );
                }
                return Err(why);
            }
            if within {
                if let Err(why) = self.span(from, len) {
                    proof {
                        lemma_first_outside_stays(
                            self.bytes,
                            jobs@,
                            within,
                            (i + 1) as nat,
                            jobs@.len(),
                        );
                    }
                    return Err(why);
                }
            }
            i += 1;
        }
        Ok(())
    }

    /// Whether copies inside this reservation can be made: every job's
    /// source and destination span lies inside it.
    pub fn copier(&self, jobs: &Vec<Job>) -> (done: Result<(), Fault>)
        ensures
            match done {
                Ok(_) => first_outside(self.bytes, jobs@, true, jobs@.len()) is None,
                Err(fault) => first_outside(self.bytes, jobs@, true, jobs@.len()) == Some(fault),
            },
    {
        self.check(jobs, true)
    }

    /// Whether reads into this reservation can be made: every job's
    /// destination span lies inside it.
    pub fn file_writer(&self, jobs: &Vec<Job>) -> (done: Result<(), Fault>)
        ensures
            match done {
                Ok(_) => first_outside(self.bytes, jobs@, false, jobs@.len()) is None,
                Err(fault) => first_outside(self.bytes, jobs@, false, jobs@.len()) == Some(fault),
            },
    {
        self.check(jobs, false)
    }
}

/// Jobs that are let through lie inside the reservation, every one.
pub proof fn checked_jobs_lie_inside(bytes: u64, jobs: Seq<Job>, within: bool, n: nat)
    requires
        n <= jobs.len(),
        first_outside(bytes, jobs, within, n) is None,
    ensures
        forall|i: int|
            0 <= i < n ==> {
                &&& (#[trigger] jobs[i]).0 + jobs[i].2 <= bytes
                &&& within ==> jobs[i].1 + jobs[i].2 <= bytes
            },
    decreases n,
{
    if n > 0 {
        checked_jobs_lie_inside(bytes, jobs, within, (n - 1) as nat);
    }
}

/// How many of `jobs` each thread takes when they are shared out over
/// `threads`: no thread without work, and at least one.
pub fn share(jobs: usize, threads: usize) -> (per: usize)
    requires
        jobs > 0,
    ensures
        ({
            let t = if threads < 1 { 1 } else if threads > jobs { jobs as int } else { threads as int };
            per == (jobs + t - 1) / t
        }),
        1 <= per <= jobs,
{
    let t: usize = if threads < 1 {
        1
    } else if threads > jobs {
        jobs
    } else {
        threads
    };
    let whole: usize = jobs / t;
    proof {
        vstd::arithmetic::div_mod::lemma_fundamental_div_mod(jobs as int, t as int);
        let r = jobs as int % t as int;
        assert(jobs == t * whole + r);
        if r == 0 {
            assert((jobs + t - 1) / t as int == whole) by (nonlinear_arith)
                requires
                    jobs == t * whole,
                    t > 0,
            ;
        } else {
            assert((jobs + t - 1) / t as int == whole + 1) by (nonlinear_arith)
                requires
                    jobs == t * whole + r,
                    0 < r < t,
            ;
        }
        assert(1 <= whole <= jobs && (r > 0 ==> whole + 1 <= jobs)) by (nonlinear_arith)
            requires
                jobs == t * whole + r,
                0 <= r < t,
                1 <= t <= jobs,
                whole >= 0,
        ;
    }
    if jobs % t == 0 {
        whole
    } else {
        whole + 1
    }
}

/// Shares of that size are no more than there are threads, and the last of
/// them reaches the last job.
pub proof fn shares_cover_the_jobs(jobs: int, threads: int)
    requires
        jobs > 0,
        threads > 0,
    ensures
        ({
            let t = if threads > jobs { jobs } else { threads };
            let per = (jobs + t - 1) / t;
            let shares = (jobs + per - 1) / per;
            &&& per > 0
            &&& shares <= threads
            &&& per * shares >= jobs
        }),
{
    let t = if threads > jobs { jobs } else { threads };
    let per = (jobs + t - 1) / t;
    assert(per >= 1 && per * t >= jobs) by (nonlinear_arith)
        requires
            per == (jobs + t - 1) / t,
            jobs > 0,
            t > 0,
    ;
    let shares = (jobs + per - 1) / per;
    assert(per * shares >= jobs && shares <= t) by (nonlinear_arith)
        requires
            shares == (jobs + per - 1) / per,
            per >= 1,
            per * t >= jobs,
            jobs > 0,
            t > 0,
    ;
}

/// The most one read asks for.
pub const READ_MOST: u64 = 0x4000_0000;

/// The next read that takes a job of `len` bytes from byte `from` further
/// than `done`: how many bytes, and from where; none once it is done.
pub fn next_read(from: u64, len: u64, done: u64) -> (next: Result<Option<(usize, i64)>, Fault>)
    requires
        done <= len,
        from + len <= u64::MAX,
    ensures
        match next {
            Ok(None) => done == len,
            Ok(Some((want, at))) => {
                &&& done < len
                &&& at == from + done
                &&& want == if len - done < READ_MOST { len - done } else { READ_MOST as int }
            },
            Err(fault) => {
                &&& done < len
                &&& from + done > i64::MAX
                &&& fault == Fault::Residency(Refusal::OffsetTooFar { at: (from + done) as u64 })
            },
        },
        done < len && from + done <= i64::MAX ==> next is Ok,
{
    if done == len {
        return Ok(None);
    }
    let at: u64 = from + done;
    if at > 0x7fff_ffff_ffff_ffff {
        return Err(Fault::Residency(Refusal::OffsetTooFar { at }));
    }
    let left: u64 = len - done;
    let want: u64 = if left < READ_MOST { left } else { READ_MOST };
    Ok(Some((want as usize, at as i64)))
}

/// What a read answered: so many bytes, or why none.
#[derive(Debug)]
pub enum Got {
    Bytes(usize),
    Failed(String),
}

/// How far a job is once a read of `want` bytes answered `got`.
pub fn read_got(from: u64, len: u64, done: u64, want: usize, got: Got) -> (now: Result<u64, Fault>)
    requires
        done < len,
        from + len <= u64::MAX,
        want <= len - done,
        got matches Got::Bytes(n) ==> n <= want,
    ensures
        match got {
            Got::Failed(why) => now == Err::<u64, Fault>(
                Fault::Residency(Refusal::ReadFailed { want, at: (from + done) as u64, why }),
            ),
            Got::Bytes(n) => if n == 0 {
                now == Err::<u64, Fault>(
                    Fault::Residency(
                        Refusal::EndOfFile {
                            at: (from + done) as u64,
                            short: (len - done) as u64,
                        },
                    ),
                )
            } else {
                now == Ok::<u64, Fault>((done + n) as u64)
            },
        },
{
    match got {
        Got::Failed(why) => Err(
            Fault::Residency(Refusal::ReadFailed { want, at: from + done, why }),
        ),
        Got::Bytes(n) => if n == 0 {
            Err(Fault::Residency(Refusal::EndOfFile { at: from + done, short: len - done }))
        } else {
            Ok(done + n as u64)
        },
    }
}

/// Jobs that all lie inside are taken, and otherwise the first that does not
/// is what they are refused for: its destination, or, where it comes from
/// the buffer itself, its source.
pub proof fn the_first_job_outside_is_refused(bytes: u64, jobs: Seq<Job>, within: bool, n: nat)
    requires
        n <= jobs.len(),
    ensures
        first_outside(bytes, jobs, within, n) is None <==> forall|i: int|
            0 <= i < n ==> {
                &&& (#[trigger] jobs[i]).0 + jobs[i].2 <= bytes
                &&& within ==> jobs[i].1 + jobs[i].2 <= bytes
            },
        first_outside(bytes, jobs, within, n) is Some ==> exists|i: int|
            {
                let end = if jobs[i].0 + jobs[i].2 > bytes {
                    jobs[i].0 + jobs[i].2
                } else {
                    jobs[i].1 + jobs[i].2
                };
                &&& 0 <= i < n
                &&& end > bytes
                &&& (#[trigger] jobs[i]).0 + jobs[i].2 > bytes || within
                &&& forall|j: int|
                    0 <= j < i ==> {
                        &&& (#[trigger] jobs[j]).0 + jobs[j].2 <= bytes
                        &&& within ==> jobs[j].1 + jobs[j].2 <= bytes
                    }
                &&& first_outside(bytes, jobs, within, n) == Some(
                    Fault::Ceiling {
                        what: What::Reservation,
                        need: if end > u64::MAX {
                            u64::MAX
                        } else {
                            end as u64
                        },
                        have: bytes,
                    },
                )
            },
    decreases n,
{
    if n > 0 {
        the_first_job_outside_is_refused(bytes, jobs, within, (n - 1) as nat);
        if first_outside(bytes, jobs, within, n) is Some && first_outside(
            bytes,
            jobs,
            within,
            (n - 1) as nat,
        ) is None {
            let last = jobs[n - 1];
            assert(first_outside(bytes, jobs, within, n) == if last.0 + last.2 > bytes {
                outside(bytes, last.0, last.2)
            } else {
                outside(bytes, last.1, last.2)
            });
        }
    }
}

} // verus!
