//! One cut of a decode fire as its rows are read: predictions first, then
//! the seats of what the router named.

use vstd::prelude::*;

use crate::experts::deciding::{decided, jobs_for};
use crate::experts::pool::Hold;
use crate::experts::predict::{cells, predicts, raws, unread};
use crate::experts::tally::Tally;
use crate::experts::tier::{in_the_air, spans_fit, Seating, Tier, TierView};
use crate::fault::Fault;
use crate::ids::ids;

verus! {

impl Tier {
    /// Seat a segment's routed experts: `rows` of them, `raw` its routing
    /// vector as it was read, `truth` and `hint` the same vector and the next
    /// group's prediction, row by row, where predictions are kept. A segment
    /// without rows seats nothing.
    pub fn segment_rows(
        &mut self,
        at: usize,
        rows: u32,
        truth: Result<Vec<Vec<i32>>, Fault>,
        hint: Option<Result<Vec<Vec<i32>>, Fault>>,
        raw: Result<Vec<u8>, Fault>,
    ) -> (seating: Result<Option<Seating>, Fault>)
        requires
            old(self).wf(),
            at < old(self).seats.groups@.len(),
            spans_fit(old(self).seats.groups@[at as int], old(self).seats.pool.slots),
            truth matches Ok(rows) ==> old(self).tally.prediction.room(cells(raws(rows@))),
            raw matches Ok(raw) ==> {
                &&& old(self).tally.hits + raw@.len() / 4 <= u64::MAX
                &&& old(self).tally.misses + raw@.len() / 4 <= u64::MAX
            },
        ensures
            final(self).wf(),
            final(self).beside(old(self)),
            rows == 0 ==> final(self)@ == old(self)@ && seating == Ok::<Option<Seating>, Fault>(None),
            rows > 0 ==> predicts(
                (old(self).tally.prediction, old(self)@.predicted),
                (final(self).tally.prediction, final(self)@.predicted),
                old(self).seats.groups@[at as int].experts,
                old(self).seats.groups@[at as int].seat_of@,
                at,
                truth,
                hint,
            ),
            rows > 0 ==> ({
                let mid = TierView {
                    tally: Tally {
                        prediction: final(self).tally.prediction,
                        ..old(self).tally
                    },
                    predicted: final(self)@.predicted,
                    ..old(self)@
                };
                match (unread(old(self)@.predicted, at, truth, hint), raw) {
                    (Some(fault), _) => {
                        &&& final(self)@ == mid
                        &&& seating == Err::<Option<Seating>, Fault>(fault)
                    },
                    (None, Err(fault)) => {
                        &&& final(self)@ == mid
                        &&& seating == Err::<Option<Seating>, Fault>(fault)
                    },
                    (None, Ok(raw)) => {
                        let group = old(self).seats.groups@[at as int];
                        let d = decided(old(self)@.seats, at, group.experts, ids(raw@));
                        &&& final(self)@ == (TierView {
                            seats: d.seats,
                            tally: Tally {
                                hits: (old(self).tally.hits + d.hits) as u64,
                                misses: (old(self).tally.misses + d.misses) as u64,
                                ..mid.tally
                            },
                            ..mid
                        })
                        &&& match seating {
                            Ok(None) => false,
                            Ok(Some(seating)) => {
                                &&& d.stop is None
                                &&& seating.landing@ == d.landing
                                &&& seating.jobs@ == jobs_for(group.bands@, d.landing)
                                &&& in_the_air(
                                    final(self)@.seats,
                                    seating.landing@,
                                    Hold::Segment,
                                )
                            },
                            Err(fault) => d.stop matches Some(stop) && fault == old(self).refusal(
                                at as int,
                                stop,
                            ),
                        }
                    },
                }
            }),
    {
        if rows == 0 {
            return Ok(None);
        }
        if let Err(why) = self.predict(at, truth, hint) {
            return Err(why);
        }
        let raw: Vec<u8> = match raw {
            Ok(raw) => raw,
            Err(why) => {
                return Err(why);
            },
        };
        assert(self.seats.groups@[at as int].bands == old(self).seats.groups@[at as int].bands);
        match self.decide(at, &raw) {
            Ok(seating) => Ok(Some(seating)),
            Err(why) => Err(why),
        }
    }
}

} // verus!
