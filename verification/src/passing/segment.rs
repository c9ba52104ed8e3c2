//! One cut of a fire: the segment's seats, all at once or one pass of them.

use std::collections::BTreeMap;
use vstd::prelude::*;

use crate::experts::deciding::Job;
use crate::experts::plan::pass_seats;
use crate::experts::predict::{cells, predict, predicts, raws, unread};
use crate::fault::{Fault, Refusal};
use crate::ids::{as_signed, bytes_of, id_at, ids, laid, push_word, signed, word, word_at};
use crate::passing::passes::{
    chunks, group_passes, lemma_chunks, lemma_ordered, ordered, pass_group, unknown, Passing,
    PassingView,
};
use crate::passing::room::RoomView;
use crate::passing::sitting::{
    keeps, lemma_routed, lemma_routed_stops, lemma_sat_down, lemma_sat_down_stops, lemma_seat,
    pinned_down, routed, sat_down, Sitting,
};
use crate::passing::tier::{copies, passing_view, Counts, Tier, TierView};

verus! {

/// What a cut asks of the device: the routing vector as the matmuls are to
/// read it, seats in place of experts, and the copies that come before.
#[derive(Debug)]
pub struct Cut {
    pub raw: Vec<u8>,
    pub jobs: Vec<Job>,
}

/// One pass: its cut, if the segment has rows; how many passes the segment
/// takes; and the experts the next of them seats.
#[derive(Debug)]
pub struct Pass {
    pub cut: Option<Cut>,
    pub groups: u32,
    pub next: Option<Vec<u32>>,
}

/// A routing vector with the seat of each expert in its place; an entry that
/// names none stays as it is.
pub open spec fn seat_words(raw: Seq<u8>, room: RoomView, at: int) -> Seq<u32> {
    let all = ids(raw);
    Seq::new(
        all.len(),
        |i: int|
            if all[i] < 0 {
                word(raw, i) as u32
            } else {
                room.seat(at, all[i] as int)->0
            },
    )
}

/// A routing vector with the seats of one pass's experts in their place, and
/// nobody in everyone else's.
pub open spec fn pass_words(all: Seq<i32>, group: Seq<u32>, room: RoomView, at: int) -> Seq<u32> {
    Seq::new(
        all.len(),
        |i: int|
            if all[i] >= 0 && group.contains(all[i] as u32) {
                room.seat(at, all[i] as int)->0
            } else {
                0xffff_ffff
            },
    )
}

impl TierView {
    /// A pass that reads its routing vector anew: the first, or one over
    /// other rows than the last.
    pub open spec fn fresh(self, at: int, row_offset: u32, rows: u32, pass: u32) -> bool {
        pass == 0 || match self.passing[at] {
            None => true,
            Some(p) => p.row_offset != row_offset || p.rows != rows,
        }
    }

    /// The passes over these rows.
    pub open spec fn passes(
        self,
        at: int,
        row_offset: u32,
        rows: u32,
        all: Seq<i32>,
        half: bool,
    ) -> PassingView {
        PassingView {
            row_offset,
            rows,
            ids: all,
            groups: chunks(
                ordered(all, self.room.seat_of[at]),
                pass_seats(self.room.in_seat.len() as int, half),
            ),
        }
    }

    pub open spec fn in_passes(self, at: int, p: PassingView) -> TierView {
        TierView { passing: self.passing.update(at, Some(p)), ..self }
    }

    /// The passes that pass `pass` is one of: those read off the routing
    /// vector `all`, where it is read anew, or else those under way.
    pub open spec fn under_way(
        self,
        at: int,
        row_offset: u32,
        rows: u32,
        pass: u32,
        all: Seq<i32>,
        half: bool,
    ) -> PassingView {
        if self.fresh(at, row_offset, rows, pass) {
            self.passes(at, row_offset, rows, all, half)
        } else {
            self.passing[at]->0
        }
    }

    /// A pass's experts seated, the segment before it over.
    pub open spec fn seating(self, at: usize, p: PassingView, pass: int) -> Sitting {
        sat_down(self.cut().in_passes(at as int, p).sitting(), at, pass_of(p, pass))
    }

    /// The tier once a pass has been seated.
    pub open spec fn passed(self, at: usize, p: PassingView, pass: int) -> TierView {
        self.cut().in_passes(at as int, p).sit(self.seating(at, p, pass)).drained()
    }
}

/// The experts of pass `pass`.
pub open spec fn pass_of(p: PassingView, pass: int) -> Seq<u32> {
    if pass < p.groups.len() {
        p.groups[pass]
    } else {
        Seq::empty()
    }
}

impl Tier {
    /// Write one entry of a routing vector after `out`, its expert's seat in
    /// its place.
    fn rewrite_entry(&mut self, at: usize, w: u32, out: &mut Vec<u8>) -> (done: Result<(), Fault>)
        requires
            old(self).wf(),
            at < old(self).room.groups@.len(),
            old(self)@.spare(1),
        ensures
            final(self).wf(),
            final(self).beside(old(self)),
            ({
                let id = signed(w as int) as i32;
                let s = old(self)@.sitting().entry(
                    at,
                    old(self).room.groups@[at as int].experts,
                    id,
                );
                &&& final(self)@ == old(self)@.sit(s)
                &&& match done {
                    Ok(_) => {
                        &&& s.stop is None
                        &&& final(out)@ == old(out)@ + bytes_of(
                            if id < 0 {
                                w
                            } else {
                                s.room.seat(at as int, id as int)->0
                            },
                        )
                    },
                    Err(fault) => s.stop matches Some(stop) && fault == old(self).refusal(
                        at as int,
                        stop,
                    ),
                }
            }),
    {
        let experts: u32 = self.room.groups[at].experts;
        let id: i32 = as_signed(w);
        if id < 0 {
            push_word(out, w);
            assert(self@ =~= old(self)@.sit(old(self)@.sitting()));
            return Ok(());
        }
        let expert: u32 = id as u32;
        if expert >= experts {
            let name = self.room.groups[at].bands[0].name.clone();
            assert(self@ =~= old(self)@.sit(old(self)@.sitting()));
            return Err(Fault::Residency(Refusal::NoSuchExpert { expert, name, experts }));
        }
        assert(self@.room.seat_of[at as int] == self.room.groups@[at as int].seat_of@);
        proof {
            lemma_seat(self@.sitting(), at, expert);
        }
        match self.seat(at, expert) {
            Ok(seat) => {
                push_word(out, seat);
                Ok(())
            },
            Err(why) => Err(why),
        }
    }

    /// Write every entry of a routing vector over with its expert's seat.
    fn rewrite(&mut self, at: usize, raw: &Vec<u8>) -> (out: Result<Vec<u8>, Fault>)
        requires
            old(self).wf(),
            at < old(self).room.groups@.len(),
            old(self)@.spare(raw@.len() / 4),
        ensures
            final(self).wf(),
            final(self).beside(old(self)),
            ({
                let s = routed(
                    old(self)@.sitting(),
                    at,
                    old(self).room.groups@[at as int].experts,
                    ids(raw@),
                );
                &&& final(self)@ == old(self)@.sit(s)
                &&& match out {
                    Ok(out) => s.stop is None && out@ == laid(seat_words(raw@, s.room, at as int)),
                    Err(fault) => s.stop matches Some(stop) && fault == old(self).refusal(
                        at as int,
                        stop,
                    ),
                }
            }),
    {
        let ghost v = self@;
        let ghost all = ids(raw@);
        let experts: u32 = self.room.groups[at].experts;
        let n: usize = raw.len() / 4;
        let mut out: Vec<u8> = Vec::new();
        let mut i: usize = 0;
        proof {
            assert(all.take(0) =~= Seq::<i32>::empty());
            assert(self@ =~= v.sit(v.sitting()));
            assert(seat_words(raw@, self@.room, at as int).take(0) =~= Seq::<u32>::empty());
        }
        while i < n
            invariant
                n == raw@.len() / 4,
                i <= n,
                all == ids(raw@),
                old(self).wf(),
                v == old(self)@,
                v.spare(n as nat),
                at < old(self).room.groups@.len(),
                experts == old(self).room.groups@[at as int].experts,
                self.wf(),
                self.beside(old(self)),
                routed(v.sitting(), at, experts, all.take(i as int)).stop is None,
                self@ == v.sit(routed(v.sitting(), at, experts, all.take(i as int))),
                out@ == laid(seat_words(raw@, self@.room, at as int).take(i as int)),
            decreases n - i,
        {
            let ghost s = routed(v.sitting(), at, experts, all.take(i as int));
            let ghost m = routed(v.sitting(), at, experts, all.take(i + 1));
            let w: u32 = word_at(raw, i);
            let ghost id = signed(w as int) as i32;
            proof {
                assert(all.take(i + 1).drop_last() =~= all.take(i as int));
                assert(all.take(i + 1).last() == id);
                assert(m == s.entry(at, experts, id));
                lemma_routed(v.sitting(), at, experts, all.take(i as int));
                lemma_sit_again(v, s, m);
                assert(s.room.seat_of[at as int].len() == experts);
                if 0 <= id < experts {
                    lemma_seat(s, at, id as u32);
                }
            }
            i += 1;
            match self.rewrite_entry(at, w, &mut out) {
                Ok(_) => {
                    proof {
                        lemma_said(raw@, s.room, m.room, at as int, experts, i - 1);
                    }
                },
                Err(why) => {
                    proof {
                        lemma_routed_stops(v.sitting(), at, experts, all, i as int);
                    }
                    return Err(why);
                },
            }
        }
        proof {
            assert(all.take(n as int) =~= all);
            assert(seat_words(raw@, self@.room, at as int).take(n as int) =~= seat_words(
                raw@,
                self@.room,
                at as int,
            ));
        }
        Ok(out)
    }

    /// Seat a segment's routed experts, all at once: `rows` of them, `raw`
    /// its routing vector as it was read, `truth` and `hint` the same vector
    /// and the next group's prediction, row by row, where predictions are
    /// kept. A segment without rows seats nothing.
    pub fn segment_rows(
        &mut self,
        at: usize,
        rows: u32,
        truth: Result<Vec<Vec<i32>>, Fault>,
        hint: Option<Result<Vec<Vec<i32>>, Fault>>,
        raw: Result<Vec<u8>, Fault>,
    ) -> (cut: Result<Option<Cut>, Fault>)
        requires
            old(self).wf(),
            old(self).fits(),
            at < old(self).room.groups@.len(),
            old(self).counts.segments < u64::MAX,
            truth matches Ok(rows) ==> old(self).counts.prediction.room(cells(raws(rows@))),
            raw matches Ok(raw) ==> old(self)@.spare(raw@.len() / 4),
        ensures
            final(self).wf(),
            final(self).beside(old(self)),
            rows == 0 ==> final(self)@ == old(self)@.cut() && cut == Ok::<Option<Cut>, Fault>(None),
            rows > 0 ==> predicts(
                (old(self).counts.prediction, old(self)@.predicted),
                (final(self).counts.prediction, final(self)@.predicted),
                old(self).room.groups@[at as int].experts,
                old(self).room.groups@[at as int].seat_of@,
                at,
                truth,
                hint,
            ),
            rows > 0 ==> ({
                let mid = TierView {
                    counts: Counts {
                        prediction: final(self).counts.prediction,
                        ..old(self).counts
                    },
                    predicted: final(self)@.predicted,
                    ..old(self)@
                };
                match (unread(old(self)@.predicted, at, truth, hint), raw) {
                    (Some(fault), _) => {
                        &&& final(self)@ == mid
                        &&& cut == Err::<Option<Cut>, Fault>(fault)
                    },
                    (None, Err(fault)) => {
                        &&& final(self)@ == mid.cut()
                        &&& cut == Err::<Option<Cut>, Fault>(fault)
                    },
                    (None, Ok(raw)) => {
                        let group = old(self).room.groups@[at as int];
                        let s = routed(mid.cut().sitting(), at, group.experts, ids(raw@));
                        match cut {
                            Ok(None) => false,
                            Ok(Some(cut)) => {
                                &&& s.stop is None
                                &&& final(self)@ == mid.cut().sit(s).drained()
                                &&& cut.raw@ == laid(seat_words(raw@, s.room, at as int))
                                &&& cut.jobs@ == copies(old(self).room.groups@, s.pending)
                            },
                            Err(fault) => {
                                &&& s.stop matches Some(stop) && fault == old(self).refusal(
                                    at as int,
                                    stop,
                                )
                                &&& final(self)@ == mid.cut().sit(s)
                            },
                        }
                    },
                }
            }),
    {
        if rows == 0 {
            self.cut();
            return Ok(None);
        }
        let group = &self.room.groups[at];
        let done = predict(
            &mut self.predicted,
            &mut self.counts.prediction,
            at,
            group.experts,
            &group.seat_of,
            truth,
            hint,
        );
        assert(self.wf());
        if let Err(why) = done {
            return Err(why);
        }
        let ghost mid = self@;
        self.cut();
        let raw: Vec<u8> = match raw {
            Ok(raw) => raw,
            Err(why) => {
                return Err(why);
            },
        };
        let out: Vec<u8> = match self.rewrite(at, &raw) {
            Ok(out) => out,
            Err(why) => {
                return Err(why);
            },
        };
        let ghost seated = *self;
        let jobs: Vec<Job> = self.flush();
        proof {
            lemma_same_copies(old(self).room.groups@, seated.room.groups@, seated@.pending);
        }
        Ok(Some(Cut { raw: out, jobs }))
    }
}

impl Tier {
    /// Seat the experts of one pass, in order.
    fn seat_group(&mut self, at: usize, group: &Vec<u32>) -> (done: Result<(), Fault>)
        requires
            old(self).wf(),
            at < old(self).room.groups@.len(),
            forall|i: int|
                0 <= i < group@.len() ==> #[trigger] group@[i] < old(self).room.groups@[at as int].experts,
            old(self)@.spare(group@.len()),
        ensures
            final(self).wf(),
            final(self).beside(old(self)),
            ({
                let s = sat_down(old(self)@.sitting(), at, group@);
                &&& final(self)@ == old(self)@.sit(s)
                &&& match done {
                    Ok(_) => s.stop is None,
                    Err(fault) => s.stop is Some && fault == old(self).full(at as int),
                }
            }),
    {
        let ghost v = self@;
        let ghost all = group@;
        let ghost experts = self.room.groups@[at as int].experts;
        let mut i: usize = 0;
        proof {
            assert(all.take(0) =~= Seq::<u32>::empty());
            assert(self@ =~= v.sit(v.sitting()));
        }
        while i < group.len()
            invariant
                i <= all.len(),
                all == group@,
                old(self).wf(),
                v == old(self)@,
                v.spare(all.len()),
                at < old(self).room.groups@.len(),
                experts == old(self).room.groups@[at as int].experts,
                forall|i: int| 0 <= i < all.len() ==> #[trigger] all[i] < experts,
                self.wf(),
                self.beside(old(self)),
                sat_down(v.sitting(), at, all.take(i as int)).stop is None,
                self@ == v.sit(sat_down(v.sitting(), at, all.take(i as int))),
            decreases all.len() - i,
        {
            let ghost s = sat_down(v.sitting(), at, all.take(i as int));
            let ghost m = sat_down(v.sitting(), at, all.take(i + 1));
            let expert: u32 = group[i];
            proof {
                assert(all.take(i + 1).drop_last() =~= all.take(i as int));
                assert(all.take(i + 1).last() == expert);
                assert(v.room.seat_of[at as int].len() == experts);
                assert forall|j: int| 0 <= j < all.take(i as int).len() implies #[trigger] all.take(i as int)[j]
                    < experts by {
                    assert(all[j] < experts);
                }
                lemma_sat_down(v.sitting(), at, all.take(i as int));
                lemma_sit_again(v, s, m);
                assert(s.room.seat_of[at as int].len() == experts);
                assert(all[i as int] == expert);
                lemma_seat(s, at, expert);
            }
            i += 1;
            if let Err(why) = self.seat(at, expert) {
                proof {
                    lemma_sat_down_stops(v.sitting(), at, all, i as int);
                }
                return Err(why);
            }
        }
        assert(all.take(all.len() as int) =~= all);
        Ok(())
    }

    /// A routing vector as one pass's matmuls are to read it.
    fn pass_raw(&self, at: usize, all: &Vec<i32>, group: &Vec<u32>) -> (raw: Vec<u8>)
        requires
            self.wf(),
            at < self.room.groups@.len(),
            forall|i: int|
                0 <= i < group@.len() ==> #[trigger] group@[i] < self.room.groups@[at as int].experts
                    && pinned_down(self@.room, at as int, group@[i] as int),
        ensures
            raw@ == laid(pass_words(all@, group@, self@.room, at as int)),
    {
        let ghost room = self@.room;
        let mut seats: BTreeMap<u32, u32> = BTreeMap::new();
        let mut g: usize = 0;
        assert(group@.take(0) =~= Seq::<u32>::empty());
        while g < group.len()
            invariant
                g <= group@.len(),
                self.wf(),
                room == self@.room,
                at < self.room.groups@.len(),
                forall|i: int|
                    0 <= i < group@.len() ==> #[trigger] group@[i] < self.room.groups@[at as int].experts
                        && pinned_down(self@.room, at as int, group@[i] as int),
                forall|e: u32| #[trigger] seats@.contains_key(e) <==> group@.take(g as int).contains(e),
                forall|e: u32| #[trigger] seats@.contains_key(e) ==> seats@[e] == room.seat(
                    at as int,
                    e as int,
                )->0,
            decreases group@.len() - g,
        {
            let expert: u32 = group[g];
            assert(group@[g as int] == expert);
            assert(room.seat(at as int, expert as int) == self.room.groups@[at as int].seat_of@[expert as int]);
            let ghost was = group@.take(g as int);
            let ghost now = group@.take(g + 1);
            assert(now =~= was.push(expert));
            assert forall|e: u32| #[trigger] now.contains(e) <==> was.contains(e) || e == expert by {
                if was.contains(e) {
                    assert(now[was.index_of(e)] == e);
                }
                if e == expert {
                    assert(now[g as int] == e);
                }
            }
            if let Some(seat) = self.room.groups[at].seat_of[expert as usize] {
                seats.insert(expert, seat);
            }
            g += 1;
        }
        assert(group@.take(group@.len() as int) =~= group@);
        let ghost words = pass_words(all@, group@, room, at as int);
        let mut raw: Vec<u8> = Vec::new();
        let mut i: usize = 0;
        assert(words.take(0) =~= Seq::<u32>::empty());
        while i < all.len()
            invariant
                i <= all@.len(),
                room == self@.room,
                words == pass_words(all@, group@, room, at as int),
                forall|e: u32| #[trigger] seats@.contains_key(e) <==> group@.contains(e),
                forall|e: u32| #[trigger] seats@.contains_key(e) ==> seats@[e] == room.seat(
                    at as int,
                    e as int,
                )->0,
                raw@ == laid(words.take(i as int)),
            decreases all@.len() - i,
        {
            assert(words.take(i + 1).drop_last() =~= words.take(i as int));
            let id: i32 = all[i];
            let entry: u32 = if id < 0 {
                0xffff_ffff
            } else {
                match seats.get(&(id as u32)) {
                    Some(seat) => *seat,
                    None => 0xffff_ffff,
                }
            };
            push_word(&mut raw, entry);
            i += 1;
        }
        assert(words.take(words.len() as int) =~= words);
        raw
    }

    /// Read a segment's passes off its routing vector.
    fn read_passes(&mut self, at: usize, row_offset: u32, rows: u32, raw: Result<Vec<u8>, Fault>) -> (done:
        Result<(), Fault>)
        requires
            old(self).wf(),
            at < old(self).room.groups@.len(),
        ensures
            final(self).wf(),
            final(self).beside(old(self)),
            match raw {
                Err(fault) => done == Err::<(), Fault>(fault) && final(self)@ == old(self)@,
                Ok(raw) => {
                    let group = old(self).room.groups@[at as int];
                    match unknown(ids(raw@), group.experts) {
                        Some(expert) => {
                            &&& done == Err::<(), Fault>(
                                Fault::Residency(
                                    Refusal::NotInPass {
                                        expert,
                                        name: group.bands@[0].name,
                                        experts: group.experts,
                                    },
                                ),
                            )
                            &&& final(self)@ == old(self)@
                        },
                        None => {
                            &&& done is Ok
                            &&& final(self)@ == old(self)@.in_passes(
                                at as int,
                                old(self)@.passes(
                                    at as int,
                                    row_offset,
                                    rows,
                                    ids(raw@),
                                    old(self).terms.half,
                                ),
                            )
                        },
                    }
                },
            },
    {
        let raw: Vec<u8> = match raw {
            Ok(raw) => raw,
            Err(why) => {
                return Err(why);
            },
        };
        let n: usize = raw.len() / 4;
        let mut all: Vec<i32> = Vec::new();
        let mut i: usize = 0;
        while i < n
            invariant
                n == raw@.len() / 4,
                i <= n,
                all@ == ids(raw@).take(i as int),
            decreases n - i,
        {
            all.push(id_at(&raw, i));
            i += 1;
            assert(all@ =~= ids(raw@).take(i as int));
        }
        assert(all@ =~= ids(raw@));
        let experts: u32 = self.room.groups[at].experts;
        let seats: u32 = pass_group(self.room.pool.slots, self.terms.half);
        match group_passes(&all, experts, &self.room.groups[at].seat_of, seats) {
            Ok(groups) => {
                let p = Passing { row_offset, rows, ids: all, groups };
                let ghost said = self@.passes(
                    at as int,
                    row_offset,
                    rows,
                    ids(raw@),
                    self.terms.half,
                );
                proof {
                    assert(self@.room.seat_of[at as int] == self.room.groups@[at as int].seat_of@);
                    assert(p@ =~= said);
                    lemma_within(
                        ids(raw@),
                        experts,
                        self@.room.seat_of[at as int],
                        self.room.pool.slots,
                        self.terms.half,
                        row_offset,
                        rows,
                    );
                }
                self.passing.set(at, Some(p));
                proof {
                    let now = old(self)@.in_passes(at as int, said);
                    assert(self@ =~= now);
                    assert forall|g: int| 0 <= g < self@.passing.len() implies (#[trigger] self@.passing[g] matches Some(
                        p,
                    ) ==> p.within(self@.room.seat_of[g].len() as u32, self@.room.in_seat.len())) by {
                        if g != at {
                            assert(self@.passing[g] == old(self)@.passing[g]);
                        }
                    }
                }
                Ok(())
            },
            Err(expert) => {
                let name = self.room.groups[at].bands[0].name.clone();
                Err(Fault::Residency(Refusal::NotInPass { expert, name, experts }))
            },
        }
    }

    /// Whether pass `pass` over these rows reads its routing vector anew.
    pub fn reads_anew(&self, at: usize, row_offset: u32, rows: u32, pass: u32) -> (fresh: bool)
        requires
            self.wf(),
            at < self.room.groups@.len(),
        ensures
            fresh == self@.fresh(at as int, row_offset, rows, pass),
    {
        assert(self@.passing[at as int] == passing_view(self.passing@[at as int]));
        pass == 0 || match &self.passing[at] {
            None => true,
            Some(p) => p.row_offset != row_offset || p.rows != rows,
        }
    }

    /// Seat one pass of a segment's routed experts: pass `pass` over `rows`
    /// rows from `row_offset` on. `raw` is the routing vector, which only a
    /// pass that reads it anew looks into; where it is not to be had no pass
    /// is seated. A segment without rows seats nothing.
    pub fn pass_at(
        &mut self,
        at: usize,
        row_offset: u32,
        rows: u32,
        pass: u32,
        raw: Result<Vec<u8>, Fault>,
    ) -> (passed: Result<Pass, Fault>)
        requires
            old(self).wf(),
            old(self).fits(),
            at < old(self).room.groups@.len(),
            old(self).counts.segments < u64::MAX,
            old(self)@.spare(pass_seats(old(self).room.pool.slots as int, false) as nat),
        ensures
            final(self).wf(),
            final(self).beside(old(self)),
            ({
                let c = old(self)@.cut();
                let group = old(self).room.groups@[at as int];
                let fresh = c.fresh(at as int, row_offset, rows, pass);
                if rows == 0 {
                    &&& final(self)@ == c
                    &&& passed == Ok::<Pass, Fault>(Pass { cut: None, groups: 0, next: None })
                } else if raw is Err {
                    &&& final(self)@ == c
                    &&& passed == Err::<Pass, Fault>(raw->Err_0)
                } else if fresh && unknown(ids(raw->Ok_0@), group.experts) is Some {
                    &&& final(self)@ == c
                    &&& passed == Err::<Pass, Fault>(
                        Fault::Residency(
                            Refusal::NotInPass {
                                expert: unknown(ids(raw->Ok_0@), group.experts)->0,
                                name: group.bands@[0].name,
                                experts: group.experts,
                            },
                        ),
                    )
                } else {
                    let p = c.under_way(
                        at as int,
                        row_offset,
                        rows,
                        pass,
                        ids(raw->Ok_0@),
                        old(self).terms.half,
                    );
                    let s = old(self)@.seating(at, p, pass as int);
                    match passed {
                        Err(fault) => {
                            &&& s.stop is Some
                            &&& fault == old(self).full(at as int)
                            &&& final(self)@ == c.in_passes(at as int, p).sit(s)
                        },
                        Ok(passed) => {
                            &&& s.stop is None
                            &&& final(self)@ == old(self)@.passed(at, p, pass as int)
                            &&& passed.groups == p.groups.len() as u32
                            &&& passed.cut matches Some(cut) && {
                                &&& cut.raw@ == laid(
                                    pass_words(p.ids, pass_of(p, pass as int), s.room, at as int),
                                )
                                &&& cut.jobs@ == copies(old(self).room.groups@, s.pending)
                            }
                            &&& match passed.next {
                                Some(next) => pass + 1 < p.groups.len() && next@ == p.groups[pass + 1],
                                None => pass + 1 >= p.groups.len(),
                            }
                        },
                    }
                }
            }),
    {
        self.cut();
        if rows == 0 {
            return Ok(Pass { cut: None, groups: 0, next: None });
        }
        let ghost c = self@;
        if let Err(why) = raw {
            return Err(why);
        }
        if self.reads_anew(at, row_offset, rows, pass) {
            if let Err(why) = self.read_passes(at, row_offset, rows, raw) {
                return Err(why);
            }
        }
        let ghost d = self@;
        let ghost p = d.passing[at as int]->0;
        assert(d.passing[at as int] == passing_view(self.passing@[at as int]));
        assert(d =~= c.in_passes(at as int, p));
        let (all, group, next, groups): (Vec<i32>, Vec<u32>, Option<Vec<u32>>, u32) = match &self.passing[at] {
            Some(p) => {
                let k: usize = pass as usize;
                let many: usize = p.groups.len();
                let group: Vec<u32> = if k < many {
                    p.groups[k].clone()
                } else {
                    Vec::new()
                };
                let next: Option<Vec<u32>> = if k < many && k + 1 < many {
                    Some(p.groups[k + 1].clone())
                } else {
                    None
                };
                (p.ids.clone(), group, next, many as u32)
            },
            None => (Vec::new(), Vec::new(), None, 0),
        };
        proof {
            assert(all@ =~= p.ids);
            assert(group@ =~= pass_of(p, pass as int));
            assert(next matches Some(n) ==> n@ =~= p.groups[pass + 1]);
            assert(p.within(d.room.seat_of[at as int].len() as u32, d.room.in_seat.len()));
            assert forall|i: int| 0 <= i < group@.len() implies #[trigger] group@[i]
                < self.room.groups@[at as int].experts by {
                assert(p.groups[pass as int][i] == group@[i]);
            }
        }
        let ghost mid = *self;
        if let Err(why) = self.seat_group(at, &group) {
            return Err(why);
        }
        proof {
            assert(d.room.seat_of[at as int].len() == mid.room.groups@[at as int].experts);
            lemma_sat_down(d.sitting(), at, group@);
        }
        let out: Vec<u8> = self.pass_raw(at, &all, &group);
        let ghost seated = *self;
        let jobs: Vec<Job> = self.flush();
        proof {
            lemma_same_copies(old(self).room.groups@, seated.room.groups@, seated@.pending);
        }
        Ok(Pass { cut: Some(Cut { raw: out, jobs }), groups, next })
    }
}

/// The passes of a segment seat experts its group has.
proof fn lemma_within(
    all: Seq<i32>,
    experts: u32,
    seat_of: Seq<Option<u32>>,
    slots: u32,
    half: bool,
    row_offset: u32,
    rows: u32,
)
    requires
        unknown(all, experts) is None,
    ensures
        (PassingView {
            row_offset,
            rows,
            ids: all,
            groups: chunks(ordered(all, seat_of), pass_seats(slots as int, half)),
        }).within(experts, slots as nat),
{
    lemma_ordered(all, experts, seat_of);
    let order = ordered(all, seat_of);
    let seats = pass_seats(slots as int, half);
    lemma_chunks(order, seats);
    let groups = chunks(order, seats);
    assert forall|k: int, i: int| 0 <= k < groups.len() && 0 <= i < groups[k].len() implies #[trigger] groups[k][i]
        < experts by {
        assert(groups[k][i] == order[k * seats + i]);
    }
}

/// Seating on from where a seating stands.
proof fn lemma_sit_again(v: TierView, s: Sitting, m: Sitting)
    requires
        s.stop is None,
        s.hits <= u64::MAX,
        s.misses <= u64::MAX,
    ensures
        v.sit(s).sitting() == s,
        v.sit(s).sit(m) == v.sit(m),
{
    assert(v.sit(s).sitting() =~= s);
    assert(v.sit(s).sit(m) =~= v.sit(m));
}

/// What was written for the entries before stays true as the next expert is
/// seated, and the next entry is written after them.
proof fn lemma_said(raw: Seq<u8>, v: RoomView, w: RoomView, at: int, experts: u32, n: int)
    requires
        0 <= n < ids(raw).len(),
        v == w || keeps(v, w),
        0 <= at < v.seat_of.len(),
        v.seat_of[at].len() == experts,
        forall|i: int|
            0 <= i < n && ids(raw).take(n)[i] >= 0 ==> #[trigger] ids(raw).take(n)[i] < experts && pinned_down(
                v,
                at,
                ids(raw).take(n)[i] as int,
            ),
    ensures
        laid(seat_words(raw, w, at).take(n + 1)) == laid(seat_words(raw, v, at).take(n)) + bytes_of(
            seat_words(raw, w, at)[n],
        ),
        seat_words(raw, w, at)[n] == if ids(raw)[n] < 0 {
            word(raw, n) as u32
        } else {
            w.seat(at, ids(raw)[n] as int)->0
        },
{
    let a = seat_words(raw, v, at);
    let b = seat_words(raw, w, at);
    let all = ids(raw);
    assert(b.take(n + 1).drop_last() =~= b.take(n));
    assert(a.take(n) =~= b.take(n)) by {
        assert forall|i: int| 0 <= i < n implies a.take(n)[i] == b.take(n)[i] by {
            if all[i] >= 0 {
                let e = all.take(n)[i] as int;
                assert(pinned_down(v, at, e));
                assert(v.names(at, e));
                assert(w.seat(at, e) == v.seat(at, e));
            }
        }
    }
}

/// The copies landings ask for hang on the groups' bands alone.
pub proof fn lemma_same_copies(
    a: Seq<crate::experts::seats::Group>,
    b: Seq<crate::experts::seats::Group>,
    landing: Seq<crate::experts::deciding::Landing>,
)
    requires
        crate::experts::seats::same_groups(b, a),
        forall|i: int| 0 <= i < landing.len() ==> (#[trigger] landing[i]).0 < a.len(),
    ensures
        copies(a, landing) == copies(b, landing),
    decreases landing.len(),
{
    if landing.len() > 0 {
        let head = landing.drop_last();
        assert forall|i: int| 0 <= i < head.len() implies (#[trigger] head[i]).0 < a.len() by {
            assert(head[i] == landing[i]);
        }
        lemma_same_copies(a, b, head);
        assert(landing[landing.len() - 1] == landing.last());
    }
}

} // verus!
