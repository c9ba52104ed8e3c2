//! The rows of a gathered table a fire needs, seated in a device slab.
//!
//! Rows come off the artifact at `from + row * stride`. With a hasher known,
//! the host names a fire's rows as the fire opens and lands them while the
//! first frames run; the hasher's cut joins that read, and any id the device
//! names that the host did not is read there and then, counted as a prefetch
//! miss. A wrong guess costs a read, never a wrong row.

use std::collections::BTreeMap;
use vstd::prelude::*;
use vstd::string::*;

use crate::experts::deciding::Job;
use crate::experts::source::Source;
use crate::experts::tier::lemma_address;
use crate::fault::{Fault, Name, Refusal, What, Why};
use crate::gather::plan::{hasher_view, Hasher, Plan};
use crate::ids::{as_signed, laid, push_word, signed, word, word_at};
use crate::text::{decimal_text, say_number};

verus! {

/// Where one plane lies: its seats on the device, its rows in the source,
/// and how far apart both are.
#[derive(Debug, Clone, Copy, PartialEq, Eq, Structural)]
pub struct Band {
    pub at: u64,
    pub from: u64,
    pub stride: u64,
}

#[derive(Debug, Clone, PartialEq, Eq)]
pub struct Residency {
    pub name: String,
    pub rows: u64,
    pub seats: u32,
    pub demanded: u32,
}

pub struct Slab {
    pub filed: bool,
    pub pread: bool,
    pub prefetch: bool,
    pub hasher: Option<Hasher>,
    pub bands: Vec<Band>,
    pub rows: u64,
    pub seats: u32,
    pub name: String,
    /// How long the source is.
    pub have: u64,
    pub seat_of: BTreeMap<i32, u32>,
    /// Rows a prefetch is landing, resident once the read is joined.
    pub pending: BTreeMap<i32, u32>,
    pub inflight: bool,
    pub in_seat: Vec<i32>,
    pub next: u32,
    pub fires: u64,
    pub copies: u64,
    /// Rows read from the artifact, and how many of them the hasher's cut
    /// had to read because no prefetch had landed them; both for the load,
    /// with the fire's own slice marked as it opens.
    pub reads: u64,
    pub missed: u64,
    pub reads_at: u64,
    pub missed_at: u64,
    /// Host time spent inside the reads themselves, apart from the seating
    /// and the join around them.
    pub read_ns: u64,
    pub read_ns_at: u64,
}

/// What changes as a slab runs.
#[verifier::ext_equal]
pub struct SlabView {
    pub seat_of: Map<i32, u32>,
    pub pending: Map<i32, u32>,
    pub inflight: bool,
    pub in_seat: Seq<i32>,
    pub next: u32,
    pub fires: u64,
    pub copies: u64,
    pub reads: u64,
    pub missed: u64,
    pub reads_at: u64,
    pub missed_at: u64,
    pub read_ns: u64,
    pub read_ns_at: u64,
}

impl View for Slab {
    type V = SlabView;

    open spec fn view(&self) -> SlabView {
        SlabView {
            seat_of: self.seat_of@,
            pending: self.pending@,
            inflight: self.inflight,
            in_seat: self.in_seat@,
            next: self.next,
            fires: self.fires,
            copies: self.copies,
            reads: self.reads,
            missed: self.missed,
            reads_at: self.reads_at,
            missed_at: self.missed_at,
            read_ns: self.read_ns,
            read_ns_at: self.read_ns_at,
        }
    }
}

/// Each row of `map` in a seat that says so.
pub open spec fn seated(map: Map<i32, u32>, in_seat: Seq<i32>, next: u32, rows: u64) -> bool {
    forall|id: i32| #[trigger]
        map.contains_key(id) ==> {
            &&& 0 <= id < rows
            &&& map[id] < next
            &&& in_seat[map[id] as int] == id
        }
}

/// The planes' spans fit a device address and a file offset.
pub open spec fn spans_fit(bands: Seq<Band>, rows: u64, seats: u32) -> bool {
    forall|b: int|
        0 <= b < bands.len() ==> {
            &&& (#[trigger] bands[b]).at + seats * bands[b].stride <= u64::MAX
            &&& bands[b].from + rows * bands[b].stride <= u64::MAX
        }
}

impl SlabView {
    /// Every row in a seat of its own, and the counters in order.
    pub open spec fn sits(self, rows: u64, seats: u32) -> bool {
        &&& self.next <= seats
        &&& self.in_seat.len() == seats
        &&& seated(self.seat_of, self.in_seat, self.next, rows)
        &&& seated(self.pending, self.in_seat, self.next, rows)
        &&& forall|id: i32| #[trigger]
            self.seat_of.contains_key(id) && self.pending.contains_key(id) ==> self.seat_of[id]
                != self.pending[id]
        &&& forall|q: int| self.next <= q < seats ==> #[trigger] self.in_seat[q] == -1i32
        &&& self.reads_at <= self.reads
        &&& self.missed_at <= self.missed
        &&& self.read_ns_at <= self.read_ns
    }

    pub open spec fn wf(self, rows: u64, seats: u32) -> bool {
        &&& self.sits(rows, seats)
        &&& self.inflight ==> self.named_last()
    }

    /// The rows a prefetch named are in the seats taken last, and nothing
    /// else is; none of them is resident.
    pub open spec fn named_last(self) -> bool {
        let n = self.pending.dom().len();
        &&& self.pending.dom().finite()
        &&& self.pending.dom().disjoint(self.seat_of.dom())
        &&& n <= self.next
        &&& forall|id: i32| #[trigger] self.pending.contains_key(id) ==> self.next - n <= self.pending[id]
        &&& forall|q: int|
            self.next - n <= q < self.next ==> {
                &&& self.pending.contains_key(#[trigger] self.in_seat[q])
                &&& self.pending[self.in_seat[q]] == q
            }
    }

    /// A slab before its first fire.
    pub open spec fn empty(seats: u32) -> SlabView {
        SlabView {
            seat_of: Map::empty(),
            pending: Map::empty(),
            inflight: false,
            in_seat: Seq::new(seats as nat, |s: int| -1i32),
            next: 0,
            fires: 0,
            copies: 0,
            reads: 0,
            missed: 0,
            reads_at: 0,
            missed_at: 0,
            read_ns: 0,
            read_ns_at: 0,
        }
    }

    /// The prefetch in flight taken: its rows are resident from here, or,
    /// where nothing landed, their seats, the last taken, go back.
    pub open spec fn joined(self, landed: Result<u64, Fault>, bands: nat) -> SlabView {
        if !self.inflight {
            self
        } else {
            match landed {
                Ok(ns) => SlabView {
                    seat_of: self.seat_of.union_prefer_right(self.pending),
                    pending: Map::empty(),
                    inflight: false,
                    read_ns: (self.read_ns + ns) as u64,
                    copies: (self.copies + self.pending.dom().len() * bands) as u64,
                    ..self
                },
                Err(_) => SlabView {
                    pending: Map::empty(),
                    inflight: false,
                    in_seat: Seq::new(
                        self.in_seat.len(),
                        |s: int|
                            if self.pending.contains_key(self.in_seat[s])
                                && self.pending[self.in_seat[s]] == s {
                                -1i32
                            } else {
                                self.in_seat[s]
                            },
                    ),
                    next: (self.next - self.pending.dom().len()) as u32,
                    ..self
                },
            }
        }
    }

    /// A fire opens: every seat is free again, and the fire's counters start.
    pub open spec fn fired(self, landed: Result<u64, Fault>, bands: nat) -> SlabView {
        let j = self.joined(landed, bands);
        SlabView {
            seat_of: Map::empty(),
            pending: Map::empty(),
            in_seat: Seq::new(j.in_seat.len(), |s: int| -1i32),
            next: 0,
            fires: (j.fires + 1) as u64,
            reads_at: j.reads,
            missed_at: j.missed,
            read_ns_at: j.read_ns,
            ..j
        }
    }
}

/// Rows seated one after another, in the seats taken last.
pub open spec fn just_seated(v: SlabView, landing: Seq<(i32, u32)>) -> bool {
    &&& forall|k: int|
        0 <= k < landing.len() ==> {
            &&& v.seat_of.contains_key((#[trigger] landing[k]).0)
            &&& v.seat_of[landing[k].0] == landing[k].1
            &&& landing[k].1 == landing[0].1 + k
            &&& landing[k].1 < v.next
        }
    &&& landing.len() > 0 ==> landing.last().1 + 1 == v.next
}

impl SlabView {
    /// The copies stopped on the way to seat `from`: nothing sits there or in
    /// a seat after it, and those seats go back.
    pub open spec fn stopped(self, from: u32) -> SlabView {
        SlabView {
            seat_of: self.seat_of.restrict(Set::new(|id: i32| self.seat_of[id] < from)),
            in_seat: Seq::new(
                self.in_seat.len(),
                |q: int| if q >= from { -1i32 } else { self.in_seat[q] },
            ),
            next: from,
            ..self
        }
    }

    /// The first `made` of the copies for `landing`, so many a row, were made.
    pub open spec fn stopped_after(self, landing: Seq<(i32, u32)>, bands: nat, made: nat) -> SlabView {
        let row = made as int / bands as int;
        let v = SlabView { copies: (self.copies + made) as u64, ..self };
        if row < landing.len() {
            v.stopped(landing[row].1)
        } else {
            v
        }
    }
}

/// The reads that land `row` in `seat`, one per plane.
pub open spec fn row_jobs(bands: Seq<Band>, seat: u32, row: i32) -> Seq<Job> {
    Seq::new(
        bands.len(),
        |b: int|
            (
                (bands[b].at + seat * bands[b].stride) as u64,
                (bands[b].from + row * bands[b].stride) as u64,
                bands[b].stride,
            ),
    )
}

impl Slab {
    pub open spec fn wf(&self) -> bool {
        &&& self@.wf(self.rows, self.seats)
        &&& self.pread ==> self.filed
        &&& self.prefetch ==> self.pread
        &&& spans_fit(self.bands@, self.rows, self.seats)
    }

    /// The same load as `before`.
    pub open spec fn beside(&self, before: &Slab) -> bool {
        *self == (Slab {
            seat_of: self.seat_of,
            pending: self.pending,
            inflight: self.inflight,
            in_seat: self.in_seat,
            next: self.next,
            fires: self.fires,
            copies: self.copies,
            reads: self.reads,
            missed: self.missed,
            reads_at: self.reads_at,
            missed_at: self.missed_at,
            read_ns: self.read_ns,
            read_ns_at: self.read_ns_at,
            ..*before
        })
    }

    /// A slab over a plan that gathers: its seats at `offsets` in the store,
    /// its rows in `source`.
    pub fn open(plan: &Plan, source: &Source, offsets: &Vec<u64>, pread: bool, prefetch: bool) -> (slab: Result<
        Slab,
        Fault,
    >)
        requires
            plan.table matches Some(table) ==> {
                &&& table.strides@.len() == table.params@.len()
                &&& forall|i: int|
                    0 <= i < table.params@.len() && (#[trigger] table.params@[i]) < offsets@.len()
                        && source.bands@.contains_key(table.params@[i]) ==> {
                        &&& offsets@[table.params@[i] as int] + table.seats * table.strides@[i]
                            <= u64::MAX
                        &&& source.bands@[table.params@[i]] + table.rows * table.strides@[i]
                            <= u64::MAX
                    }
            },
        ensures
            match plan.table {
                None => slab == Err::<Slab, Fault>(
                    Fault::Param { name: Name::Table, why: Why::GathersNothing },
                ),
                Some(table) => match slab {
                    Ok(slab) => {
                        &&& slab.wf()
                        &&& slab@ == SlabView::empty(table.seats)
                        &&& slab.filed == source.filed
                        &&& slab.have == source.len
                        &&& slab.pread == (pread && source.filed)
                        &&& slab.prefetch == (prefetch && slab.pread && table.hasher is Some)
                        &&& hasher_view(slab.hasher) == hasher_view(table.hasher)
                        &&& slab.rows == table.rows
                        &&& slab.seats == table.seats
                        &&& slab.name == table.name
                        &&& slab.bands@.len() == table.params@.len()
                        &&& forall|i: int|
                            0 <= i < table.params@.len() ==> {
                                &&& table.params@[i] < offsets@.len()
                                &&& source.bands@.contains_key(table.params@[i])
                                &&& #[trigger] slab.bands@[i] == (Band {
                                    at: offsets@[table.params@[i] as int],
                                    from: source.bands@[table.params@[i]],
                                    stride: table.strides@[i],
                                })
                            }
                    },
                    Err(fault) => exists|i: int|
                        0 <= i < table.params@.len() && {
                            let param = #[trigger] table.params@[i];
                            &&& fault == (Fault::Param {
                                name: Name::Index(param),
                                why: if param >= offsets@.len() {
                                    Why::NoSeatOffset
                                } else {
                                    Why::NoSourceOffset
                                },
                            })
                            &&& param >= offsets@.len() || !source.bands@.contains_key(param)
                            &&& forall|j: int|
                                0 <= j < i ==> (#[trigger] table.params@[j]) < offsets@.len()
                                    && source.bands@.contains_key(table.params@[j])
                        },
                },
            },
    {
        let table = match &plan.table {
            Some(table) => table,
            None => {
                return Err(Fault::Param { name: Name::Table, why: Why::GathersNothing });
            },
        };
        let mut bands: Vec<Band> = Vec::new();
        let mut i: usize = 0;
        while i < table.params.len()
            invariant
                plan.table == Some(*table),
                table.strides@.len() == table.params@.len(),
                i <= table.params@.len(),
                bands@.len() == i,
                forall|j: int|
                    0 <= j < i ==> (#[trigger] table.params@[j]) < offsets@.len()
                        && source.bands@.contains_key(table.params@[j]),
                forall|j: int|
                    0 <= j < i ==> #[trigger] bands@[j] == (Band {
                        at: offsets@[table.params@[j] as int],
                        from: source.bands@[table.params@[j]],
                        stride: table.strides@[j],
                    }),
            decreases table.params@.len() - i,
        {
            let param: usize = table.params[i];
            if param >= offsets.len() {
                return Err(Fault::Param { name: Name::Index(param), why: Why::NoSeatOffset });
            }
            let from: u64 = match source.at(param) {
                Some(from) => from,
                None => {
                    return Err(
                        Fault::Param { name: Name::Index(param), why: Why::NoSourceOffset },
                    );
                },
            };
            bands.push(Band { at: offsets[param], from, stride: table.strides[i] });
            i += 1;
        }
        let pread: bool = pread && source.filed;
        let mut in_seat: Vec<i32> = Vec::new();
        let mut s: u32 = 0;
        while s < table.seats
            invariant
                s <= table.seats,
                in_seat@ == Seq::new(s as nat, |s: int| -1i32),
            decreases table.seats - s,
        {
            in_seat.push(-1);
            s += 1;
            assert(in_seat@ =~= Seq::new(s as nat, |s: int| -1i32));
        }
        let slab = Slab {
            filed: source.filed,
            pread,
            prefetch: prefetch && pread && table.hasher.is_some(),
            hasher: match &table.hasher {
                Some(hasher) => Some(hasher.copy()),
                None => None,
            },
            bands,
            rows: table.rows,
            seats: table.seats,
            name: table.name.clone(),
            have: source.len,
            seat_of: BTreeMap::new(),
            pending: BTreeMap::new(),
            inflight: false,
            in_seat,
            next: 0,
            fires: 0,
            copies: 0,
            reads: 0,
            missed: 0,
            reads_at: 0,
            missed_at: 0,
            read_ns: 0,
            read_ns_at: 0,
        };
        proof {
            assert(slab@ =~= SlabView::empty(table.seats));
            assert forall|b: int| 0 <= b < slab.bands@.len() implies {
                &&& (#[trigger] slab.bands@[b]).at + slab.seats * slab.bands@[b].stride <= u64::MAX
                &&& slab.bands@[b].from + slab.rows * slab.bands@[b].stride <= u64::MAX
            } by {
                assert(table.params@[b] < offsets@.len());
            }
        }
        Ok(slab)
    }

    /// Take the prefetch in flight, if any, which ended as `landed` says,
    /// after so many nanoseconds: its rows are resident from here. Where
    /// nothing landed the seats go back, and the cut reads them.
    pub fn join(&mut self, landed: Result<u64, Fault>) -> (done: Result<(), Fault>)
        requires
            old(self).wf(),
            old(self).inflight ==> (landed matches Ok(ns) ==> {
                &&& old(self).read_ns + ns <= u64::MAX
                &&& old(self).copies + old(self)@.pending.dom().len() * old(self).bands@.len()
                    <= u64::MAX
            }),
        ensures
            final(self).wf(),
            final(self).beside(old(self)),
            final(self)@ == old(self)@.joined(landed, old(self).bands@.len()),
            match landed {
                Ok(_) => done is Ok,
                Err(fault) => done == if old(self).inflight {
                    Err::<(), Fault>(fault)
                } else {
                    Ok(())
                },
            },
            old(self).inflight ==> final(self)@.pending.dom().is_empty(),
            !final(self).inflight,
            old(self).inflight && landed is Err ==> {
                &&& final(self).next == old(self).next - old(self)@.pending.dom().len()
                &&& final(self)@.seat_of == old(self)@.seat_of
                &&& forall|id: i32| #[trigger]
                    old(self)@.pending.contains_key(id) ==> !final(self)@.seat_of.contains_key(id)
                &&& forall|q: int|
                    final(self).next <= q < old(self).next ==> #[trigger] final(self)@.in_seat[q]
                        == -1i32
                &&& final(self).copies == old(self).copies
                &&& final(self).read_ns == old(self).read_ns
            },
    {
        if !self.inflight {
            return Ok(());
        }
        self.inflight = false;
        let ghost pending = self.pending@;
        let ghost before = self.in_seat@;
        let seats: usize = self.in_seat.len();
        match landed {
            Ok(ns) => {
                self.read_ns = self.read_ns + ns;
                let many: u64 = self.pending.len() as u64;
                assert(many == pending.dom().len());
                self.copies = self.copies + many * self.bands.len() as u64;
                let ghost was = self.seat_of@;
                let mut s: usize = 0;
                while s < seats
                    invariant
                        s <= seats,
                        seats == self.in_seat@.len(),
                        seats == self.seats,
                        pending == self.pending@,
                        seated(pending, self.in_seat@, self.next, self.rows),
                        self.next <= self.seats,
                        *self == (Slab {
                            seat_of: self.seat_of,
                            read_ns: self.read_ns,
                            copies: self.copies,
                            inflight: false,
                            ..*old(self)
                        }),
                        self.read_ns == old(self).read_ns + ns,
                        self.copies == old(self).copies + pending.dom().len() * self.bands@.len(),
                        forall|id: i32| #[trigger]
                            self.seat_of@.contains_key(id) <==> was.contains_key(id) || (
                            pending.contains_key(id) && pending[id] < s),
                        forall|id: i32| #[trigger]
                            self.seat_of@.contains_key(id) ==> self.seat_of@[id] == if pending.contains_key(
                                id,
                            ) && pending[id] < s {
                                pending[id]
                            } else {
                                was[id]
                            },
                    decreases seats - s,
                {
                    let id: i32 = self.in_seat[s];
                    if let Some(seat) = self.pending.get(&id) {
                        if *seat as usize == s {
                            self.seat_of.insert(id, s as u32);
                        }
                    }
                    proof {
                        assert forall|r: i32| pending.contains_key(r) && pending[r] == s implies r == id by {
                            assert(self.in_seat@[pending[r] as int] == r);
                        }
                    }
                    s += 1;
                }
                self.pending.clear();
                proof {
                    let all = was.union_prefer_right(pending);
                    assert(self.seat_of@ =~= all);
                    assert(self@ =~= old(self)@.joined(landed, old(self).bands@.len()));
                }
                Ok(())
            },
            Err(why) => {
                let mut s: usize = 0;
                while s < seats
                    invariant
                        s <= seats,
                        seats == self.in_seat@.len(),
                        seats == self.seats,
                        before.len() == seats,
                        pending == self.pending@,
                        *self == (Slab { in_seat: self.in_seat, inflight: false, ..*old(self) }),
                        forall|q: int| s <= q < seats ==> #[trigger] self.in_seat@[q] == before[q],
                        forall|q: int|
                            0 <= q < s ==> #[trigger] self.in_seat@[q] == if pending.contains_key(
                                before[q],
                            ) && pending[before[q]] == q {
                                -1i32
                            } else {
                                before[q]
                            },
                    decreases seats - s,
                {
                    let id: i32 = self.in_seat[s];
                    let mut mine: bool = false;
                    if let Some(seat) = self.pending.get(&id) {
                        mine = *seat as usize == s;
                    }
                    if mine {
                        self.in_seat.set(s, -1);
                    }
                    s += 1;
                }
                let many: u32 = self.pending.len() as u32;
                self.next = self.next - many;
                self.pending.clear();
                proof {
                    assert(self@ =~= old(self)@.joined(landed, old(self).bands@.len()));
                    assert forall|q: int| self.next <= q < seats implies #[trigger] self.in_seat@[q]
                        == -1i32 by {
                        if q < old(self).next {
                            assert(pending.contains_key(before[q]));
                        }
                    }
                    assert forall|id: i32| #[trigger] self@.seat_of.contains_key(id) implies {
                        &&& 0 <= id < self.rows
                        &&& self@.seat_of[id] < self.next
                        &&& self@.in_seat[self@.seat_of[id] as int] == id
                    } by {
                        let s = self@.seat_of[id] as int;
                        assert(before[s] == id);
                        if s >= self.next {
                            assert(pending.contains_key(before[s]) && pending[before[s]] == s);
                            assert(old(self)@.pending.contains_key(id));
                        }
                    }
                }
                Err(why)
            },
        }
    }

    /// A fire opens: every seat is free again, and the fire's counters
    /// start. A prefetch still in flight is taken first, however it ended.
    pub fn fire(&mut self, landed: Result<u64, Fault>)
        requires
            old(self).wf(),
            old(self).inflight ==> (landed matches Ok(ns) ==> {
                &&& old(self).read_ns + ns <= u64::MAX
                &&& old(self).copies + old(self)@.pending.dom().len() * old(self).bands@.len()
                    <= u64::MAX
            }),
            old(self).fires < u64::MAX,
        ensures
            final(self).wf(),
            final(self).beside(old(self)),
            final(self)@ == old(self)@.fired(landed, old(self).bands@.len()),
    {
        let _ = self.join(landed);
        self.seat_of.clear();
        self.pending.clear();
        let ghost mid = *self;
        let seats: usize = self.in_seat.len();
        let mut s: usize = 0;
        while s < seats
            invariant
                s <= seats,
                seats == self.in_seat@.len(),
                *self == (Slab { in_seat: self.in_seat, ..mid }),
                forall|q: int| 0 <= q < s ==> #[trigger] self.in_seat@[q] == -1i32,
            decreases seats - s,
        {
            self.in_seat.set(s, -1);
            s += 1;
        }
        self.next = 0;
        self.fires = self.fires + 1;
        self.reads_at = self.reads;
        self.missed_at = self.missed;
        self.read_ns_at = self.read_ns;
        proof {
            let said = old(self)@.fired(landed, old(self).bands@.len());
            assert(self@.seat_of =~= said.seat_of);
            assert(self@.pending =~= said.pending);
            assert(self@.in_seat =~= said.in_seat);
        }
    }

    /// This fire's rows read, how many the prefetch missed, and the host
    /// time the reads themselves took, in nanoseconds.
    pub fn this_fire(&self) -> (slice: (u64, u64, u64))
        requires
            self.wf(),
        ensures
            slice.0 == self.reads - self.reads_at,
            slice.1 == self.missed - self.missed_at,
            slice.2 == self.read_ns - self.read_ns_at,
    {
        (
            self.reads - self.reads_at,
            self.missed - self.missed_at,
            self.read_ns - self.read_ns_at,
        )
    }

    /// A free seat, or none when the fire has named more distinct rows than
    /// the slab holds.
    pub fn take(&mut self) -> (seat: Option<u32>)
        requires
            old(self)@.sits(old(self).rows, old(self).seats),
        ensures
            final(self)@.sits(final(self).rows, final(self).seats),
            final(self).beside(old(self)),
            match seat {
                None => old(self).next >= old(self).seats && *final(self) == *old(self),
                Some(seat) => {
                    &&& old(self).next < old(self).seats
                    &&& seat == old(self).next
                    &&& *final(self) == (Slab { next: (seat + 1) as u32, ..*old(self) })
                },
            },
    {
        if self.next >= self.seats {
            return None;
        }
        let seat: u32 = self.next;
        self.next = self.next + 1;
        Some(seat)
    }

    /// The reads that land `row` in `seat`, one per plane.
    pub fn jobs(&self, seat: u32, row: i32, into: &mut Vec<Job>)
        requires
            spans_fit(self.bands@, self.rows, self.seats),
            seat < self.seats,
            0 <= row < self.rows,
        ensures
            final(into)@ == old(into)@ + row_jobs(self.bands@, seat, row),
    {
        let ghost all = row_jobs(self.bands@, seat, row);
        let mut b: usize = 0;
        assert(old(into)@ + all.take(0) =~= old(into)@);
        while b < self.bands.len()
            invariant
                spans_fit(self.bands@, self.rows, self.seats),
                seat < self.seats,
                0 <= row < self.rows,
                all == row_jobs(self.bands@, seat, row),
                b <= self.bands@.len(),
                into@ == old(into)@ + all.take(b as int),
            decreases self.bands@.len() - b,
        {
            let band: Band = self.bands[b];
            proof {
                lemma_address(band.at, band.stride, seat, self.seats);
                assert(row * band.stride <= self.rows * band.stride && 0 <= row * band.stride)
                    by (nonlinear_arith)
                    requires
                        0 <= row < self.rows,
                        band.stride >= 0,
                ;
                assert(all.take(b + 1) =~= all.take(b as int).push(all[b as int]));
            }
            into.push(
                (
                    band.at + seat as u64 * band.stride,
                    band.from + row as u64 * band.stride,
                    band.stride,
                ),
            );
            b += 1;
        }
        assert(all.take(all.len() as int) =~= all);
    }

    /// The fault of a fire that demands more rows than there are seats.
    pub fn full(&self) -> (fault: Fault)
        ensures
            fault == self.is_full(),
    {
        Fault::Residency(Refusal::SlabFull { seats: self.seats, name: self.name.clone() })
    }

    pub open spec fn is_full(&self) -> Fault {
        Fault::Residency(Refusal::SlabFull { seats: self.seats, name: self.name })
    }

    /// Name the rows this fire will ask for, before the device does, and say
    /// what lands them: `lanes` is what each lane's tokens hash to, over the
    /// window the kernel hashes over. Nothing without a hasher, a file, or
    /// the knob.
    pub fn prefetch(&mut self, lanes: &Vec<Vec<i32>>) -> (jobs: Vec<Job>)
        requires
            old(self).wf(),
        ensures
            final(self).wf(),
            final(self).beside(old(self)),
            ({
                let start = Named { slab: old(self)@, jobs: Seq::empty(), full: false };
                let said = if old(self).prefetch && old(self).hasher is Some && old(self).filed {
                    name_lanes(
                        start,
                        old(self).bands@,
                        old(self).rows,
                        old(self).seats,
                        lane_views(lanes@),
                    )
                } else {
                    start
                };
                &&& final(self)@ == said.slab
                &&& jobs@ == said.jobs
            }),
            old(self)@.pending.dom().is_empty() || old(self)@.named_last() ==> final(self)@.named_last(),
    {
        let mut jobs: Vec<Job> = Vec::new();
        if !self.prefetch || self.hasher.is_none() || !self.filed {
            return jobs;
        }
        let ghost start = Named { slab: self@, jobs: Seq::empty(), full: false };
        let ghost all = lane_views(lanes@);
        let ghost bands = self.bands@;
        let ghost rows = self.rows;
        let ghost seats = self.seats;
        let mut l: usize = 0;
        let ghost last = self@.pending.dom().is_empty() || self@.named_last();
        proof {
            assert(all.take(0) =~= Seq::<Seq<i32>>::empty());
            if self@.pending.dom().is_empty() {
                assert(self@.pending.dom() =~= Set::empty());
            }
        }
        while l < lanes.len()
            invariant
                l <= lanes@.len(),
                all == lane_views(lanes@),
                start == (Named { slab: old(self)@, jobs: Seq::empty(), full: false }),
                bands == old(self).bands@,
                rows == old(self).rows,
                seats == old(self).seats,
                self.wf(),
                last ==> self@.named_last(),
                self.beside(old(self)),
                ({
                    let a = name_lanes(start, bands, rows, seats, all.take(l as int));
                    self@ == a.slab && jobs@ == a.jobs
                }),
            decreases lanes@.len() - l,
        {
            let lane = &lanes[l];
            let ghost begun = Named {
                full: false,
                ..name_lanes(start, bands, rows, seats, all.take(l as int))
            };
            let ghost ids = lane@;
            proof {
                assert(all.take(l + 1).drop_last() =~= all.take(l as int));
                assert(all.take(l + 1).last() == ids);
                assert(ids.take(0) =~= Seq::<i32>::empty());
            }
            let mut full: bool = false;
            let mut i: usize = 0;
            while i < lane.len() && !full
                invariant
                    i <= lane@.len(),
                    ids == lane@,
                    bands == old(self).bands@,
                    rows == old(self).rows,
                    seats == old(self).seats,
                    self.wf(),
                    last ==> self@.named_last(),
                    self.beside(old(self)),
                    ({
                        let a = name_lane(begun, bands, rows, seats, ids.take(i as int));
                        self@ == a.slab && jobs@ == a.jobs && full == a.full
                    }),
                decreases lane@.len() - i,
            {
                let id: i32 = lane[i];
                let ghost a = name_lane(begun, bands, rows, seats, ids.take(i as int));
                proof {
                    assert(ids.take(i + 1).drop_last() =~= ids.take(i as int));
                    assert(ids.take(i + 1).last() == id);
                }
                i += 1;
                if id < 0 || id as u64 >= self.rows {
                    continue ;
                }
                if self.seat_of.contains_key(&id) || self.pending.contains_key(&id) {
                    continue ;
                }
                let ghost was = self@;
                match self.take() {
                    None => {
                        full = true;
                    },
                    Some(seat) => {
                        self.jobs(seat, id, &mut jobs);
                        self.pending.insert(id, seat);
                        self.in_seat.set(seat as usize, id);
                        proof {
                            lemma_named_wf(was, rows, seats, id, seat);
                            assert(self@ =~= a.name(bands, rows, seats, id).slab);
                        }
                    },
                }
            }
            proof {
                lemma_full_stays(begun, bands, rows, seats, ids, i as int);
            }
            l += 1;
        }
        assert(all.take(all.len() as int) =~= all);
        jobs
    }

    /// The reads a prefetch named are under way, `checked` having said that
    /// the store can take them; without any there is nothing to start. Where
    /// it cannot, the seats go back, and the cut reads the rows.
    pub fn prefetching(&mut self, jobs: &Vec<Job>, checked: Result<(), Fault>) -> (started: Result<
        bool,
        Fault,
    >)
        requires
            old(self).wf(),
            old(self)@.named_last(),
            old(self).reads + jobs@.len() <= u64::MAX,
        ensures
            final(self).wf(),
            final(self).beside(old(self)),
            ({
                let per = if old(self).bands@.len() == 0 { 1 } else { old(self).bands@.len() };
                let reads = (old(self).reads + jobs@.len() / per) as u64;
                if jobs@.len() == 0 {
                    started == Ok::<bool, Fault>(false) && final(self)@ == old(self)@
                } else {
                    match checked {
                        Ok(_) => {
                            &&& started == Ok::<bool, Fault>(true)
                            &&& final(self)@ == (SlabView { reads, inflight: true, ..old(self)@ })
                        },
                        Err(fault) => {
                            &&& started == Err::<bool, Fault>(fault)
                            &&& final(self)@ == (SlabView {
                                reads,
                                inflight: true,
                                ..old(self)@
                            }).joined(Err(fault), old(self).bands@.len())
                        },
                    }
                }
            }),
    {
        if jobs.len() == 0 {
            return Ok(false);
        }
        let per: usize = if self.bands.len() == 0 { 1 } else { self.bands.len() };
        assert(jobs@.len() as int / per as int <= jobs@.len()) by (nonlinear_arith)
            requires
                per >= 1,
                jobs@.len() >= 0,
        ;
        let rows: usize = jobs.len() / per;
        self.reads = self.reads + rows as u64;
        self.inflight = true;
        match checked {
            Ok(_) => Ok(true),
            Err(why) => match self.join(Err(why)) {
                Ok(()) => Ok(false),
                Err(why) => Err(why),
            },
        }
    }
}

/// The rows named so far, the reads that land them, and whether this lane
/// found no seat left.
pub struct Named {
    pub slab: SlabView,
    pub jobs: Seq<Job>,
    pub full: bool,
}

impl Named {
    /// One more id: a row the table has not, or one that is seated or named
    /// already, is passed over.
    pub open spec fn name(self, bands: Seq<Band>, rows: u64, seats: u32, id: i32) -> Named {
        if self.full || id < 0 || id >= rows || self.slab.seat_of.contains_key(id)
            || self.slab.pending.contains_key(id) {
            self
        } else if self.slab.next >= seats {
            Named { full: true, ..self }
        } else {
            let seat = self.slab.next;
            Named {
                slab: SlabView {
                    pending: self.slab.pending.insert(id, seat),
                    in_seat: self.slab.in_seat.update(seat as int, id),
                    next: (seat + 1) as u32,
                    ..self.slab
                },
                jobs: self.jobs + row_jobs(bands, seat, id),
                full: false,
            }
        }
    }
}

pub open spec fn name_lane(a: Named, bands: Seq<Band>, rows: u64, seats: u32, lane: Seq<i32>) -> Named
    decreases lane.len(),
{
    if lane.len() == 0 {
        a
    } else {
        name_lane(a, bands, rows, seats, lane.drop_last()).name(bands, rows, seats, lane.last())
    }
}

pub open spec fn name_lanes(
    a: Named,
    bands: Seq<Band>,
    rows: u64,
    seats: u32,
    lanes: Seq<Seq<i32>>,
) -> Named
    decreases lanes.len(),
{
    if lanes.len() == 0 {
        a
    } else {
        let b = name_lanes(a, bands, rows, seats, lanes.drop_last());
        name_lane(Named { full: false, ..b }, bands, rows, seats, lanes.last())
    }
}

pub open spec fn lane_views(lanes: Seq<Vec<i32>>) -> Seq<Seq<i32>> {
    Seq::new(lanes.len(), |l: int| lanes[l]@)
}

/// A lane that has found no seat names no more rows.
proof fn lemma_full_stays(a: Named, bands: Seq<Band>, rows: u64, seats: u32, lane: Seq<i32>, n: int)
    requires
        0 <= n <= lane.len(),
        n < lane.len() ==> name_lane(a, bands, rows, seats, lane.take(n)).full,
    ensures
        name_lane(a, bands, rows, seats, lane) == name_lane(a, bands, rows, seats, lane.take(n)),
    decreases lane.len() - n,
{
    if n == lane.len() {
        assert(lane.take(n) =~= lane);
    } else {
        assert(lane.take(n + 1).drop_last() =~= lane.take(n));
        lemma_full_stays(a, bands, rows, seats, lane, n + 1);
    }
}

/// A row named in a seat just taken keeps every row in its own.
proof fn lemma_named_wf(was: SlabView, rows: u64, seats: u32, id: i32, seat: u32)
    requires
        was.wf(rows, seats),
        0 <= id < rows,
        seat == was.next < seats,
        !was.seat_of.contains_key(id),
        !was.pending.contains_key(id),
    ensures
        ({
            let now = SlabView {
                pending: was.pending.insert(id, seat),
                in_seat: was.in_seat.update(seat as int, id),
                next: (seat + 1) as u32,
                ..was
            };
            &&& now.wf(rows, seats)
            &&& was.named_last() ==> now.named_last()
        }),
{
    let now = SlabView {
        pending: was.pending.insert(id, seat),
        in_seat: was.in_seat.update(seat as int, id),
        next: (seat + 1) as u32,
        ..was
    };
    if was.named_last() {
        assert(now.pending.dom() =~= was.pending.dom().insert(id));
        let n = now.pending.dom().len();
        assert forall|q: int| now.next - n <= q < now.next implies {
            &&& now.pending.contains_key(#[trigger] now.in_seat[q])
            &&& now.pending[now.in_seat[q]] == q
        } by {
            if q < seat {
                assert(was.pending.contains_key(was.in_seat[q]));
            }
        }
    }
}

/// What a lane's tokens are hashed as: themselves, and the end-of-sequence
/// id for one no id can say.
pub fn token_ids(tokens: &[u32], eos: i32) -> (ids: Vec<i32>)
    ensures
        ids@ == Seq::new(
            tokens@.len(),
            |i: int| if tokens@[i] <= i32::MAX { tokens@[i] as i32 } else { eos },
        ),
{
    let ghost all = Seq::new(
        tokens@.len(),
        |i: int| if tokens@[i] <= i32::MAX { tokens@[i] as i32 } else { eos },
    );
    let mut ids: Vec<i32> = Vec::new();
    let mut i: usize = 0;
    while i < tokens.len()
        invariant
            i <= tokens@.len(),
            all == Seq::new(
                tokens@.len(),
                |i: int| if tokens@[i] <= i32::MAX { tokens@[i] as i32 } else { eos },
            ),
            ids@ == all.take(i as int),
        decreases tokens@.len() - i,
    {
        let t: u32 = tokens[i];
        ids.push(if t <= 0x7fff_ffff { t as i32 } else { eos });
        i += 1;
        assert(ids@ =~= all.take(i as int));
    }
    assert(all.take(all.len() as int) =~= all);
    ids
}

/// What a cut seats: the reads that land rows no prefetch had, those rows,
/// and the id vector with every id made its seat, as far as `fault` let it
/// come. A slab that copies row by row meets a fault with the rows before it
/// landed; one that reads them all at once meets it before it reads.
#[derive(Debug)]
pub struct RowSeating {
    pub jobs: Vec<Job>,
    pub landing: Vec<(i32, u32)>,
    pub ids: Vec<u8>,
    pub fault: Option<Fault>,
    /// Whether a prefetch was in flight as the cut came.
    pub prefetching: bool,
}

/// The id vector seated so far.
pub struct Cut {
    pub slab: SlabView,
    pub jobs: Seq<Job>,
    pub landing: Seq<(i32, u32)>,
    pub words: Seq<u32>,
    pub fault: Option<Fault>,
}

/// The first of the first `n` reads of a row that runs past the source.
pub open spec fn past_source(jobs: Seq<Job>, have: u64, n: nat) -> Option<Fault>
    decreases n,
{
    if n == 0 {
        None
    } else if past_source(jobs, have, (n - 1) as nat) is Some {
        past_source(jobs, have, (n - 1) as nat)
    } else if jobs[n - 1].1 + jobs[n - 1].2 > have {
        Some(
            Fault::Ceiling {
                what: What::RowSource,
                need: (jobs[n - 1].1 + jobs[n - 1].2) as u64,
                have,
            },
        )
    } else {
        None
    }
}

/// How many of the first `n` reads of a row come before one that runs past
/// the source.
pub open spec fn in_source(jobs: Seq<Job>, have: u64, n: nat) -> nat
    decreases n,
{
    if n == 0 {
        0
    } else if past_source(jobs, have, (n - 1) as nat) is Some {
        in_source(jobs, have, (n - 1) as nat)
    } else if jobs[n - 1].1 + jobs[n - 1].2 > have {
        (n - 1) as nat
    } else {
        n
    }
}

impl Cut {
    /// One more id: a negative one stays, one the table has no row for is
    /// made a seat past the last, and any other the seat its row is in,
    /// taking one where it is in none.
    pub open spec fn seat(self, of: Slab, w: u32) -> Cut {
        let id = signed(w as int) as i32;
        if self.fault is Some {
            self
        } else if id < 0 {
            Cut { words: self.words.push(w), ..self }
        } else if id >= of.rows {
            Cut { words: self.words.push(of.seats), ..self }
        } else if self.slab.seat_of.contains_key(id) {
            Cut { words: self.words.push(self.slab.seat_of[id]), ..self }
        } else if self.slab.next >= of.seats {
            Cut { fault: Some(of.is_full()), ..self }
        } else {
            let seat = self.slab.next;
            let jobs = row_jobs(of.bands@, seat, id);
            if !of.pread && past_source(jobs, of.have, jobs.len()) is Some {
                Cut {
                    jobs: self.jobs + jobs.take(in_source(jobs, of.have, jobs.len()) as int),
                    fault: past_source(jobs, of.have, jobs.len()),
                    ..self
                }
            } else {
                Cut {
                    slab: SlabView {
                        seat_of: self.slab.seat_of.insert(id, seat),
                        in_seat: self.slab.in_seat.update(seat as int, id),
                        next: (seat + 1) as u32,
                        ..self.slab
                    },
                    jobs: self.jobs + jobs,
                    landing: self.landing.push((id, seat)),
                    words: self.words.push(seat),
                    fault: None,
                }
            }
        }
    }
}

/// A whole id vector seated, word by word.
pub open spec fn cut(v: SlabView, of: Slab, words: Seq<u32>) -> Cut
    decreases words.len(),
{
    if words.len() == 0 {
        Cut {
            slab: v,
            jobs: Seq::empty(),
            landing: Seq::empty(),
            words: Seq::empty(),
            fault: None,
        }
    } else {
        cut(v, of, words.drop_last()).seat(of, words.last())
    }
}

pub open spec fn words(raw: Seq<u8>) -> Seq<u32> {
    Seq::new(raw.len() / 4, |i: int| word(raw, i) as u32)
}

proof fn lemma_cut_stops(v: SlabView, of: Slab, all: Seq<u32>, n: int)
    requires
        0 <= n <= all.len(),
        cut(v, of, all.take(n)).fault is Some,
    ensures
        cut(v, of, all) == cut(v, of, all.take(n)),
    decreases all.len() - n,
{
    if n == all.len() {
        assert(all.take(n) =~= all);
    } else {
        assert(all.take(n + 1).drop_last() =~= all.take(n));
        lemma_cut_stops(v, of, all, n + 1);
    }
}

/// What a cut does to a slab: rows take seats one after another, and nothing
/// else changes.
spec fn seated_on(v: SlabView, s: SlabView) -> bool {
    &&& s == (SlabView { seat_of: s.seat_of, in_seat: s.in_seat, next: s.next, ..v })
    &&& s.in_seat.len() == v.in_seat.len()
    &&& v.next <= s.next <= v.in_seat.len()
    &&& forall|id: i32|
        #![trigger v.seat_of.contains_key(id)]
        #![trigger s.seat_of.contains_key(id)]
        v.seat_of.contains_key(id) <==> s.seat_of.contains_key(id) && s.seat_of[id] < v.next
    &&& forall|id: i32| #[trigger] v.seat_of.contains_key(id) ==> s.seat_of[id] == v.seat_of[id]
    &&& forall|q: int| 0 <= q < v.next ==> #[trigger] s.in_seat[q] == v.in_seat[q]
}

/// A cut undone leaves the slab as it was before.
pub proof fn lemma_cut_undone(v: SlabView, of: Slab, all: Seq<u32>)
    requires
        v.wf(of.rows, of.seats),
    ensures
        cut(v, of, all).landing.len() == 0 ==> cut(v, of, all).slab == v,
        cut(v, of, all).landing.len() > 0 ==> cut(v, of, all).landing[0].1 == v.next,
        cut(v, of, all).slab.stopped(v.next) == v,
{
    lemma_seated_on(v, of, all);
    let s = cut(v, of, all).slab;
    let w = s.stopped(v.next);
    assert(w.seat_of =~= v.seat_of);
    assert(w.in_seat =~= v.in_seat);
    assert(w =~= v);
}

proof fn lemma_seated_on(v: SlabView, of: Slab, all: Seq<u32>)
    requires
        v.wf(of.rows, of.seats),
    ensures
        seated_on(v, cut(v, of, all).slab),
        cut(v, of, all).landing.len() == 0 ==> cut(v, of, all).slab == v,
        cut(v, of, all).landing.len() > 0 ==> cut(v, of, all).landing[0].1 == v.next,
    decreases all.len(),
{
    if all.len() > 0 {
        lemma_seated_on(v, of, all.drop_last());
    }
}

/// Every row of an id vector that was seated whole sits in the seat the
/// vector now names, and that seat says so: never a wrong row.
pub proof fn a_cut_names_the_right_rows(v: SlabView, of: Slab, all: Seq<u32>)
    requires
        v.wf(of.rows, of.seats),
        !v.inflight,
        cut(v, of, all).fault is None,
    ensures
        ({
            let c = cut(v, of, all);
            &&& c.slab.wf(of.rows, of.seats)
            &&& !c.slab.inflight
            &&& c.words.len() == all.len()
            &&& v.next <= c.slab.next
            &&& forall|id: i32| #[trigger] v.seat_of.contains_key(id) ==> c.slab.seat_of.contains_key(id)
                && c.slab.seat_of[id] == v.seat_of[id]
            &&& c.slab.pending == v.pending
            &&& forall|i: int|
                0 <= i < all.len() ==> {
                    let id = signed(#[trigger] all[i] as int);
                    &&& id < 0 ==> c.words[i] == all[i]
                    &&& id >= of.rows ==> c.words[i] == of.seats
                    &&& 0 <= id < of.rows ==> {
                        &&& c.slab.seat_of.contains_key(id as i32)
                        &&& c.words[i] == c.slab.seat_of[id as i32]
                        &&& c.words[i] < of.seats
                        &&& c.slab.in_seat[c.words[i] as int] == id
                    }
                }
        }),
    decreases all.len(),
{
    if all.len() > 0 {
        let head = all.drop_last();
        let p = cut(v, of, head);
        let c = cut(v, of, all);
        a_cut_names_the_right_rows(v, of, head);
        assert forall|i: int| 0 <= i < all.len() implies {
            let id = signed(#[trigger] all[i] as int);
            &&& id < 0 ==> c.words[i] == all[i]
            &&& id >= of.rows ==> c.words[i] == of.seats
            &&& 0 <= id < of.rows ==> {
                &&& c.slab.seat_of.contains_key(id as i32)
                &&& c.words[i] == c.slab.seat_of[id as i32]
                &&& c.words[i] < of.seats
                &&& c.slab.in_seat[c.words[i] as int] == id
            }
        } by {
            if i < head.len() {
                assert(head[i] == all[i]);
                let id = signed(all[i] as int);
                if 0 <= id < of.rows {
                    assert(p.slab.seat_of.contains_key(id as i32));
                }
            }
        }
    }
}

impl Slab {
    /// Seat the rows an id vector names, once the prefetch in flight, if
    /// any, was taken as `landed` says: what it landed is resident, and what
    /// the device names beyond that is read here. The caller moves the bytes
    /// and then says how that went; only then is the id vector written back.
    /// A slab that reads its rows all at once and has not the seats for them
    /// seats none. A segment without rows asks nothing.
    pub fn segment(&mut self, rows: u32, raw: &[u8], landed: Result<u64, Fault>) -> (seating: Result<
        Option<RowSeating>,
        Fault,
    >)
        requires
            old(self).wf(),
            old(self).inflight ==> (landed matches Ok(ns) ==> {
                &&& old(self).read_ns + ns <= u64::MAX
                &&& old(self).copies + old(self)@.pending.dom().len() * old(self).bands@.len()
                    <= u64::MAX
            }),
        ensures
            final(self).wf(),
            final(self).beside(old(self)),
            ({
                let joined = old(self)@.joined(landed, old(self).bands@.len());
                let c = cut(joined, *old(self), words(raw@));
                if rows == 0 {
                    &&& final(self)@ == old(self)@
                    &&& seating == Ok::<Option<RowSeating>, Fault>(None)
                } else if old(self).inflight && landed is Err {
                    &&& final(self)@ == joined
                    &&& seating is Err && landed == Err::<u64, Fault>(seating->Err_0)
                } else {
                    match seating {
                        Ok(None) => false,
                        Ok(Some(seating)) => {
                            &&& final(self)@ == c.slab
                            &&& old(self).pread ==> c.fault is None
                            &&& seating.fault == c.fault
                            &&& seating.jobs@ == c.jobs
                            &&& seating.landing@ == c.landing
                            &&& seating.ids@ == laid(c.words)
                            &&& seating.prefetching == old(self).inflight
                            &&& just_seated(final(self)@, seating.landing@)
                            &&& !final(self).inflight
                        },
                        Err(fault) => {
                            &&& old(self).pread
                            &&& c.fault == Some(fault)
                            &&& final(self)@ == joined
                        },
                    }
                }
            }),
    {
        if rows == 0 {
            return Ok(None);
        }
        let prefetching: bool = self.inflight;
        if let Err(why) = self.join(landed) {
            return Err(why);
        }
        let ghost v = self@;
        let ghost of = *old(self);
        let ghost all = words(raw@);
        let n: usize = raw.len() / 4;
        let mut jobs: Vec<Job> = Vec::new();
        let mut landing: Vec<(i32, u32)> = Vec::new();
        let mut seated: Vec<u8> = Vec::new();
        let mut i: usize = 0;
        proof {
            assert(all.take(0) =~= Seq::<u32>::empty());
            assert(laid(Seq::<u32>::empty()) =~= Seq::<u8>::empty());
        }
        while i < n
            invariant
                n == raw@.len() / 4,
                i <= n,
                rows > 0,
                all == words(raw@),
                of == *old(self),
                v == old(self)@.joined(landed, old(self).bands@.len()),
                v.wf(of.rows, of.seats),
                !(old(self).inflight && landed is Err),
                self.wf(),
                !self.inflight,
                self.beside(old(self)),
                ({
                    let c = cut(v, of, all.take(i as int));
                    &&& c.fault is None
                    &&& self@ == c.slab
                    &&& jobs@ == c.jobs
                    &&& landing@ == c.landing
                    &&& seated@ == laid(c.words)
                    &&& just_seated(self@, landing@)
                }),
                prefetching == old(self).inflight,
                landing@.len() > 0 ==> landing@.last().1 + 1 == self.next,
            decreases n - i,
        {
            let w: u32 = word_at(raw, i);
            let id: i32 = as_signed(w);
            let ghost c = cut(v, of, all.take(i as int));
            let ghost m = cut(v, of, all.take(i + 1));
            proof {
                assert(all.take(i + 1).drop_last() =~= all.take(i as int));
                assert(all.take(i + 1).last() == w);
                assert(m == c.seat(of, w));
            }
            i += 1;
            if id < 0 {
                push_word(&mut seated, w);
                assert(m.words.drop_last() =~= c.words);
                continue ;
            }
            if id as u64 >= self.rows {
                push_word(&mut seated, self.seats);
                assert(m.words.drop_last() =~= c.words);
                continue ;
            }
            if let Some(seat) = self.seat_of.get(&id) {
                push_word(&mut seated, *seat);
                assert(m.words.drop_last() =~= c.words);
                continue ;
            }
            let seat: u32 = self.next;
            match self.take() {
                Some(_) => {},
                None => {
                    proof {
                        lemma_cut_stops(v, of, all, i as int);
                    }
                    let why = self.full();
                    if self.pread {
                        proof {
                            lemma_cut_undone(v, of, all);
                        }
                        if landing.len() > 0 {
                            self.unseat(&landing, 0);
                        }
                        return Err(why);
                    }
                    return Ok(
                        Some(
                            RowSeating {
                                jobs,
                                landing,
                                ids: seated,
                                fault: Some(why),
                                prefetching,
                            },
                        ),
                    );
                },
            };
            let mut mine: Vec<Job> = Vec::new();
            self.jobs(seat, id, &mut mine);
            assert(mine@ =~= row_jobs(of.bands@, seat, id));
            if !self.pread {
                proof {
                    lemma_row_fits(of.bands@, of.rows, of.seats, seat, id);
                }
                if let Some((within, why)) = check_source(&mine, self.have) {
                    let ghost whole = mine@;
                    mine.truncate(within);
                    assert(mine@ =~= whole.take(within as int));
                    jobs.append(&mut mine);
                    // the row is nowhere to be had: its seat goes back
                    self.next = seat;
                    proof {
                        assert(self@ =~= m.slab);
                        assert(jobs@ =~= m.jobs);
                        lemma_cut_stops(v, of, all, i as int);
                    }
                    return Ok(
                        Some(
                            RowSeating {
                                jobs,
                                landing,
                                ids: seated,
                                fault: Some(why),
                                prefetching,
                            },
                        ),
                    );
                }
            }
            jobs.append(&mut mine);
            let ghost was = self@;
            self.seat_of.insert(id, seat);
            self.in_seat.set(seat as usize, id);
            landing.push((id, seat));
            push_word(&mut seated, seat);
            proof {
                assert(self@ =~= m.slab);
                assert(m.words.drop_last() =~= c.words);
            }
        }
        assert(all.take(n as int) =~= all);
        Ok(Some(RowSeating { jobs, landing, ids: seated, fault: None, prefetching }))
    }

    /// The bytes a cut's seating asked for were moved in `ns` of host time,
    /// or some copy failed, so many having been made before it. Then a slab
    /// that reads its rows all at once has none of them, and one that copies
    /// them row by row those it copied whole; the seats of the others go
    /// back, and a cut that names them reads them. Says the id vector to
    /// write back.
    pub fn land(&mut self, seating: RowSeating, moved: Result<(), (usize, Fault)>, ns: u64) -> (ids:
        Result<Vec<u8>, Fault>)
        requires
            old(self).wf(),
            !old(self).inflight,
            just_seated(old(self)@, seating.landing@),
            old(self).pread ==> seating.fault is None,
            moved matches Err((made, _)) ==> made < seating.jobs@.len(),
            seating.jobs@.len() > 0 ==> old(self).bands@.len() > 0,
            old(self).read_ns + ns <= u64::MAX,
            old(self).copies + seating.jobs@.len() <= u64::MAX,
            old(self).reads + seating.landing@.len() <= u64::MAX,
            old(self).missed + seating.landing@.len() <= u64::MAX,
        ensures
            final(self).wf(),
            final(self).beside(old(self)),
            match (moved, seating.fault) {
                (Err((made, fault)), _) => {
                    &&& ids == Err::<Vec<u8>, Fault>(fault)
                    &&& final(self)@ == old(self)@.stopped_after(
                        seating.landing@,
                        old(self).bands@.len(),
                        if old(self).pread {
                            0
                        } else {
                            made as nat
                        },
                    )
                },
                (Ok(_), Some(fault)) => {
                    &&& ids == Err::<Vec<u8>, Fault>(fault)
                    &&& final(self)@ == (SlabView {
                        copies: (old(self).copies + seating.jobs@.len()) as u64,
                        ..old(self)@
                    })
                },
                (Ok(_), None) => {
                    &&& ids == Ok::<Vec<u8>, Fault>(seating.ids)
                    &&& final(self)@ == (SlabView {
                        read_ns: if seating.jobs@.len() > 0 && old(self).pread {
                            (old(self).read_ns + ns) as u64
                        } else {
                            old(self).read_ns
                        },
                        copies: (old(self).copies + seating.jobs@.len()) as u64,
                        reads: (old(self).reads + seating.landing@.len()) as u64,
                        missed: if seating.prefetching || old(self).prefetch {
                            (old(self).missed + seating.landing@.len()) as u64
                        } else {
                            old(self).missed
                        },
                        ..old(self)@
                    })
                },
            },
    {
        if let Err((made, why)) = moved {
            self.stop_after(&seating, if self.pread { 0 } else { made });
            return Err(why);
        }
        self.copies = self.copies + seating.jobs.len() as u64;
        if let Some(why) = seating.fault {
            return Err(why);
        }
        if seating.jobs.len() > 0 && self.pread {
            self.read_ns = self.read_ns + ns;
        }
        self.reads = self.reads + seating.landing.len() as u64;
        if seating.prefetching || self.prefetch {
            self.missed = self.missed + seating.landing.len() as u64;
        }
        Ok(seating.ids)
    }

    /// Only `made` of a seating's copies were made: the row they stopped in
    /// and the rows after it are in no seat.
    fn stop_after(&mut self, seating: &RowSeating, made: usize)
        requires
            old(self).wf(),
            !old(self).inflight,
            just_seated(old(self)@, seating.landing@),
            old(self).bands@.len() > 0,
            old(self).copies + made <= u64::MAX,
        ensures
            final(self).wf(),
            final(self).beside(old(self)),
            final(self)@ == old(self)@.stopped_after(
                seating.landing@,
                old(self).bands@.len(),
                made as nat,
            ),
    {
        self.copies = self.copies + made as u64;
        let row: usize = made / self.bands.len();
        if row >= seating.landing.len() {
            return ;
        }
        self.unseat(&seating.landing, row);
    }

    /// The rows of `landing`, the last seated, from the `row`th on are in no
    /// seat, and their seats go back.
    fn unseat(&mut self, landing: &Vec<(i32, u32)>, row: usize)
        requires
            old(self).wf(),
            !old(self).inflight,
            just_seated(old(self)@, landing@),
            row < landing@.len(),
        ensures
            final(self).wf(),
            final(self).beside(old(self)),
            final(self)@ == old(self)@.stopped(landing@[row as int].1),
    {
        let ghost v = self@;
        let ghost all = landing@;
        let from: u32 = landing[row].1;
        let mut k: usize = row;
        while k < landing.len()
            invariant
                row <= k <= all.len(),
                all == landing@,
                just_seated(v, all),
                v.wf(self.rows, self.seats),
                from == all[row as int].1,
                *self == (Slab { seat_of: self.seat_of, in_seat: self.in_seat, ..*old(self) }),
                v == old(self)@,
                self.in_seat@.len() == v.in_seat.len(),
                forall|q: int|
                    0 <= q < v.in_seat.len() ==> #[trigger] self.in_seat@[q] == if from <= q < from
                        + k - row {
                        -1i32
                    } else {
                        v.in_seat[q]
                    },
                forall|id: i32| #[trigger]
                    self.seat_of@.contains_key(id) <==> v.seat_of.contains_key(id) && !(from
                        <= v.seat_of[id] < from + k - row),
                forall|id: i32| #[trigger]
                    self.seat_of@.contains_key(id) ==> self.seat_of@[id] == v.seat_of[id],
            decreases all.len() - k,
        {
            let (id, seat) = landing[k];
            proof {
                assert(all[k as int].1 == all[0].1 + k && all[row as int].1 == all[0].1 + row);
                assert(v.in_seat[seat as int] == id);
                assert forall|r: i32| v.seat_of.contains_key(r) && v.seat_of[r] == seat implies r == id by {
                    assert(v.in_seat[v.seat_of[r] as int] == r);
                }
            }
            self.seat_of.remove(&id);
            self.in_seat.set(seat as usize, -1);
            k += 1;
        }
        self.next = from;
        proof {
            let last = all.last();
            assert(all[all.len() - 1].1 == all[0].1 + all.len() - 1);
            assert(all[row as int].1 == all[0].1 + row);
            assert forall|id: i32| v.seat_of.contains_key(id) implies v.seat_of[id] <= last.1 by {
                assert(v.in_seat[v.seat_of[id] as int] == id);
            }
            assert(self@.seat_of =~= v.stopped(from).seat_of);
            assert(self@.in_seat =~= v.stopped(from).in_seat);
            assert(self@ =~= v.stopped(from));
            assert forall|id: i32| #[trigger] self@.pending.contains_key(id) implies {
                &&& self@.pending[id] < self.next
                &&& self@.in_seat[self@.pending[id] as int] == id
            } by {
                let s = v.pending[id] as int;
                assert(v.in_seat[s] == id);
                if s >= from {
                    let k = s - all[0].1;
                    assert(v.seat_of.contains_key(all[k].0));
                    assert(v.in_seat[all[k].1 as int] == all[k].0);
                }
            }
        }
    }

    pub fn residency(&self) -> (residency: Residency)
        ensures
            residency == (Residency {
                name: self.name,
                rows: self.rows,
                seats: self.seats,
                demanded: self.next,
            }),
    {
        Residency {
            name: self.name.clone(),
            rows: self.rows,
            seats: self.seats,
            demanded: self.next,
        }
    }

    /// Copies made, and fires opened.
    pub fn motion(&self) -> (moved: (u64, u64))
        ensures
            moved == (self.copies, self.fires),
    {
        (self.copies, self.fires)
    }

    /// One line for the load log.
    pub fn describe(&self) -> (text: String)
        ensures
            text@ == "n-gram rows: "@ + decimal_text(self.seats as nat) + " seats of `"@ + self.name@
                + "`, read by "@ + (if self.pread {
                "uncached pread"@
            } else {
                "the artifact's mapping"@
            }) + (if self.prefetch { ", prefetched as the fire opens"@ } else { Seq::empty() }),
    {
        let mut text = String::new();
        text.append("n-gram rows: ");
        say_number(&mut text, self.seats as u64);
        text.append(" seats of `");
        text.append(self.name.as_str());
        text.append("`, read by ");
        if self.pread {
            text.append("uncached pread");
        } else {
            text.append("the artifact's mapping");
        }
        if self.prefetch {
            text.append(", prefetched as the fire opens");
        }
        assert(text@ =~= "n-gram rows: "@ + decimal_text(self.seats as nat) + " seats of `"@
            + self.name@ + "`, read by "@ + (if self.pread {
            "uncached pread"@
        } else {
            "the artifact's mapping"@
        }) + (if self.prefetch { ", prefetched as the fire opens"@ } else { Seq::empty() }));
        text
    }
}

/// The reads of a row the table has end inside its planes.
proof fn lemma_row_fits(bands: Seq<Band>, rows: u64, seats: u32, seat: u32, row: i32)
    requires
        spans_fit(bands, rows, seats),
        0 <= row < rows,
    ensures
        forall|i: int|
            0 <= i < row_jobs(bands, seat, row).len() ==> (#[trigger] row_jobs(
                bands,
                seat,
                row,
            )[i]).1 + row_jobs(bands, seat, row)[i].2 <= u64::MAX,
{
    let jobs = row_jobs(bands, seat, row);
    assert forall|i: int| 0 <= i < jobs.len() implies (#[trigger] jobs[i]).1 + jobs[i].2 <= u64::MAX by {
        let band = bands[i];
        assert(band.from + rows * band.stride <= u64::MAX);
        assert(0 <= row * band.stride && row * band.stride + band.stride <= rows * band.stride)
            by (nonlinear_arith)
            requires
                0 <= row < rows,
                band.stride >= 0,
        ;
    }
}

/// The first read that runs past the source, and how many come before it.
fn check_source(jobs: &Vec<Job>, have: u64) -> (fault: Option<(usize, Fault)>)
    requires
        forall|i: int|
            0 <= i < jobs@.len() ==> (#[trigger] jobs@[i]).1 + jobs@[i].2 <= u64::MAX,
    ensures
        match fault {
            None => past_source(jobs@, have, jobs@.len()) is None,
            Some((within, fault)) => {
                &&& past_source(jobs@, have, jobs@.len()) == Some(fault)
                &&& within == in_source(jobs@, have, jobs@.len())
                &&& within < jobs@.len()
            },
        },
{
    let mut i: usize = 0;
    while i < jobs.len()
        invariant
            i <= jobs@.len(),
            forall|i: int|
                0 <= i < jobs@.len() ==> (#[trigger] jobs@[i]).1 + jobs@[i].2 <= u64::MAX,
            past_source(jobs@, have, i as nat) is None,
        decreases jobs@.len() - i,
    {
        let (_, from, len) = jobs[i];
        let need: u64 = from + len;
        if need > have {
            proof {
                lemma_past_stays(jobs@, have, (i + 1) as nat, jobs@.len());
            }
            return Some((i, Fault::Ceiling { what: What::RowSource, need, have }));
        }
        i += 1;
    }
    None
}

proof fn lemma_past_stays(jobs: Seq<Job>, have: u64, n: nat, m: nat)
    requires
        n <= m,
        past_source(jobs, have, n) is Some,
    ensures
        past_source(jobs, have, m) == past_source(jobs, have, n),
        in_source(jobs, have, m) == in_source(jobs, have, n),
    decreases m,
{
    if n < m {
        lemma_past_stays(jobs, have, n, (m - 1) as nat);
    }
}

} // verus!
