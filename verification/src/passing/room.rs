//! Who sits where, by the tick a seat was last used at.

use vstd::prelude::*;

use crate::experts::seats::{lemma_seen, same_groups, seen, Group};

verus! {

/// The seats the groups share: one holds one `(group, expert)` of any group.
/// A pinned seat is read by a matmul of the segment running now.
#[derive(Debug)]
pub struct Pool {
    pub slots: u32,
    pub in_seat: Vec<Option<(u32, u32)>>,
    pub pinned: Vec<bool>,
    pub last_used: Vec<u64>,
}

impl Pool {
    pub open spec fn wf(&self) -> bool {
        &&& self.in_seat@.len() == self.slots
        &&& self.pinned@.len() == self.slots
        &&& self.last_used@.len() == self.slots
    }

    /// A pool nobody sits in.
    pub fn new(slots: u32) -> (pool: Pool)
        ensures
            pool.wf(),
            pool.slots == slots,
            pool.in_seat@ == Seq::new(slots as nat, |s: int| None::<(u32, u32)>),
            pool.pinned@ == Seq::new(slots as nat, |s: int| false),
            pool.last_used@ == Seq::new(slots as nat, |s: int| 0u64),
    {
        let mut in_seat: Vec<Option<(u32, u32)>> = Vec::new();
        let mut pinned: Vec<bool> = Vec::new();
        let mut last_used: Vec<u64> = Vec::new();
        let mut s: u32 = 0;
        while s < slots
            invariant
                s <= slots,
                in_seat@ == Seq::new(s as nat, |s: int| None::<(u32, u32)>),
                pinned@ == Seq::new(s as nat, |s: int| false),
                last_used@ == Seq::new(s as nat, |s: int| 0u64),
            decreases slots - s,
        {
            in_seat.push(None);
            pinned.push(false);
            last_used.push(0);
            s += 1;
            assert(in_seat@ =~= Seq::new(s as nat, |s: int| None::<(u32, u32)>));
            assert(pinned@ =~= Seq::new(s as nat, |s: int| false));
            assert(last_used@ =~= Seq::new(s as nat, |s: int| 0u64));
        }
        Pool { slots, in_seat, pinned, last_used }
    }
}

/// Who sits in every seat, when each was last used, and where every expert
/// of every group sits.
#[verifier::ext_equal]
pub struct RoomView {
    pub in_seat: Seq<Option<(u32, u32)>>,
    pub pinned: Seq<bool>,
    pub last_used: Seq<u64>,
    pub seat_of: Seq<Seq<Option<u32>>>,
    pub ever: Seq<Seq<bool>>,
    pub distinct: nat,
    /// The tick the next use is written down as.
    pub tick: nat,
}

impl RoomView {
    /// Where `expert` of group `at` sits.
    pub open spec fn seat(self, at: int, expert: int) -> Option<u32> {
        self.seat_of[at][expert]
    }

    pub open spec fn names(self, at: int, expert: int) -> bool {
        0 <= at < self.seat_of.len() && 0 <= expert < self.seat_of[at].len()
    }

    /// An expert sits in one seat, a seat holds one expert, whoever ever sat
    /// is counted, and every use lies before the next tick.
    pub open spec fn inv(self) -> bool {
        let slots = self.in_seat.len();
        &&& slots <= u32::MAX
        &&& self.pinned.len() == slots
        &&& self.last_used.len() == slots
        &&& self.ever.len() == self.seat_of.len()
        &&& self.seat_of.len() <= u32::MAX
        &&& forall|g: int|
            0 <= g < self.seat_of.len() ==> {
                &&& (#[trigger] self.seat_of[g]).len() <= u32::MAX
                &&& self.ever[g].len() == self.seat_of[g].len()
            }
        &&& self.distinct == seen(self.ever)
        &&& forall|s: int| 0 <= s < slots ==> #[trigger] self.last_used[s] < self.tick
        &&& forall|s: int|
            0 <= s < slots ==> (#[trigger] self.in_seat[s] matches Some((g, e)) ==> {
                &&& self.names(g as int, e as int)
                &&& self.seat(g as int, e as int) == Some(s as u32)
            })
        &&& forall|g: int, e: int|
            self.names(g, e) ==> (#[trigger] self.seat(g, e) matches Some(s) ==> {
                &&& s < slots
                &&& self.in_seat[s as int] == Some((g as u32, e as u32))
            })
    }

    /// `s` is the least recently used of the seats that are not pinned; of
    /// two used as long ago, the first.
    pub open spec fn coldest(self, s: u32) -> bool {
        &&& s < self.in_seat.len()
        &&& !self.pinned[s as int]
        &&& forall|t: int|
            0 <= t < self.in_seat.len() && !self.pinned[t] ==> {
                ||| self.last_used[s as int] < #[trigger] self.last_used[t]
                ||| self.last_used[s as int] == self.last_used[t] && s <= t
            }
    }

    /// The seat that is evicted next; none, when every seat is pinned.
    pub open spec fn victim(self) -> Option<u32> {
        if exists|s: u32| self.coldest(s) {
            Some(choose|s: u32| self.coldest(s))
        } else {
            None
        }
    }

    /// `seat` used now.
    pub open spec fn used(self, seat: u32) -> RoomView {
        RoomView {
            last_used: self.last_used.update(seat as int, self.tick as u64),
            tick: self.tick + 1,
            ..self
        }
    }

    /// `seat` used now, and pinned for the segment.
    pub open spec fn touch(self, seat: u32) -> RoomView {
        RoomView { pinned: self.pinned.update(seat as int, true), ..self.used(seat) }
    }

    /// `seat` emptied of whoever sat there.
    pub open spec fn emptied(self, seat: u32) -> RoomView {
        match self.in_seat[seat as int] {
            Some((g, e)) => RoomView {
                in_seat: self.in_seat.update(seat as int, None),
                seat_of: self.seat_of.update(
                    g as int,
                    self.seat_of[g as int].update(e as int, None),
                ),
                ..self
            },
            None => self,
        }
    }

    /// `expert` of group `at` said to sit in `seat`.
    pub open spec fn sat(self, at: int, seat: u32, expert: u32) -> RoomView {
        RoomView {
            in_seat: self.in_seat.update(seat as int, Some((at as u32, expert))),
            seat_of: self.seat_of.update(at, self.seat_of[at].update(expert as int, Some(seat))),
            ever: self.ever.update(at, self.ever[at].update(expert as int, true)),
            distinct: if self.ever[at][expert as int] { self.distinct } else { self.distinct + 1 },
            ..self
        }
    }

    /// `expert` of group `at` given the victim's seat, if there is one.
    pub open spec fn place(self, at: int, expert: u32) -> RoomView {
        match self.victim() {
            Some(seat) => self.emptied(seat).sat(at, seat, expert).touch(seat),
            None => self,
        }
    }

    /// Every pin let go.
    pub open spec fn unpinned(self) -> RoomView {
        RoomView { pinned: Seq::new(self.pinned.len(), |s: int| false), ..self }
    }
}

/// No two seats are both the coldest.
pub proof fn lemma_coldest(v: RoomView, s: u32)
    requires
        v.last_used.len() == v.in_seat.len(),
        v.coldest(s),
    ensures
        v.victim() == Some(s),
{
    let t = choose|t: u32| v.coldest(t);
    assert(v.coldest(t));
    assert(v.last_used[s as int] == v.last_used[t as int]);
}

/// A use keeps every expert in one seat.
pub proof fn lemma_touch(v: RoomView, s: u32)
    requires
        v.inv(),
        s < v.in_seat.len(),
        v.tick <= u64::MAX,
    ensures
        v.used(s).inv(),
        v.touch(s).inv(),
{
    let w = v.used(s);
    assert forall|t: int| 0 <= t < w.in_seat.len() implies #[trigger] w.last_used[t] < w.tick by {
        if t != s {
            assert(w.last_used[t] == v.last_used[t]);
        }
    }
    assert forall|g: int, e: int| w.names(g, e) implies (#[trigger] w.seat(g, e) matches Some(s) ==> {
        &&& s < w.in_seat.len()
        &&& w.in_seat[s as int] == Some((g as u32, e as u32))
    }) by {
        assert(v.names(g, e) && v.seat(g, e) == w.seat(g, e));
    }
    let x = v.touch(s);
    assert forall|g: int, e: int| x.names(g, e) implies (#[trigger] x.seat(g, e) matches Some(s) ==> {
        &&& s < x.in_seat.len()
        &&& x.in_seat[s as int] == Some((g as u32, e as u32))
    }) by {
        assert(v.names(g, e) && v.seat(g, e) == x.seat(g, e));
    }
}

/// What giving an expert the victim's seat does: it sits there, alone;
/// whoever sat there sits nowhere; nobody else moved, and no pin went.
pub proof fn lemma_place(v: RoomView, at: int, e: u32)
    requires
        v.inv(),
        v.names(at, e as int),
        v.seat(at, e as int) is None,
        v.tick <= u64::MAX,
    ensures
        v.place(at, e).inv(),
        v.victim() matches Some(s) ==> {
            let w = v.place(at, e);
            &&& v.coldest(s)
            &&& w.seat(at, e as int) == Some(s)
            &&& w.pinned == v.pinned.update(s as int, true)
            &&& w.tick == v.tick + 1
            &&& w.last_used == v.last_used.update(s as int, v.tick as u64)
            &&& forall|g: int, x: int|
                v.names(g, x) && (g != at || x != e) ==> #[trigger] w.seat(g, x) == if v.seat(g, x)
                    == Some(s) {
                    None
                } else {
                    v.seat(g, x)
                }
        },
        v.place(at, e).in_seat.len() == v.in_seat.len(),
        v.place(at, e).seat_of.len() == v.seat_of.len(),
        forall|g: int|
            0 <= g < v.seat_of.len() ==> (#[trigger] v.place(at, e).seat_of[g]).len()
                == v.seat_of[g].len(),
{
    assert forall|g: int| 0 <= g < v.ever.len() implies (#[trigger] v.ever[g]).len() <= u32::MAX by {
        assert(v.seat_of[g].len() <= u32::MAX);
    }
    lemma_seen(v.ever, at, e as int);
    if let Some(s) = v.victim() {
        assert(v.coldest(s));
        let w = v.place(at, e);
        let mid = v.emptied(s);
        assert(v.in_seat[s as int] matches Some((g, x)) ==> v.names(g as int, x as int));
        assert forall|g: int, x: int| v.names(g, x) implies #[trigger] mid.seat(g, x) == if v.seat(g, x)
            == Some(s) {
            None
        } else {
            v.seat(g, x)
        } by {
            if v.seat(g, x) == Some(s) {
                assert(v.in_seat[s as int] == Some((g as u32, x as u32)));
            }
            match v.in_seat[s as int] {
                Some((h, y)) => {
                    assert(v.seat(h as int, y as int) == Some(s));
                },
                None => {},
            }
        }
        assert forall|g: int, x: int| v.names(g, x) && (g != at || x != e) implies #[trigger] w.seat(g, x)
            == if v.seat(g, x) == Some(s) { None } else { v.seat(g, x) } by {
            assert(mid.seat(g, x) == w.seat(g, x));
        }
        assert forall|t: int| 0 <= t < w.in_seat.len() implies #[trigger] w.last_used[t] < w.tick by {
            if t != s {
                assert(w.last_used[t] == v.last_used[t]);
            }
        }
        assert forall|t: int| 0 <= t < w.in_seat.len() implies (#[trigger] w.in_seat[t] matches Some((g, x)) ==> {
            &&& w.names(g as int, x as int)
            &&& w.seat(g as int, x as int) == Some(t as u32)
        }) by {
            if t != s {
                assert(w.in_seat[t] == v.in_seat[t]);
                if let Some((g, x)) = v.in_seat[t] {
                    assert(v.names(g as int, x as int) && v.seat(g as int, x as int) == Some(t as u32));
                    assert(w.seat(g as int, x as int) == v.seat(g as int, x as int));
                }
            }
        }
        assert forall|g: int, x: int| w.names(g, x) implies (#[trigger] w.seat(g, x) matches Some(t) ==> {
            &&& t < w.in_seat.len()
            &&& w.in_seat[t as int] == Some((g as u32, x as u32))
        }) by {
            assert(v.names(g, x));
            if g != at || x != e {
                assert(v.seat(g, x) == w.seat(g, x) || w.seat(g, x) is None);
            }
        }
    }
}

/// Letting every pin go moves nobody.
pub proof fn lemma_unpinned(v: RoomView)
    requires
        v.inv(),
    ensures
        v.unpinned().inv(),
{
    let w = v.unpinned();
    assert forall|g: int, e: int| w.names(g, e) implies (#[trigger] w.seat(g, e) matches Some(s) ==> {
        &&& s < w.in_seat.len()
        &&& w.in_seat[s as int] == Some((g as u32, e as u32))
    }) by {
        assert(v.names(g, e) && v.seat(g, e) == w.seat(g, e));
    }
}

/// The groups of a load and the seats they share.
#[derive(Debug)]
pub struct Room {
    pub groups: Vec<Group>,
    pub pool: Pool,
    /// How many experts have ever been seated.
    pub distinct: u64,
    pub tick: u64,
}

impl View for Room {
    type V = RoomView;

    open spec fn view(&self) -> RoomView {
        RoomView {
            in_seat: self.pool.in_seat@,
            pinned: self.pool.pinned@,
            last_used: self.pool.last_used@,
            seat_of: Seq::new(self.groups@.len(), |g: int| self.groups@[g].seat_of@),
            ever: Seq::new(self.groups@.len(), |g: int| self.groups@[g].ever@),
            distinct: self.distinct as nat,
            tick: self.tick as nat,
        }
    }
}

impl Room {
    pub open spec fn wf(&self) -> bool {
        &&& self.pool.wf()
        &&& forall|g: int| 0 <= g < self.groups@.len() ==> (#[trigger] self.groups@[g]).wf()
        &&& self@.inv()
    }

    /// Nothing but who sits where differs from `before`.
    pub open spec fn beside(&self, before: &Room) -> bool {
        &&& self.pool.slots == before.pool.slots
        &&& same_groups(self.groups@, before.groups@)
    }

    /// The least recently used seat no one has pinned this segment.
    pub fn evict(&self) -> (victim: Option<u32>)
        requires
            self.wf(),
        ensures
            victim == self@.victim(),
            victim matches Some(s) ==> s < self.pool.slots,
    {
        let mut best: Option<u32> = None;
        let mut s: u32 = 0;
        while s < self.pool.slots
            invariant
                self.wf(),
                s <= self.pool.slots,
                match best {
                    None => forall|t: int| 0 <= t < s ==> #[trigger] self.pool.pinned@[t],
                    Some(b) => {
                        &&& b < s
                        &&& !self.pool.pinned@[b as int]
                        &&& forall|t: int|
                            0 <= t < s && !self.pool.pinned@[t] ==> {
                                ||| self.pool.last_used@[b as int] < #[trigger] self.pool.last_used@[t]
                                ||| self.pool.last_used@[b as int] == self.pool.last_used@[t] && b
                                    <= t
                            }
                    },
                },
            decreases self.pool.slots - s,
        {
            if !self.pool.pinned[s as usize] {
                match best {
                    None => {
                        best = Some(s);
                    },
                    Some(b) => {
                        if self.pool.last_used[s as usize] < self.pool.last_used[b as usize] {
                            best = Some(s);
                        }
                    },
                }
            }
            s += 1;
        }
        proof {
            match best {
                Some(b) => {
                    assert(self@.coldest(b));
                    lemma_coldest(self@, b);
                },
                None => {
                    assert forall|t: u32| !self@.coldest(t) by {
                        if t < self.pool.slots {
                            assert(self.pool.pinned@[t as int]);
                        }
                    }
                },
            }
        }
        best
    }

    /// `seat` is used now.
    pub fn use_seat(&mut self, seat: u32)
        requires
            old(self).wf(),
            seat < old(self).pool.slots,
            old(self).tick < u64::MAX,
        ensures
            final(self).wf(),
            final(self).beside(old(self)),
            final(self)@ == old(self)@.used(seat),
    {
        self.pool.last_used.set(seat as usize, self.tick);
        self.tick = self.tick + 1;
        proof {
            assert(self@ =~= old(self)@.used(seat));
            lemma_touch(old(self)@, seat);
        }
    }

    /// `seat` is used now, and not given away before the segment is over.
    pub fn touch(&mut self, seat: u32)
        requires
            old(self).wf(),
            seat < old(self).pool.slots,
            old(self).tick < u64::MAX,
        ensures
            final(self).wf(),
            final(self).beside(old(self)),
            final(self)@ == old(self)@.touch(seat),
    {
        self.pool.last_used.set(seat as usize, self.tick);
        self.tick = self.tick + 1;
        self.pool.pinned.set(seat as usize, true);
        proof {
            assert(self@ =~= old(self)@.touch(seat));
            lemma_touch(old(self)@, seat);
        }
    }

    /// Give `expert` of group `at` a seat, evicting whoever held it. The
    /// caller issues the copy.
    pub fn place(&mut self, at: usize, expert: u32) -> (seat: Option<u32>)
        requires
            old(self).wf(),
            old(self)@.names(at as int, expert as int),
            old(self)@.seat(at as int, expert as int) is None,
            old(self).tick < u64::MAX,
        ensures
            final(self).wf(),
            final(self).beside(old(self)),
            seat == old(self)@.victim(),
            final(self)@ == old(self)@.place(at as int, expert),
            seat matches Some(s) ==> s < final(self).pool.slots,
    {
        let ghost v = self@;
        let seat: u32 = match self.evict() {
            Some(seat) => seat,
            None => {
                return None;
            },
        };
        proof {
            lemma_place(v, at as int, expert);
            assert(v.coldest(seat));
            assert forall|g: int| 0 <= g < v.ever.len() implies (#[trigger] v.ever[g]).len() <= u32::MAX by {
                assert(v.seat_of[g].len() <= u32::MAX);
            }
            lemma_seen(v.ever, at as int, expert as int);
        }
        if let Some((group, held)) = self.pool.in_seat[seat as usize] {
            assert(v.names(group as int, held as int));
            self.groups[group as usize].seat_of.set(held as usize, None);
        }
        self.pool.in_seat.set(seat as usize, None);
        assert(self@ =~~= v.emptied(seat));
        self.pool.in_seat.set(seat as usize, Some((at as u32, expert)));
        self.groups[at].seat_of.set(expert as usize, Some(seat));
        if !self.groups[at].ever[expert as usize] {
            self.groups[at].ever.set(expert as usize, true);
            self.distinct = self.distinct + 1;
        }
        proof {
            let mid = v.emptied(seat);
            assert(mid.ever[at as int][expert as int] ==> mid.ever[at as int].update(
                expert as int,
                true,
            ) =~= mid.ever[at as int]);
            assert(self@ =~~= mid.sat(at as int, seat, expert));
        }
        self.pool.last_used.set(seat as usize, self.tick);
        self.tick = self.tick + 1;
        self.pool.pinned.set(seat as usize, true);
        assert(self@ =~= v.place(at as int, expert));
        Some(seat)
    }

    /// Nothing on the device reads a seat any more: every pin is let go.
    pub fn unpin(&mut self)
        requires
            old(self).wf(),
        ensures
            final(self).wf(),
            final(self).beside(old(self)),
            final(self)@ == old(self)@.unpinned(),
    {
        let mut pinned: Vec<bool> = Vec::new();
        let mut s: u32 = 0;
        while s < self.pool.slots
            invariant
                s <= self.pool.slots,
                pinned@ == Seq::new(s as nat, |s: int| false),
            decreases self.pool.slots - s,
        {
            pinned.push(false);
            s += 1;
            assert(pinned@ =~= Seq::new(s as nat, |s: int| false));
        }
        self.pool.pinned = pinned;
        proof {
            assert(self@ =~= old(self)@.unpinned());
            lemma_unpinned(old(self)@);
        }
    }
}

} // verus!
