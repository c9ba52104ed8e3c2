//! The shared LRU pool, one seat to an expert of any layer.

use vstd::prelude::*;

verus! {

/// The link of a seat that has no neighbour, and the end of an empty list.
pub const NONE: u32 = u32::MAX;

/// What keeps a seat from being taken, and who lets it go.
#[derive(Clone, Copy, Debug, PartialEq, Eq, Structural)]
pub enum Hold {
    /// Nothing: the LRU may hand it out.
    Free,
    /// A matmul of the segment just cut reads it; the next cut releases it.
    Segment,
    /// This fire borrowed it for its prefill ring; the fire's end returns it.
    Fire,
    /// A copy is landing in it; the join that takes the copy releases it.
    Inflight,
}

/// `list` with the one occurrence of `seat` taken out, if there is one.
pub open spec fn without(list: Seq<u32>, seat: u32) -> Seq<u32> {
    if list.contains(seat) {
        list.remove(list.index_of(seat))
    } else {
        list
    }
}

/// The first seat of `list` that nothing holds.
pub open spec fn first_unheld(list: Seq<u32>, holds: Seq<Hold>) -> Option<u32>
    decreases list.len(),
{
    if list.len() == 0 {
        None
    } else if holds[list[0] as int] == Hold::Free {
        Some(list[0])
    } else {
        first_unheld(list.drop_first(), holds)
    }
}

/// How many seats somebody sits in.
pub open spec fn seated(in_seat: Seq<Option<(u32, u32)>>) -> nat
    decreases in_seat.len(),
{
    if in_seat.len() == 0 {
        0
    } else {
        seated(in_seat.drop_last()) + if in_seat.last() is Some { 1nat } else { 0nat }
    }
}

/// What a pool holds: the seats in use from the least to the most recently
/// used, the stack of seats never used, who holds each seat, and who sits
/// in it.
#[verifier::ext_equal]
pub struct PoolView {
    pub list: Seq<u32>,
    pub free: Seq<u32>,
    pub holds: Seq<Hold>,
    pub in_seat: Seq<Option<(u32, u32)>>,
}

impl PoolView {
    /// A pool of `slots` seats that nothing has used yet.
    pub open spec fn empty(slots: nat) -> PoolView {
        PoolView {
            list: Seq::empty(),
            free: Seq::new(slots, |i: int| (slots - 1 - i) as u32),
            holds: Seq::new(slots, |i: int| Hold::Free),
            in_seat: Seq::new(slots, |i: int| None),
        }
    }

    pub open spec fn unlink(self, seat: u32) -> PoolView {
        PoolView { list: without(self.list, seat), ..self }
    }

    pub open spec fn push_back(self, seat: u32) -> PoolView {
        PoolView { list: self.list.push(seat), ..self }
    }

    pub open spec fn push_front(self, seat: u32) -> PoolView {
        PoolView { list: seq![seat] + self.list, ..self }
    }

    pub open spec fn bump(self, seat: u32) -> PoolView {
        self.unlink(seat).push_back(seat)
    }

    /// The seat the next miss takes, if any can be taken.
    pub open spec fn pick(self) -> Option<u32> {
        if self.free.len() > 0 {
            Some(self.free.last())
        } else {
            first_unheld(self.list, self.holds)
        }
    }

    /// The pool once that seat has been picked: off the stack, if it came
    /// from there.
    pub open spec fn picked(self) -> PoolView {
        if self.free.len() > 0 {
            PoolView { free: self.free.drop_last(), ..self }
        } else {
            self
        }
    }

    pub open spec fn hold(self, seat: u32, hold: Hold) -> PoolView {
        PoolView { holds: self.holds.update(seat as int, hold), ..self }
    }

    pub open spec fn release(self, hold: Hold) -> PoolView {
        PoolView {
            holds: Seq::new(
                self.holds.len(),
                |i: int| if self.holds[i] == hold { Hold::Free } else { self.holds[i] },
            ),
            ..self
        }
    }

    pub open spec fn sit(self, seat: u32, who: Option<(u32, u32)>) -> PoolView {
        PoolView { in_seat: self.in_seat.update(seat as int, who), ..self }
    }

    pub open spec fn strip(self, seat: u32) -> PoolView {
        let p = self.sit(seat, None).hold(seat, Hold::Free).unlink(seat);
        PoolView { free: p.free.push(seat), ..p }
    }
}

/// The shared LRU pool: one seat holds one `(group, expert)` of any group.
/// The seats in use sit on a doubly linked list ordered by recency, least
/// recently used at the head, so a victim is the head rather than a scan
/// over every seat. Seats never used yet wait on `free` and go first.
pub struct Pool {
    pub slots: u32,
    pub in_seat: Vec<Option<(u32, u32)>>,
    pub holds: Vec<Hold>,
    pub prev: Vec<u32>,
    pub next: Vec<u32>,
    pub linked: Vec<bool>,
    pub head: u32,
    pub tail: u32,
    pub free: Vec<u32>,
    pub order: Ghost<Seq<u32>>,
}

impl View for Pool {
    type V = PoolView;

    open spec fn view(&self) -> PoolView {
        PoolView {
            list: self.order@,
            free: self.free@,
            holds: self.holds@,
            in_seat: self.in_seat@,
        }
    }
}

/// The neighbour of position `i` of `list` that stands at position `j`.
pub open spec fn link(list: Seq<u32>, j: int) -> u32 {
    if 0 <= j < list.len() {
        list[j]
    } else {
        NONE
    }
}

impl Pool {
    /// The links spell out the list, and every number names a seat.
    pub open spec fn wf(&self) -> bool {
        &&& self.in_seat@.len() == self.slots
        &&& self.holds@.len() == self.slots
        &&& self.prev@.len() == self.slots
        &&& self.next@.len() == self.slots
        &&& self.linked@.len() == self.slots
        &&& self.order@.no_duplicates()
        &&& forall|i: int| 0 <= i < self.order@.len() ==> #[trigger] self.order@[i] < self.slots
        &&& forall|i: int| 0 <= i < self.free@.len() ==> #[trigger] self.free@[i] < self.slots
        &&& self.head == link(self.order@, 0)
        &&& self.tail == link(self.order@, self.order@.len() - 1)
        &&& forall|i: int|
            0 <= i < self.order@.len() ==> {
                &&& self.prev@[#[trigger] self.order@[i] as int] == link(self.order@, i - 1)
                &&& self.next@[self.order@[i] as int] == link(self.order@, i + 1)
                &&& self.linked@[self.order@[i] as int]
            }
        &&& forall|s: int|
            0 <= s < self.slots && !(#[trigger] self.order@.contains(s as u32)) ==> {
                &&& self.prev@[s] == NONE
                &&& self.next@[s] == NONE
                &&& !self.linked@[s]
            }
    }

    /// A pool of `slots` empty seats, handed out from seat 0 up.
    pub fn new(slots: u32) -> (pool: Pool)
        ensures
            pool.wf(),
            pool.slots == slots,
            pool@ == PoolView::empty(slots as nat),
    {
        let mut free: Vec<u32> = Vec::new();
        let mut left: u32 = slots;
        while left > 0
            invariant
                left <= slots,
                free@.len() == slots - left,
                forall|i: int| 0 <= i < free@.len() ==> free@[i] == slots - 1 - i,
            decreases left,
        {
            left -= 1;
            free.push(left);
        }
        let pool = Pool {
            slots,
            in_seat: vec![None; slots as usize],
            holds: vec![Hold::Free; slots as usize],
            prev: vec![NONE; slots as usize],
            next: vec![NONE; slots as usize],
            linked: vec![false; slots as usize],
            head: NONE,
            tail: NONE,
            free,
            order: Ghost(Seq::empty()),
        };
        assert(pool@ =~= PoolView::empty(slots as nat));
        pool
    }

    /// Take `seat` off the list, if it is on it.
    pub fn unlink(&mut self, seat: u32)
        requires
            old(self).wf(),
            seat < old(self).slots,
        ensures
            final(self).wf(),
            final(self).slots == old(self).slots,
            final(self)@ == old(self)@.unlink(seat),
    {
        let s: usize = seat as usize;
        assert(self.order@.contains(s as u32) == self.order@.contains(seat));
        if !self.linked[s] {
            return;
        }
        let ghost list = self.order@;
        let ghost at = list.index_of(seat);
        assert(list.contains(seat));
        assert(list[at] == seat);
        let p: u32 = self.prev[s];
        let n: u32 = self.next[s];
        if p == NONE {
            self.head = n;
        } else {
            self.next.set(p as usize, n);
        }
        if n == NONE {
            self.tail = p;
        } else {
            self.prev.set(n as usize, p);
        }
        self.prev.set(s, NONE);
        self.next.set(s, NONE);
        self.linked.set(s, false);
        self.order = Ghost(list.remove(at));
        proof {
            lemma_without(list, seat);
            let now = self.order@;
            assert(forall|i: int| 0 <= i < now.len() ==> #[trigger] now[i] == list[if i < at { i } else { i + 1 }]);
            assert(p == link(list, at - 1) && n == link(list, at + 1));
            assert forall|i: int| 0 <= i < now.len() implies {
                &&& self.prev@[#[trigger] now[i] as int] == link(now, i - 1)
                &&& self.next@[now[i] as int] == link(now, i + 1)
                &&& self.linked@[now[i] as int]
            } by {
                let j = if i < at { i } else { i + 1 };
                let q = list[j];
                assert(q != seat);
                assert(old(self).prev@[q as int] == link(list, j - 1));
                assert(old(self).next@[q as int] == link(list, j + 1));
                if j == at - 1 {
                    assert(q == p);
                    assert(self.next@[q as int] == n);
                    assert(self.prev@[q as int] == old(self).prev@[q as int]);
                } else if j == at + 1 {
                    assert(q == n);
                    assert(self.prev@[q as int] == p);
                    assert(self.next@[q as int] == old(self).next@[q as int]);
                } else {
                    assert(q != p && q != n);
                    assert(self.prev@[q as int] == old(self).prev@[q as int]);
                    assert(self.next@[q as int] == old(self).next@[q as int]);
                }
            }
            assert forall|q: int| 0 <= q < self.slots && !(#[trigger] now.contains(q as u32)) implies {
                &&& self.prev@[q] == NONE
                &&& self.next@[q] == NONE
                &&& !self.linked@[q]
            } by {
                if q != seat {
                    assert(!list.contains(q as u32));
                    assert(p != NONE ==> list.contains(p));
                    assert(n != NONE ==> list.contains(n));
                }
            }
        }
    }

    /// Put `seat` at the end of the list: the most recently used.
    pub fn push_back(&mut self, seat: u32)
        requires
            old(self).wf(),
            seat < old(self).slots,
            !old(self)@.list.contains(seat),
        ensures
            final(self).wf(),
            final(self).slots == old(self).slots,
            final(self)@ == old(self)@.push_back(seat),
    {
        let s: usize = seat as usize;
        let ghost list = self.order@;
        self.prev.set(s, self.tail);
        self.next.set(s, NONE);
        if self.tail == NONE {
            self.head = seat;
        } else {
            self.next.set(self.tail as usize, seat);
        }
        self.tail = seat;
        self.linked.set(s, true);
        self.order = Ghost(list.push(seat));
        proof {
            let now = self.order@;
            assert forall|i: int| 0 <= i < now.len() implies {
                &&& self.prev@[#[trigger] now[i] as int] == link(now, i - 1)
                &&& self.next@[now[i] as int] == link(now, i + 1)
                &&& self.linked@[now[i] as int]
            } by {
                if i < list.len() {
                    assert(now[i] == list[i]);
                    assert(list.contains(list[i]));
                    assert(list[i] == list[list.len() - 1] ==> i == list.len() - 1);
                }
            }
            assert forall|q: int| 0 <= q < self.slots && !(#[trigger] now.contains(q as u32)) implies {
                &&& self.prev@[q] == NONE
                &&& self.next@[q] == NONE
                &&& !self.linked@[q]
            } by {
                assert(now[list.len() as int] == seat);
                assert(!list.contains(q as u32)) by {
                    if list.contains(q as u32) {
                        assert(now[list.index_of(q as u32)] == q as u32);
                    }
                }
                if list.len() > 0 {
                    assert(list.contains(list[list.len() - 1]));
                }
            }
        }
    }

    /// Least recently used, now: the next miss takes it.
    pub fn push_front(&mut self, seat: u32)
        requires
            old(self).wf(),
            seat < old(self).slots,
            !old(self)@.list.contains(seat),
        ensures
            final(self).wf(),
            final(self).slots == old(self).slots,
            final(self)@ == old(self)@.push_front(seat),
    {
        let s: usize = seat as usize;
        let ghost list = self.order@;
        self.next.set(s, self.head);
        self.prev.set(s, NONE);
        if self.head == NONE {
            self.tail = seat;
        } else {
            self.prev.set(self.head as usize, seat);
        }
        self.head = seat;
        self.linked.set(s, true);
        self.order = Ghost(seq![seat] + list);
        proof {
            let now = self.order@;
            assert forall|i: int| 0 <= i < now.len() implies {
                &&& self.prev@[#[trigger] now[i] as int] == link(now, i - 1)
                &&& self.next@[now[i] as int] == link(now, i + 1)
                &&& self.linked@[now[i] as int]
            } by {
                if i > 0 {
                    assert(now[i] == list[i - 1]);
                    assert(list.contains(list[i - 1]));
                    assert(list[i - 1] == list[0] ==> i == 1);
                }
            }
            assert forall|q: int| 0 <= q < self.slots && !(#[trigger] now.contains(q as u32)) implies {
                &&& self.prev@[q] == NONE
                &&& self.next@[q] == NONE
                &&& !self.linked@[q]
            } by {
                assert(now[0] == seat);
                assert(!list.contains(q as u32)) by {
                    if list.contains(q as u32) {
                        assert(now[list.index_of(q as u32) + 1] == q as u32);
                    }
                }
                if list.len() > 0 {
                    assert(list.contains(list[0]));
                }
            }
        }
    }

    /// Most recently used, now.
    pub fn bump(&mut self, seat: u32)
        requires
            old(self).wf(),
            seat < old(self).slots,
        ensures
            final(self).wf(),
            final(self).slots == old(self).slots,
            final(self)@ == old(self)@.bump(seat),
    {
        proof {
            lemma_without(self.order@, seat);
        }
        self.unlink(seat);
        self.push_back(seat);
    }

    /// A seat to take: one never used, else the least recently used seat
    /// nothing holds.
    pub fn victim(&mut self) -> (victim: Option<u32>)
        requires
            old(self).wf(),
        ensures
            final(self).wf(),
            final(self).slots == old(self).slots,
            victim == old(self)@.pick(),
            final(self)@ == old(self)@.picked(),
            victim matches Some(seat) ==> seat < final(self).slots,
    {
        if let Some(seat) = self.free.pop() {
            return Some(seat);
        }
        let ghost list = self.order@;
        let mut at: u32 = self.head;
        let ghost mut i: int = 0;
        assert(list.skip(0) =~= list);
        while at != NONE
            invariant
                self.wf(),
                self.order@ == list,
                self@ == old(self)@,
                self.slots == old(self).slots,
                self.free@.len() == 0,
                0 <= i <= list.len(),
                at == link(list, i),
                first_unheld(list, self.holds@) == first_unheld(list.skip(i), self.holds@),
            decreases list.len() - i,
        {
            assert(list[i] < self.slots);
            assert(list.skip(i)[0] == list[i]);
            if self.holds[at as usize] == Hold::Free {
                return Some(at);
            }
            assert(list.skip(i).drop_first() =~= list.skip(i + 1));
            assert(self.next@[list[i] as int] == link(list, i + 1));
            at = self.next[at as usize];
            proof {
                i = i + 1;
            }
        }
        None
    }

    pub fn hold(&mut self, seat: u32, hold: Hold)
        requires
            old(self).wf(),
            seat < old(self).slots,
        ensures
            final(self).wf(),
            final(self).slots == old(self).slots,
            final(self)@ == old(self)@.hold(seat, hold),
    {
        self.holds.set(seat as usize, hold);
    }

    /// Let go of every seat held this way, and only those: a segment's pins
    /// fall at the next cut without dropping the fire's borrowed ring.
    pub fn release(&mut self, hold: Hold)
        requires
            old(self).wf(),
        ensures
            final(self).wf(),
            final(self).slots == old(self).slots,
            final(self)@ == old(self)@.release(hold),
    {
        let n: usize = self.holds.len();
        let mut s: usize = 0;
        while s < n
            invariant
                self.wf(),
                self.slots == old(self).slots,
                n == self.holds@.len() == old(self).holds@.len(),
                s <= n,
                self.order == old(self).order,
                self.free == old(self).free,
                self.in_seat == old(self).in_seat,
                forall|i: int|
                    0 <= i < s ==> self.holds@[i] == (if old(self).holds@[i] == hold {
                        Hold::Free
                    } else {
                        old(self).holds@[i]
                    }),
                forall|i: int| s <= i < n ==> self.holds@[i] == old(self).holds@[i],
            decreases n - s,
        {
            if self.holds[s] == hold {
                self.holds.set(s, Hold::Free);
            }
            s += 1;
        }
        assert(self@ =~= old(self)@.release(hold));
    }

    /// Say who sits in `seat`.
    pub fn sit(&mut self, seat: u32, who: Option<(u32, u32)>)
        requires
            old(self).wf(),
            seat < old(self).slots,
        ensures
            final(self).wf(),
            final(self).slots == old(self).slots,
            final(self)@ == old(self)@.sit(seat, who),
    {
        self.in_seat.set(seat as usize, who);
    }

    /// Take a seat back for reuse: nothing sits in it and nothing holds it.
    pub fn strip(&mut self, seat: u32)
        requires
            old(self).wf(),
            seat < old(self).slots,
        ensures
            final(self).wf(),
            final(self).slots == old(self).slots,
            final(self)@ == old(self)@.strip(seat),
    {
        self.sit(seat, None);
        self.hold(seat, Hold::Free);
        self.unlink(seat);
        self.free.push(seat);
        assert(self@ =~= old(self)@.strip(seat));
    }

    /// Empty: every seat free and unheld, the list as it was at open.
    pub fn clear(&mut self)
        ensures
            final(self).wf(),
            final(self).slots == old(self).slots,
            final(self)@ == PoolView::empty(old(self).slots as nat),
    {
        *self = Pool::new(self.slots);
    }

    /// How many seats somebody sits in.
    pub fn resident(&self) -> (resident: u64)
        requires
            self.wf(),
        ensures
            resident == seated(self@.in_seat),
    {
        count_seated(&self.in_seat)
    }
}

/// How many seats somebody sits in.
pub fn count_seated(in_seat: &Vec<Option<(u32, u32)>>) -> (resident: u64)
    ensures
        resident == seated(in_seat@),
{
    let mut resident: u64 = 0;
    let mut s: usize = 0;
    let n: usize = in_seat.len();
    while s < n
        invariant
            n == in_seat@.len(),
            s <= n,
            resident == seated(in_seat@.take(s as int)),
            resident <= s,
        decreases n - s,
    {
        assert(in_seat@.take(s + 1).drop_last() =~= in_seat@.take(s as int));
        if in_seat[s].is_some() {
            resident += 1;
        }
        s += 1;
    }
    assert(in_seat@.take(n as int) =~= in_seat@);
    resident
}

/// Taking a seat out of a list without repeats: the rest stays, in order.
pub proof fn lemma_without(list: Seq<u32>, seat: u32)
    requires
        list.no_duplicates(),
    ensures
        without(list, seat).no_duplicates(),
        !without(list, seat).contains(seat),
        forall|q: u32| q != seat ==> (#[trigger] without(list, seat).contains(q) <==> list.contains(q)),
        list.contains(seat) ==> without(list, seat).len() == list.len() - 1,
{
    if list.contains(seat) {
        let at = list.index_of(seat);
        let now = list.remove(at);
        assert forall|q: u32| q != seat implies (#[trigger] now.contains(q) <==> list.contains(q)) by {
            if list.contains(q) {
                let j = list.index_of(q);
                assert(now[if j < at { j } else { j - 1 }] == q);
            }
            if now.contains(q) {
                let j = now.index_of(q);
                assert(list[if j < at { j } else { j + 1 }] == q);
            }
        }
        if now.contains(seat) {
            let j = now.index_of(seat);
            assert(list[if j < at { j } else { j + 1 }] == seat);
        }
    }
}

/// The seat a scan of the list finds is the least recently used of those
/// nothing holds; it finds none when every seat is held.
pub proof fn lemma_first_unheld(list: Seq<u32>, holds: Seq<Hold>)
    ensures
        match first_unheld(list, holds) {
            Some(seat) => exists|i: int|
                0 <= i < list.len() && #[trigger] list[i] == seat && holds[seat as int]
                    == Hold::Free && forall|j: int|
                    0 <= j < i ==> holds[#[trigger] list[j] as int] != Hold::Free,
            None => forall|j: int| 0 <= j < list.len() ==> holds[#[trigger] list[j] as int] != Hold::Free,
        },
    decreases list.len(),
{
    if list.len() > 0 {
        if holds[list[0] as int] == Hold::Free {
            assert(list[0] == first_unheld(list, holds)->0);
        } else {
            let rest = list.drop_first();
            lemma_first_unheld(rest, holds);
            assert(forall|j: int| 0 < j < list.len() ==> list[j] == rest[j - 1]);
            match first_unheld(rest, holds) {
                Some(seat) => {
                    let i = choose|i: int|
                        0 <= i < rest.len() && #[trigger] rest[i] == seat && holds[seat as int]
                            == Hold::Free && forall|j: int|
                            0 <= j < i ==> holds[#[trigger] rest[j] as int] != Hold::Free;
                    assert(list[i + 1] == seat);
                    assert forall|j: int| 0 <= j < i + 1 implies holds[#[trigger] list[j] as int]
                        != Hold::Free by {
                        if j > 0 {
                            assert(rest[j - 1] == list[j]);
                        }
                    }
                },
                None => {
                    assert forall|j: int| 0 <= j < list.len() implies holds[#[trigger] list[j] as int]
                        != Hold::Free by {
                        if j > 0 {
                            assert(rest[j - 1] == list[j]);
                        }
                    }
                },
            }
        }
    }
}

/// What a bump does to the list: the seat is its last, the others stay.
pub proof fn lemma_bump(list: Seq<u32>, seat: u32)
    requires
        list.no_duplicates(),
    ensures
        without(list, seat).push(seat).no_duplicates(),
        forall|q: u32|
            #[trigger] without(list, seat).push(seat).contains(q) <==> q == seat || list.contains(q),
{
    lemma_without(list, seat);
    let kept = without(list, seat);
    let now = kept.push(seat);
    assert(now[kept.len() as int] == seat);
    assert forall|q: u32| #[trigger] now.contains(q) <==> q == seat || list.contains(q) by {
        if kept.contains(q) {
            assert(now[kept.index_of(q)] == q);
        }
        if now.contains(q) && q != seat {
            assert(kept[now.index_of(q)] == q);
        }
    }
}

} // verus!
