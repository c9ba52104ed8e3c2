//! Who sits where: the routed groups and the pool their experts share.

use vstd::prelude::*;

use crate::experts::pool::{
    lemma_bump, lemma_first_unheld, lemma_without, without, Hold, Pool, PoolView,
};

verus! {

/// Where one band of a group lies: its seats on the device, its experts in
/// the source, and how far apart both are.
#[derive(Debug)]
pub struct Band {
    pub name: String,
    pub at: u64,
    pub from: u64,
    pub stride: u64,
}

/// One router's mixture: its bands and where each of its experts sits in
/// the shared pool, if anywhere.
#[derive(Debug)]
pub struct Group {
    pub experts: u32,
    pub bands: Vec<Band>,
    pub seat_of: Vec<Option<u32>>,
    pub ever: Vec<bool>,
}

impl Group {
    pub open spec fn wf(&self) -> bool {
        &&& self.seat_of@.len() == self.experts
        &&& self.ever@.len() == self.experts
        &&& self.bands@.len() > 0
    }
}

/// How many of a row are marked.
pub open spec fn marked(row: Seq<bool>) -> nat
    decreases row.len(),
{
    if row.len() == 0 {
        0
    } else {
        marked(row.drop_last()) + if row.last() { 1nat } else { 0nat }
    }
}

/// How many experts of all groups ever sat.
pub open spec fn seen(ever: Seq<Seq<bool>>) -> nat
    decreases ever.len(),
{
    if ever.len() == 0 {
        0
    } else {
        seen(ever.drop_last()) + marked(ever.last())
    }
}

/// Where every expert of every group sits, and who sits in every seat.
#[verifier::ext_equal]
pub struct SeatsView {
    pub pool: PoolView,
    pub seat_of: Seq<Seq<Option<u32>>>,
    pub ever: Seq<Seq<bool>>,
    pub distinct: nat,
}

impl SeatsView {
    /// Where `expert` of group `at` sits.
    pub open spec fn seat(self, at: int, expert: int) -> Option<u32> {
        self.seat_of[at][expert]
    }

    pub open spec fn names(self, at: int, expert: int) -> bool {
        0 <= at < self.seat_of.len() && 0 <= expert < self.seat_of[at].len()
    }

    /// Who sits where is told the same by the seats and by the experts, and
    /// whoever ever sat is counted.
    pub open spec fn paired(self) -> bool {
        let p = self.pool;
        let slots = p.holds.len();
        &&& p.in_seat.len() == slots
        &&& self.ever.len() == self.seat_of.len()
        &&& slots <= u32::MAX
        &&& self.seat_of.len() <= u32::MAX
        &&& forall|g: int|
            0 <= g < self.seat_of.len() ==> {
                &&& (#[trigger] self.seat_of[g]).len() <= u32::MAX
                &&& self.ever[g].len() == self.seat_of[g].len()
            }
        &&& self.distinct == seen(self.ever)
        &&& forall|s: int|
            0 <= s < slots ==> (#[trigger] p.in_seat[s] matches Some((g, e)) ==> {
                &&& self.names(g as int, e as int)
                &&& self.seat(g as int, e as int) == Some(s as u32)
            })
        &&& forall|g: int, e: int|
            self.names(g, e) ==> (#[trigger] self.seat(g, e) matches Some(s) ==> {
                &&& s < slots
                &&& p.in_seat[s as int] == Some((g as u32, e as u32))
            })
    }

    /// An expert sits in one seat, a seat holds one expert, and every seat
    /// is either waiting unused or on the list, once.
    pub open spec fn inv(self) -> bool {
        let p = self.pool;
        let slots = p.holds.len();
        &&& self.paired()
        &&& p.list.no_duplicates()
        &&& p.free.no_duplicates()
        &&& forall|s: u32| #![trigger p.list.contains(s)] p.list.contains(s) ==> s < slots
        &&& forall|s: u32|
            #![trigger p.free.contains(s)]
            p.free.contains(s) ==> {
                &&& s < slots
                &&& !p.list.contains(s)
                &&& p.in_seat[s as int] is None
                &&& p.holds[s as int] == Hold::Free
            }
        &&& forall|s: u32|
            #![trigger p.list.contains(s)]
            #![trigger p.free.contains(s)]
            s < slots ==> p.list.contains(s) || p.free.contains(s)
    }

    /// `seat` handed to a new expert: nobody sits in it, and it is the most
    /// recently used.
    pub open spec fn emptied(self, seat: u32) -> SeatsView {
        let pool = self.pool.picked().sit(seat, None).bump(seat);
        match self.pool.in_seat[seat as int] {
            Some((g, e)) => SeatsView {
                pool,
                seat_of: self.seat_of.update(
                    g as int,
                    self.seat_of[g as int].update(e as int, None),
                ),
                ..self
            },
            None => SeatsView { pool, ..self },
        }
    }

    /// The seats once the next seat that can be taken has been.
    pub open spec fn take(self) -> SeatsView {
        match self.pool.pick() {
            Some(seat) => self.emptied(seat),
            None => self,
        }
    }

    /// `expert` of group `at` resident in `seat`; the seat it held before,
    /// if another, goes back to the pool empty.
    pub open spec fn assign(self, at: int, seat: u32, expert: u32) -> SeatsView {
        let pool = match self.seat(at, expert as int) {
            Some(was) => if was != seat { self.pool.strip(was) } else { self.pool },
            None => self.pool,
        };
        SeatsView {
            pool: pool.sit(seat, Some((at as u32, expert))),
            seat_of: self.seat_of.update(at, self.seat_of[at].update(expert as int, Some(seat))),
            ever: self.ever.update(at, self.ever[at].update(expert as int, true)),
            distinct: if self.ever[at][expert as int] { self.distinct } else { self.distinct + 1 },
        }
    }

    /// Nobody else sits in `seat`, so `expert` of group `at` may be said to.
    pub open spec fn can_assign(self, at: int, seat: u32, expert: u32) -> bool {
        &&& self.names(at, expert as int)
        &&& seat < self.pool.holds.len()
        &&& self.pool.in_seat[seat as int] is None || self.pool.in_seat[seat as int] == Some(
            (at as u32, expert),
        )
    }

    pub open spec fn with_pool(self, pool: PoolView) -> SeatsView {
        SeatsView { pool, ..self }
    }
}

/// The groups of a load and the pool their experts share.
pub struct Seats {
    pub groups: Vec<Group>,
    pub pool: Pool,
    /// How many experts have ever been seated.
    pub distinct: u64,
}

impl View for Seats {
    type V = SeatsView;

    open spec fn view(&self) -> SeatsView {
        SeatsView {
            pool: self.pool@,
            seat_of: Seq::new(self.groups@.len(), |g: int| self.groups@[g].seat_of@),
            ever: Seq::new(self.groups@.len(), |g: int| self.groups@[g].ever@),
            distinct: self.distinct as nat,
        }
    }
}

/// The same groups, seats aside.
pub open spec fn same_groups(a: Seq<Group>, b: Seq<Group>) -> bool {
    &&& a.len() == b.len()
    &&& forall|g: int|
        0 <= g < a.len() ==> {
            &&& (#[trigger] a[g]).experts == b[g].experts
            &&& a[g].bands == b[g].bands
        }
}

impl Seats {
    /// The pool's list and the groups' rows are laid as they should be.
    pub open spec fn laid(&self) -> bool {
        &&& self.pool.wf()
        &&& forall|g: int| 0 <= g < self.groups@.len() ==> (#[trigger] self.groups@[g]).wf()
    }

    pub open spec fn wf(&self) -> bool {
        &&& self.laid()
        &&& self@.inv()
    }

    /// Nothing but who sits where differs from `before`.
    pub open spec fn beside(&self, before: &Seats) -> bool {
        &&& self.pool.slots == before.pool.slots
        &&& same_groups(self.groups@, before.groups@)
    }

    /// A seat for a new expert: the LRU's victim, emptied of whoever sat
    /// there. The caller holds it and says what lands in it.
    pub fn take(&mut self) -> (seat: Option<u32>)
        requires
            old(self).wf(),
        ensures
            final(self).wf(),
            final(self).beside(old(self)),
            seat == old(self)@.pool.pick(),
            final(self)@ == old(self)@.take(),
            seat matches Some(s) ==> s < final(self).pool.slots,
    {
        let ghost before = self@;
        match self.pool.victim() {
            None => {
                assert(self@ =~= before);
                None
            },
            Some(seat) => {
                if let Some((group, held)) = self.pool.in_seat[seat as usize] {
                    assert(before.seat(group as int, held as int) == Some(seat));
                    if self.groups[group as usize].seat_of[held as usize] == Some(seat) {
                        self.groups[group as usize].seat_of.set(held as usize, None);
                    }
                }
                self.pool.sit(seat, None);
                self.pool.bump(seat);
                proof {
                    assert(self@ =~= before.take());
                    lemma_take(before);
                }
                Some(seat)
            },
        }
    }

    /// Say that `expert` of group `at` is resident in `seat`, its bytes
    /// already there. An expert sits in one seat: the one it held before,
    /// if any, goes back to the pool empty.
    pub fn assign(&mut self, at: usize, seat: u32, expert: u32)
        requires
            old(self).laid(),
            old(self)@.paired(),
            old(self)@.can_assign(at as int, seat, expert),
        ensures
            final(self).laid(),
            final(self)@.paired(),
            old(self).wf() && old(self)@.pool.list.contains(seat) ==> final(self).wf(),
            final(self).beside(old(self)),
            final(self)@ == old(self)@.assign(at as int, seat, expert),
    {
        let ghost before = self@;
        proof {
            lemma_assign(before, at as int, seat, expert);
            lemma_seen(before.ever, at as int, expert as int);
        }
        let was: Option<u32> = self.groups[at].seat_of[expert as usize];
        assert(before.seat(at as int, expert as int) == was);
        self.groups[at].seat_of.set(expert as usize, Some(seat));
        if let Some(was) = was {
            if was != seat {
                self.pool.strip(was);
            }
        }
        self.pool.sit(seat, Some((at as u32, expert)));
        if !self.groups[at].ever[expert as usize] {
            self.groups[at].ever.set(expert as usize, true);
            self.distinct = self.distinct + 1;
        }
        proof {
            assert(before.ever[at as int][expert as int] ==> before.ever[at as int].update(
                expert as int,
                true,
            ) =~= before.ever[at as int]);
            assert(self@ =~~= before.assign(at as int, seat, expert));
        }
    }
}

/// A seat that can be taken is held by nothing.
pub proof fn lemma_pick(v: SeatsView)
    requires
        v.inv(),
    ensures
        v.pool.pick() matches Some(seat) ==> {
            &&& seat < v.pool.holds.len()
            &&& v.pool.holds[seat as int] == Hold::Free
            &&& v.pool.free.len() > 0 ==> v.pool.free.contains(seat)
            &&& v.pool.free.len() == 0 ==> v.pool.list.contains(seat)
        },
{
    if v.pool.free.len() > 0 {
        assert(v.pool.free.contains(v.pool.free.last()));
    } else {
        lemma_first_unheld(v.pool.list, v.pool.holds);
        if let Some(seat) = v.pool.pick() {
            assert(v.pool.list.contains(seat));
        }
    }
}

/// Taking a seat keeps every expert in one seat and every seat accounted for.
pub proof fn lemma_take(v: SeatsView)
    requires
        v.inv(),
    ensures
        v.take().inv(),
{
    lemma_pick(v);
    if let Some(seat) = v.pool.pick() {
        let w = v.take();
        let p = v.pool;
        let q = w.pool;
        lemma_bump(p.list, seat);
        assert(q.list == without(p.list, seat).push(seat));
        if p.free.len() > 0 {
            assert(q.free == p.free.drop_last());
            assert forall|s: u32| #[trigger] q.free.contains(s) <==> p.free.contains(s) && s != seat by {
                if p.free.contains(s) && s != seat {
                    assert(q.free[p.free.index_of(s)] == s);
                }
                if q.free.contains(s) {
                    let i = q.free.index_of(s);
                    assert(p.free[i] == s);
                    assert(p.free[p.free.len() - 1] == seat);
                }
            }
        } else {
            assert(q.free == p.free);
        }
        assert forall|g: int, e: int| w.names(g, e) implies (#[trigger] w.seat(g, e) matches Some(s) ==> {
            &&& s < q.holds.len()
            &&& q.in_seat[s as int] == Some((g as u32, e as u32))
        }) by {
            assert(v.names(g, e));
            assert(w.seat(g, e) is Some ==> v.seat(g, e) == w.seat(g, e));
        }
        assert forall|s: int| 0 <= s < q.holds.len() implies (#[trigger] q.in_seat[s] matches Some((g, e)) ==> {
            &&& w.names(g as int, e as int)
            &&& w.seat(g as int, e as int) == Some(s as u32)
        }) by {
            if s != seat {
                assert(q.in_seat[s] == p.in_seat[s]);
            }
        }
    }
}

/// Taking a seat in use back for reuse, nobody sitting in it.
pub proof fn lemma_strip(v: SeatsView, seat: u32)
    requires
        v.inv(),
        v.pool.list.contains(seat),
        v.pool.in_seat[seat as int] is None,
    ensures
        v.with_pool(v.pool.strip(seat)).inv(),
{
    let p = v.pool;
    let q = p.strip(seat);
    let w = v.with_pool(q);
    lemma_without(p.list, seat);
    assert(!p.free.contains(seat));
    lemma_pushed(p.free, seat);
    assert(q.in_seat =~= p.in_seat);
    assert forall|g: int, e: int| w.names(g, e) implies (#[trigger] w.seat(g, e) matches Some(s) ==> {
        &&& s < q.holds.len()
        &&& q.in_seat[s as int] == Some((g as u32, e as u32))
    }) by {
        assert(v.seat(g, e) == w.seat(g, e));
    }
}

/// A stack with one more on it.
pub proof fn lemma_pushed(stack: Seq<u32>, seat: u32)
    ensures
        forall|q: u32| #[trigger] stack.push(seat).contains(q) <==> q == seat || stack.contains(q),
        stack.no_duplicates() && !stack.contains(seat) ==> stack.push(seat).no_duplicates(),
{
    let now = stack.push(seat);
    assert(now[stack.len() as int] == seat);
    assert forall|q: u32| #[trigger] now.contains(q) <==> q == seat || stack.contains(q) by {
        if stack.contains(q) {
            assert(now[stack.index_of(q)] == q);
        }
        if now.contains(q) && q != seat {
            assert(stack[now.index_of(q)] == q);
        }
    }
}

proof fn lemma_marked(row: Seq<bool>, e: int)
    requires
        0 <= e < row.len(),
    ensures
        marked(row) <= row.len(),
        row[e] ==> row.update(e, true) == row,
        !row[e] ==> marked(row.update(e, true)) == marked(row) + 1 && marked(row) < row.len(),
    decreases row.len(),
{
    let w = row.update(e, true);
    if e == row.len() - 1 {
        assert(w.drop_last() =~= row.drop_last());
        if row.len() > 1 {
            lemma_marked(row.drop_last(), 0);
        } else {
            assert(marked(row.drop_last()) == 0);
        }
    } else {
        lemma_marked(row.drop_last(), e);
        assert(w.drop_last() =~= row.drop_last().update(e, true));
    }
    if row[e] {
        assert(w =~= row);
    }
}

/// Whoever sits for the first time counts as one more, and there is room to
/// count everyone.
pub proof fn lemma_seen(ever: Seq<Seq<bool>>, at: int, e: int)
    requires
        0 <= at < ever.len() <= u32::MAX,
        0 <= e < ever[at].len(),
        forall|g: int| 0 <= g < ever.len() ==> (#[trigger] ever[g]).len() <= u32::MAX,
    ensures
        seen(ever.update(at, ever[at].update(e, true))) == seen(ever) + if ever[at][e] {
            0nat
        } else {
            1nat
        },
        seen(ever) <= ever.len() * u32::MAX,
        !ever[at][e] ==> seen(ever) < u64::MAX,
    decreases ever.len(),
{
    let w = ever.update(at, ever[at].update(e, true));
    let head = ever.drop_last();
    assert forall|g: int| 0 <= g < head.len() implies (#[trigger] head[g]).len() <= u32::MAX by {
        assert(head[g] == ever[g]);
    }
    lemma_seen_at_most(head);
    assert(ever[ever.len() - 1] == ever.last());
    lemma_marked_at_most(ever.last());
    assert(ever.len() * u32::MAX == head.len() * u32::MAX + u32::MAX) by (nonlinear_arith)
        requires
            ever.len() == head.len() + 1,
    ;
    assert(ever.len() * u32::MAX <= u32::MAX * u32::MAX) by (nonlinear_arith)
        requires
            ever.len() <= u32::MAX,
    ;
    lemma_marked(ever[at], e);
    if at == ever.len() - 1 {
        assert(w.drop_last() =~= head);
    } else {
        lemma_seen(head, at, e);
        assert(w.drop_last() =~= head.update(at, head[at].update(e, true)));
    }
}

proof fn lemma_marked_at_most(row: Seq<bool>)
    ensures
        marked(row) <= row.len(),
    decreases row.len(),
{
    if row.len() > 0 {
        lemma_marked_at_most(row.drop_last());
    }
}

proof fn lemma_seen_at_most(ever: Seq<Seq<bool>>)
    requires
        forall|g: int| 0 <= g < ever.len() ==> (#[trigger] ever[g]).len() <= u32::MAX,
    ensures
        seen(ever) <= ever.len() * u32::MAX,
    decreases ever.len(),
{
    if ever.len() > 0 {
        let head = ever.drop_last();
        assert forall|g: int| 0 <= g < head.len() implies (#[trigger] head[g]).len() <= u32::MAX by {
            assert(head[g] == ever[g]);
        }
        lemma_seen_at_most(head);
        assert(ever[ever.len() - 1] == ever.last());
        lemma_marked_at_most(ever.last());
        assert(ever.len() * u32::MAX == head.len() * u32::MAX + u32::MAX) by (nonlinear_arith)
            requires
                ever.len() == head.len() + 1,
        ;
    }
}

/// Where nobody ever sat there is nobody to count.
pub proof fn lemma_nobody_seen(ever: Seq<Seq<bool>>)
    requires
        forall|g: int, e: int|
            0 <= g < ever.len() && 0 <= e < ever[g].len() ==> !#[trigger] ever[g][e],
    ensures
        seen(ever) == 0,
    decreases ever.len(),
{
    if ever.len() > 0 {
        let head = ever.drop_last();
        assert forall|g: int, e: int| 0 <= g < head.len() && 0 <= e < head[g].len() implies !#[trigger] head[g][e] by {
            assert(!ever[g][e]);
        }
        lemma_nobody_seen(head);
        let last = ever.last();
        assert forall|e: int| 0 <= e < last.len() implies !#[trigger] last[e] by {
            assert(!ever[ever.len() - 1][e]);
        }
        lemma_none_marked(last);
    }
}

proof fn lemma_none_marked(row: Seq<bool>)
    requires
        forall|e: int| 0 <= e < row.len() ==> !#[trigger] row[e],
    ensures
        marked(row) == 0,
    decreases row.len(),
{
    if row.len() > 0 {
        assert forall|e: int| 0 <= e < row.drop_last().len() implies !#[trigger] row.drop_last()[e] by {
            assert(!row[e]);
        }
        lemma_none_marked(row.drop_last());
        assert(!row[row.len() - 1]);
    }
}

/// Seating an expert keeps every expert in one seat; in a seat in use, it
/// keeps every seat accounted for.
pub proof fn lemma_assign(v: SeatsView, at: int, seat: u32, expert: u32)
    requires
        v.paired(),
        v.can_assign(at, seat, expert),
    ensures
        v.assign(at, seat, expert).paired(),
        v.inv() && v.pool.list.contains(seat) ==> v.assign(at, seat, expert).inv(),
{
    assert forall|g: int| 0 <= g < v.ever.len() implies (#[trigger] v.ever[g]).len() <= u32::MAX by {
        assert(v.seat_of[g].len() <= u32::MAX);
    }
    lemma_seen(v.ever, at, expert as int);
    let w = v.assign(at, seat, expert);
    let p = v.pool;
    let q = w.pool;
    let was = v.seat(at, expert as int);
    if was is Some && was != Some(seat) {
        let o = was->0;
        assert(p.in_seat[o as int] == Some((at as u32, expert)));
        if v.inv() {
            lemma_without(p.list, o);
            assert(!p.free.contains(o));
            assert(p.list.contains(o));
        }
        lemma_pushed(p.free, o);
        assert(q.free == p.free.push(o));
        assert(q.list == without(p.list, o));
    }
    assert(v.inv() && p.list.contains(seat) ==> !p.free.contains(seat));
    assert forall|g: int, e: int| w.names(g, e) implies (#[trigger] w.seat(g, e) matches Some(s) ==> {
        &&& s < q.holds.len()
        &&& q.in_seat[s as int] == Some((g as u32, e as u32))
    }) by {
        assert(v.names(g, e));
        if g == at && e == expert {
        } else {
            assert(w.seat(g, e) == v.seat(g, e));
        }
    }
    assert forall|s: int| 0 <= s < q.holds.len() implies (#[trigger] q.in_seat[s] matches Some((g, e)) ==> {
        &&& w.names(g as int, e as int)
        &&& w.seat(g as int, e as int) == Some(s as u32)
    }) by {
        if s != seat {
            if q.in_seat[s] is Some {
                assert(q.in_seat[s] == p.in_seat[s]);
                let (g, e) = q.in_seat[s]->0;
                assert(v.names(g as int, e as int));
                assert(v.seat(g as int, e as int) == Some(s as u32));
                assert(!(g == at && e == expert));
                assert(w.seat(g as int, e as int) == v.seat(g as int, e as int));
            }
        }
    }
}

/// Holding a seat in use, letting holds go, and moving a seat in use along
/// the list change nobody's seat.
pub proof fn lemma_touch(v: SeatsView, seat: u32, hold: Hold)
    requires
        v.inv(),
        v.pool.list.contains(seat),
    ensures
        v.with_pool(v.pool.hold(seat, hold)).inv(),
        v.with_pool(v.pool.bump(seat)).inv(),
        v.with_pool(v.pool.unlink(seat).push_front(seat)).inv(),
{
    let p = v.pool;
    let kept = without(p.list, seat);
    lemma_bump(p.list, seat);
    lemma_without(p.list, seat);
    let front = seq![seat] + kept;
    assert(front[0] == seat);
    assert forall|q: u32| #[trigger] front.contains(q) <==> q == seat || p.list.contains(q) by {
        if kept.contains(q) {
            assert(front[kept.index_of(q) + 1] == q);
        }
        if front.contains(q) && q != seat {
            assert(kept[front.index_of(q) - 1] == q);
        }
    }
    assert(front.no_duplicates());
    lemma_same_seats(v, v.with_pool(p.hold(seat, hold)));
    lemma_same_seats(v, v.with_pool(p.bump(seat)));
    lemma_same_seats(v, v.with_pool(p.unlink(seat).push_front(seat)));
}

pub proof fn lemma_release(v: SeatsView, hold: Hold)
    requires
        v.inv(),
    ensures
        v.with_pool(v.pool.release(hold)).inv(),
{
    lemma_same_seats(v, v.with_pool(v.pool.release(hold)));
}

/// What a change that moves nobody has to keep.
proof fn lemma_same_seats(v: SeatsView, w: SeatsView)
    requires
        v.inv(),
        w.seat_of == v.seat_of,
        w.ever == v.ever,
        w.distinct == v.distinct,
        w.pool.in_seat == v.pool.in_seat,
        w.pool.free == v.pool.free,
        w.pool.holds.len() == v.pool.holds.len(),
        w.pool.list.no_duplicates(),
        forall|q: u32| #[trigger] w.pool.list.contains(q) <==> v.pool.list.contains(q),
        forall|q: u32| #[trigger] v.pool.free.contains(q) ==> w.pool.holds[q as int] == Hold::Free,
    ensures
        w.inv(),
{
    assert forall|g: int, e: int| w.names(g, e) implies (#[trigger] w.seat(g, e) matches Some(s) ==> {
        &&& s < w.pool.holds.len()
        &&& w.pool.in_seat[s as int] == Some((g as u32, e as u32))
    }) by {
        assert(v.seat(g, e) == w.seat(g, e));
    }
}

} // verus!
