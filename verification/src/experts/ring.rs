//! The prefill ring: two whole layers of seats, borrowed for one fire.

use vstd::prelude::*;

use crate::experts::pool::{lemma_bump, lemma_without, Hold};
use crate::experts::seats::{
    lemma_assign, lemma_pick, lemma_strip, lemma_take, lemma_touch, Seats, SeatsView,
};
use crate::experts::tier::{
    borrowed, borrowed_only, keeps_held, lemma_keeps_held, lends_no_more, RingView, Tier, TierView,
};
use crate::fault::Fault;

verus! {

/// The group half `h` holds.
pub open spec fn half(holds: (Option<usize>, Option<usize>), h: int) -> Option<usize> {
    if h == 0 {
        holds.0
    } else {
        holds.1
    }
}

pub open spec fn with_half(
    holds: (Option<usize>, Option<usize>),
    h: int,
    group: Option<usize>,
) -> (Option<usize>, Option<usize>) {
    if h == 0 {
        (group, holds.1)
    } else {
        (holds.0, group)
    }
}

impl RingView {
    /// The fill under way joined; `waited` counts only where a cut wanted
    /// this very group.
    pub open spec fn joined(self, ok: bool, wanted: Option<usize>, waited: u64) -> RingView {
        match self.filling {
            None => self,
            Some((group, h)) => RingView {
                filling: None,
                wait_ns: if wanted == Some(group) {
                    (self.wait_ns + waited) as u64
                } else {
                    self.wait_ns
                },
                holds: if ok { with_half(self.holds, h as int, Some(group)) } else { self.holds },
                ..self
            },
        }
    }
}

/// Taking seats for a ring, part of the way: the seats taken so far, and
/// whether none was refused.
pub struct Lent {
    pub seats: SeatsView,
    pub lent: Seq<u32>,
    pub ok: bool,
}

/// `n` seats taken for the fire: the ones never used first, then the
/// coldest, exactly as a miss would.
pub open spec fn lend(v: SeatsView, n: nat) -> Lent
    decreases n,
{
    if n == 0 {
        Lent { seats: v, lent: Seq::empty(), ok: true }
    } else {
        let l = lend(v, (n - 1) as nat);
        if !l.ok {
            l
        } else {
            match l.seats.pool.pick() {
                None => Lent { ok: false, ..l },
                Some(seat) => {
                    let seats = l.seats.take();
                    Lent {
                        seats: seats.with_pool(seats.pool.hold(seat, Hold::Fire)),
                        lent: l.lent.push(seat),
                        ok: true,
                    }
                },
            }
        }
    }
}

/// Seats handed back unused, in order.
pub open spec fn strip_all(v: SeatsView, seats: Seq<u32>) -> SeatsView
    decreases seats.len(),
{
    if seats.len() == 0 {
        v
    } else {
        let w = strip_all(v, seats.drop_last());
        w.with_pool(w.pool.strip(seats.last()))
    }
}

/// One borrowed seat given back: one of a half that holds a layer keeps its
/// expert, at the cold end of the list, where a decode may hit it but an
/// eviction takes it first; one never filled goes back empty.
pub open spec fn back(w: SeatsView, seat: u32, held: Option<usize>, expert: u32) -> SeatsView {
    let x = w.with_pool(w.pool.hold(seat, Hold::Free));
    match held {
        Some(group) => {
            let y = x.assign(group as int, seat, expert);
            y.with_pool(y.pool.unlink(seat).push_front(seat))
        },
        None => x.with_pool(x.pool.strip(seat)),
    }
}

/// The first `k` borrowed seats given back.
pub open spec fn give_back(v: SeatsView, ring: RingView, k: nat) -> SeatsView
    decreases k,
{
    if k == 0 {
        v
    } else {
        let i = k - 1;
        back(
            give_back(v, ring, i as nat),
            ring.seats[i],
            half(ring.holds, if i < ring.experts { 0 } else { 1 }),
            (if i < ring.experts { i } else { i - ring.experts }) as u32,
        )
    }
}

impl Seats {
    /// Give one borrowed seat back, holding `expert` of the layer its half
    /// holds, if it holds any.
    pub fn give_back(&mut self, seat: u32, held: Option<usize>, expert: u32)
        requires
            old(self).wf(),
            old(self)@.pool.list.contains(seat),
            old(self)@.pool.in_seat[seat as int] is None,
            held matches Some(group) ==> old(self)@.names(group as int, expert as int),
        ensures
            final(self).wf(),
            final(self).beside(old(self)),
            final(self)@ == back(old(self)@, seat, held, expert),
    {
        let ghost w = self@;
        let ghost x = w.with_pool(w.pool.hold(seat, Hold::Free));
        proof {
            lemma_touch(w, seat, Hold::Free);
        }
        self.pool.hold(seat, Hold::Free);
        assert(self@ =~= x);
        match held {
            // the half holds this layer, expert by expert
            Some(group) => {
                self.assign(group, seat, expert);
                let ghost y = self@;
                proof {
                    assert(y.pool.in_seat[seat as int] is Some);
                    assert(!y.pool.free.contains(seat));
                    assert(y.pool.list.contains(seat));
                    lemma_without(y.pool.list, seat);
                    lemma_touch(y, seat, Hold::Free);
                }
                self.pool.unlink(seat);
                self.pool.push_front(seat);
                assert(self@ =~= y.with_pool(y.pool.unlink(seat).push_front(seat)));
            },
            // never filled: nothing sits in it
            None => {
                proof {
                    lemma_strip(x, seat);
                }
                self.pool.strip(seat);
                assert(self@ =~= x.with_pool(x.pool.strip(seat)));
            },
        }
    }
}

impl TierView {
    /// The fill under way joined.
    pub open spec fn ring_joined(self, ok: bool, wanted: Option<usize>, waited: u64) -> TierView {
        match self.ring {
            None => self,
            Some(ring) => TierView { ring: Some(ring.joined(ok, wanted, waited)), ..self },
        }
    }

    /// Whether a fill is under way.
    pub open spec fn filling(self) -> bool {
        self.ring matches Some(ring) && ring.filling is Some
    }

    /// The borrowed seats back in the pool, once the last fill was joined.
    pub open spec fn given_back(self) -> TierView {
        match self.ring {
            None => self,
            Some(ring) => TierView {
                seats: give_back(self.seats, ring, ring.seats.len()),
                ring: Some(RingView { seats: Seq::empty(), holds: (None, None), ..ring }),
                ..self
            },
        }
    }

    /// A fire's end, as far as the ring goes: the last fill is joined, and
    /// whether it landed or not every borrowed seat goes back, those of a
    /// half whose fill refused empty.
    pub open spec fn returned(self, ok: bool) -> TierView {
        if !self.whole {
            self
        } else {
            TierView { whole: false, ..self }.ring_joined(ok, None, 0).given_back()
        }
    }

    /// Whether a fire over these lanes is a prefill one.
    pub open spec fn prefills(self, lane_rows: Seq<u32>, prefill_min: u32) -> bool {
        &&& prefill_min > 0
        &&& self.ring is Some
        &&& exists|i: int| 0 <= i < lane_rows.len() && #[trigger] lane_rows[i] >= prefill_min
    }

    /// The ring borrowed for a prefill fire, or nothing at all when the pool
    /// cannot lend it.
    pub open spec fn borrowing(self) -> TierView {
        let ring = self.ring->0;
        let l = lend(self.seats, (2 * ring.experts) as nat);
        if l.ok {
            TierView {
                seats: l.seats,
                whole: true,
                ring: Some(RingView { seats: l.lent, holds: (None, None), ..ring }),
                ..self
            }
        } else {
            TierView { seats: strip_all(l.seats, l.lent), whole: false, ..self }
        }
    }
}

/// What lending keeps: the invariant, and every seat in use elsewhere. The
/// only experts that lose their seats sat in the seats lent.
pub proof fn lemma_lend(v: SeatsView, n: nat)
    requires
        v.inv(),
    ensures
        ({
            let l = lend(v, n);
            &&& l.seats.inv()
            &&& keeps_held(v, l.seats)
            &&& borrowed(l.seats, l.lent)
            &&& forall|s: int|
                0 <= s < v.pool.holds.len() && #[trigger] l.seats.pool.holds[s] == Hold::Fire
                    ==> v.pool.holds[s] == Hold::Fire || l.lent.contains(s as u32)
            &&& l.lent.len() <= n
            &&& l.ok ==> l.lent.len() == n
            &&& l.seats.distinct == v.distinct
            &&& l.seats.ever == v.ever
            &&& forall|i: int| 0 <= i < l.lent.len() ==> v.pool.holds[#[trigger] l.lent[i] as int] == Hold::Free
            &&& forall|s: int|
                0 <= s < v.pool.holds.len() && v.pool.holds[s] != Hold::Free ==> #[trigger] l.seats.pool.holds[s]
                    == v.pool.holds[s]
            &&& forall|g: int, e: int|
                v.names(g, e) ==> {
                    ||| #[trigger] l.seats.seat(g, e) == v.seat(g, e)
                    ||| l.seats.seat(g, e) is None && v.seat(g, e) is Some && l.lent.contains(v.seat(g, e)->0)
                }
        }),
    decreases n,
{
    if n > 0 {
        lemma_lend(v, (n - 1) as nat);
        let l = lend(v, (n - 1) as nat);
        let m = lend(v, n);
        if l.ok {
            lemma_pick(l.seats);
            if let Some(s) = l.seats.pool.pick() {
                lemma_take(l.seats);
                let mid = l.seats.take();
                lemma_bump(l.seats.pool.list, s);
                assert(mid.pool.list.contains(s));
                lemma_touch(mid, s, Hold::Fire);
                assert(keeps_held(l.seats, m.seats));
                lemma_keeps_held(l.seats, m.seats, Seq::empty(), l.lent);
                crate::experts::seats::lemma_pushed(l.lent, s);
                assert(!l.lent.contains(s)) by {
                    if l.lent.contains(s) {
                        assert(l.lent[l.lent.index_of(s)] == s);
                    }
                }
                assert forall|i: int| 0 <= i < m.lent.len() implies {
                    &&& #[trigger] m.lent[i] < m.seats.pool.holds.len()
                    &&& m.seats.pool.holds[m.lent[i] as int] == Hold::Fire
                    &&& m.seats.pool.in_seat[m.lent[i] as int] is None
                } by {
                    if i < l.lent.len() {
                        assert(m.lent[i] == l.lent[i]);
                    }
                }
                assert(v.pool.holds[s as int] == Hold::Free) by {
                    if v.pool.holds[s as int] != Hold::Free {
                        assert(l.seats.pool.holds[s as int] == v.pool.holds[s as int]);
                    }
                }
                assert forall|i: int| 0 <= i < m.lent.len() implies v.pool.holds[#[trigger] m.lent[i] as int]
                    == Hold::Free by {
                    if i < l.lent.len() {
                        assert(m.lent[i] == l.lent[i]);
                    }
                }
                assert forall|g: int, e: int| v.names(g, e) implies {
                    ||| #[trigger] m.seats.seat(g, e) == v.seat(g, e)
                    ||| m.seats.seat(g, e) is None && v.seat(g, e) is Some && m.lent.contains(v.seat(g, e)->0)
                } by {
                    assert(l.seats.seat_of[g].len() == v.seat_of[g].len());
                    assert(l.seats.names(g, e));
                    assert(l.seats.seat(g, e) == l.seats.seat(g, e));
                    if m.seats.seat(g, e) != l.seats.seat(g, e) {
                        let (h, y) = l.seats.pool.in_seat[s as int]->0;
                        assert(l.seats.seat(h as int, y as int) == Some(s));
                        assert(g == h && e == y);
                    }
                }
            }
        }
    }
}

/// Handing seats back unused.
pub proof fn lemma_strip_all(v: SeatsView, seats: Seq<u32>)
    requires
        v.inv(),
        borrowed(v, seats),
    ensures
        strip_all(v, seats).inv(),
        strip_all(v, seats).pool.holds.len() == v.pool.holds.len(),
        strip_all(v, seats).seat_of == v.seat_of,
        strip_all(v, seats).pool.in_seat == v.pool.in_seat,
        strip_all(v, seats).distinct == v.distinct,
        forall|s: int|
            0 <= s < v.pool.holds.len() && !seats.contains(s as u32) ==> #[trigger] strip_all(
                v,
                seats,
            ).pool.holds[s] == v.pool.holds[s],
        forall|s: int|
            0 <= s < v.pool.holds.len() && seats.contains(s as u32) ==> #[trigger] strip_all(
                v,
                seats,
            ).pool.holds[s] == Hold::Free,
    decreases seats.len(),
{
    if seats.len() > 0 {
        let head = seats.drop_last();
        let last = seats.last();
        assert(seats[seats.len() - 1] == last);
        assert(borrowed(v, head)) by {
            assert forall|i: int| 0 <= i < head.len() implies #[trigger] head[i] == seats[i] by {}
        }
        lemma_strip_all(v, head);
        let w = strip_all(v, head);
        assert(!head.contains(last)) by {
            if head.contains(last) {
                let i = head.index_of(last);
                assert(seats[i] == last);
            }
        }
        assert(w.pool.holds[last as int] == Hold::Fire);
        assert(!w.pool.free.contains(last));
        assert(w.pool.list.contains(last));
        lemma_strip(w, last);
        let x = strip_all(v, seats);
        assert(x.pool.in_seat =~= w.pool.in_seat);
        assert forall|s: int| 0 <= s < v.pool.holds.len() && !seats.contains(s as u32) implies #[trigger] x.pool.holds[s]
            == v.pool.holds[s] by {
            assert(last != s);
            assert(!head.contains(s as u32)) by {
                if head.contains(s as u32) {
                    assert(seats[head.index_of(s as u32)] == s as u32);
                }
            }
        }
        assert forall|s: int| 0 <= s < v.pool.holds.len() && seats.contains(s as u32) implies #[trigger] x.pool.holds[s]
            == Hold::Free by {
            if s != last {
                let i = seats.index_of(s as u32);
                assert(head[i] == s as u32);
                assert(w.pool.holds[s] == Hold::Free);
            }
        }
    }
}

/// What giving a ring back keeps.
pub proof fn lemma_give_back(v: SeatsView, ring: RingView, k: nat)
    requires
        v.inv(),
        borrowed(v, ring.seats),
        ring.seats.len() == 2 * ring.experts,
        k <= ring.seats.len(),
        forall|g: int| 0 <= g < v.seat_of.len() ==> (#[trigger] v.seat_of[g]).len() == ring.experts,
        ring.holds.0 matches Some(g) ==> g < v.seat_of.len(),
        ring.holds.1 matches Some(g) ==> g < v.seat_of.len(),
    ensures
        ({
            let w = give_back(v, ring, k);
            &&& w.inv()
            &&& w.pool.holds.len() == v.pool.holds.len()
            &&& w.seat_of.len() == v.seat_of.len()
            &&& forall|g: int| 0 <= g < v.seat_of.len() ==> (#[trigger] w.seat_of[g]).len() == ring.experts
            &&& forall|s: int|
                #![trigger w.pool.holds[s]]
                #![trigger w.pool.in_seat[s]]
                0 <= s < v.pool.holds.len() && v.pool.in_seat[s] is None && (forall|i: int|
                    0 <= i < k ==> #[trigger] ring.seats[i] != s) ==> {
                    &&& w.pool.in_seat[s] is None
                    &&& w.pool.holds[s] == v.pool.holds[s]
                }
            &&& forall|g: int, e: int| v.names(g, e) && v.seat(g, e) is Some ==> #[trigger] w.seat(g, e) is Some
            &&& lends_no_more(v, w)
        }),
    decreases k,
{
    if k > 0 {
        let i = k - 1;
        lemma_give_back(v, ring, i as nat);
        let w = give_back(v, ring, i as nat);
        let z = give_back(v, ring, k);
        let seat = ring.seats[i];
        assert forall|j: int| 0 <= j < i implies #[trigger] ring.seats[j] != seat by {}
        assert(w.pool.in_seat[seat as int] is None);
        assert(w.pool.holds[seat as int] == Hold::Fire);
        assert(!w.pool.free.contains(seat));
        assert(w.pool.list.contains(seat));
        lemma_touch(w, seat, Hold::Free);
        let x = w.with_pool(w.pool.hold(seat, Hold::Free));
        let h = half(ring.holds, if i < ring.experts { 0 } else { 1 });
        let e = (if i < ring.experts { i } else { i - ring.experts }) as u32;
        match h {
            Some(group) => {
                let g = group as int;
                assert(w.seat_of[g].len() == ring.experts);
                assert(x.names(g, e as int));
                lemma_assign(x, g, seat, e);
                let y = x.assign(g, seat, e);
                assert(y.pool.in_seat[seat as int] is Some);
                assert(!y.pool.free.contains(seat));
                assert(y.pool.list.contains(seat));
                lemma_touch(y, seat, Hold::Free);
                lemma_without(y.pool.list, seat);
                assert(z == y.with_pool(y.pool.unlink(seat).push_front(seat)));
                assert forall|q: int|
                    #![trigger z.pool.holds[q]]
                    #![trigger z.pool.in_seat[q]]
                    0 <= q < v.pool.holds.len() && v.pool.in_seat[q] is None && (forall|j: int|
                        0 <= j < k ==> #[trigger] ring.seats[j] != q) implies {
                    &&& z.pool.in_seat[q] is None
                    &&& z.pool.holds[q] == v.pool.holds[q]
                } by {
                    assert(ring.seats[i] != q);
                    assert(w.pool.in_seat[q] is None);
                    match x.seat(g, e as int) {
                        Some(was) => {
                            assert(x.pool.in_seat[was as int] is Some);
                            assert(was != q);
                        },
                        None => {},
                    }
                }
                assert forall|a: int, b: int| v.names(a, b) && v.seat(a, b) is Some implies #[trigger] z.seat(a, b) is Some by {
                    assert(w.seat(a, b) is Some);
                }
            },
            None => {
                lemma_strip(x, seat);
                assert(z == x.with_pool(x.pool.strip(seat)));
                assert(z.pool.in_seat =~= w.pool.in_seat);
                assert forall|q: int|
                    #![trigger z.pool.holds[q]]
                    #![trigger z.pool.in_seat[q]]
                    0 <= q < v.pool.holds.len() && v.pool.in_seat[q] is None && (forall|j: int|
                        0 <= j < k ==> #[trigger] ring.seats[j] != q) implies {
                    &&& z.pool.in_seat[q] is None
                    &&& z.pool.holds[q] == v.pool.holds[q]
                } by {
                    assert(ring.seats[i] != q);
                    assert(w.pool.in_seat[q] is None);
                }
                assert forall|a: int, b: int| v.names(a, b) && v.seat(a, b) is Some implies #[trigger] z.seat(a, b) is Some by {
                    assert(w.seat(a, b) is Some);
                }
            },
        }
    }
}

/// Seats given back are held by nothing, and those of a half that holds no
/// layer are empty and wait to be taken.
pub open spec fn let_go(w: SeatsView, ring: RingView, k: nat) -> bool {
    forall|i: int|
        0 <= i < k ==> {
            &&& w.pool.holds[#[trigger] ring.seats[i] as int] == Hold::Free
            &&& half(ring.holds, if i < ring.experts { 0 } else { 1 }) is None
                ==> w.pool.in_seat[ring.seats[i] as int] is None && w.pool.free.contains(
                ring.seats[i],
            )
        }
}

pub proof fn lemma_let_go(v: SeatsView, ring: RingView, k: nat)
    requires
        v.inv(),
        borrowed(v, ring.seats),
        ring.seats.len() == 2 * ring.experts,
        k <= ring.seats.len(),
        forall|g: int| 0 <= g < v.seat_of.len() ==> (#[trigger] v.seat_of[g]).len() == ring.experts,
        ring.holds.0 matches Some(g) ==> g < v.seat_of.len(),
        ring.holds.1 matches Some(g) ==> g < v.seat_of.len(),
    ensures
        let_go(give_back(v, ring, k), ring, k),
    decreases k,
{
    if k > 0 {
        let i = k - 1;
        lemma_let_go(v, ring, i as nat);
        lemma_give_back(v, ring, i as nat);
        lemma_give_back(v, ring, k);
        let w = give_back(v, ring, i as nat);
        let z = give_back(v, ring, k);
        let seat = ring.seats[i];
        let held = half(ring.holds, if i < ring.experts { 0 } else { 1 });
        let expert = (if i < ring.experts { i } else { i - ring.experts }) as u32;
        let x = w.with_pool(w.pool.hold(seat, Hold::Free));
        assert(z == back(w, seat, held, expert));
        assert(seat < w.pool.holds.len() && w.pool.in_seat.len() == w.pool.holds.len());
        if let Some(group) = held {
            assert(w.seat_of[group as int].len() == ring.experts);
            assert(w.names(group as int, expert as int));
            assert(x.seat(group as int, expert as int) == w.seat(group as int, expert as int));
            if let Some(was) = w.seat(group as int, expert as int) {
                assert(was < w.pool.holds.len());
            }
        }
        assert forall|s: u32| #[trigger] w.pool.free.contains(s) implies z.pool.free.contains(s) by {
            let at = w.pool.free.index_of(s);
            assert(z.pool.free[at] == s);
        }
        assert forall|j: int| 0 <= j < k implies {
            &&& z.pool.holds[#[trigger] ring.seats[j] as int] == Hold::Free
            &&& half(ring.holds, if j < ring.experts { 0 } else { 1 }) is None
                ==> z.pool.in_seat[ring.seats[j] as int] is None && z.pool.free.contains(ring.seats[j])
        } by {
            if j < i {
                assert(ring.seats[j] != ring.seats[i]);
                assert(w.pool.holds[ring.seats[j] as int] == Hold::Free);
                assert(ring.seats[j] < w.pool.holds.len());
            } else if held is None {
                assert(z == x.with_pool(x.pool.strip(seat)));
                assert(z.pool.free[z.pool.free.len() - 1] == seat);
            }
        }
    }
}

impl Tier {
    /// Join the fill under way, if any, which ended as `filled` says, and
    /// note which half it landed in. `wanted` is the group whose cut waited
    /// on it, when one did: only that wait, of `waited` nanoseconds, is the
    /// fire's to account for.
    pub fn ring_join(&mut self, wanted: Option<usize>, filled: Result<(), Fault>, waited: u64) -> (done:
        Result<(), Fault>)
        requires
            old(self).wf(),
            old(self)@.ring matches Some(ring) ==> ring.wait_ns + waited <= u64::MAX,
        ensures
            final(self).wf(),
            final(self).beside(old(self)),
            final(self)@ == old(self)@.ring_joined(filled is Ok, wanted, waited),
            done == if old(self)@.filling() { filled } else { Ok(()) },
    {
        if let Some(ring) = &mut self.ring {
            if let Some((group, h)) = ring.filling.take() {
                if let Some(want) = wanted {
                    if want == group {
                        ring.wait_ns = ring.wait_ns + waited;
                    }
                }
                if filled.is_ok() {
                    if h == 0 {
                        ring.holds.0 = Some(group);
                    } else {
                        ring.holds.1 = Some(group);
                    }
                }
                return filled;
            }
        }
        Ok(())
    }

    /// Take `2 * experts` seats for this fire's ring: the ones never used
    /// first, then the coldest, exactly as a miss would. A borrow the pool
    /// cannot meet gives back what it took before it refuses.
    pub fn borrow_ring(&mut self) -> (done: Result<(), Fault>)
        requires
            old(self).wf(),
            old(self).ring is Some,
            !old(self).whole,
        ensures
            final(self).wf(),
            final(self).beside(old(self)),
            final(self)@ == old(self)@.borrowing(),
            done == if lend(old(self)@.seats, 2 * old(self)@.ring->0.experts as nat).ok {
                Ok(())
            } else {
                Err(old(self).full(0))
            },
    {
        let experts: u32 = match &self.ring {
            Some(ring) => ring.experts,
            None => 0,
        };
        let ghost v = self.seats@;
        let ghost n = 2 * experts as nat;
        let mut lent: Vec<u32> = Vec::new();
        let mut i: u32 = 0;
        while i < 2 * experts
            invariant
                i <= 2 * experts,
                experts <= u32::MAX / 2,
                n == 2 * experts,
                old(self).wf(),
                !old(self).whole,
                old(self).seats.groups@.len() > 0,
                old(self)@.ring matches Some(ring) && ring.experts == experts && ring.filling is None,
                v == old(self).seats@,
                v.inv(),
                self.seats.wf(),
                self.seats.beside(&old(self).seats),
                *self == (Tier { seats: self.seats, ..*old(self) }),
                self.seats@ == lend(v, i as nat).seats,
                lent@ == lend(v, i as nat).lent,
                lend(v, i as nat).ok,
            decreases 2 * experts - i,
        {
            let ghost l = lend(v, i as nat);
            proof {
                lemma_lend(v, i as nat);
                lemma_lend(v, (i + 1) as nat);
                lemma_pick(l.seats);
            }
            match self.take(0) {
                Ok(seat) => {
                    proof {
                        lemma_take(l.seats);
                        lemma_bump(l.seats.pool.list, seat);
                    }
                    self.seats.pool.hold(seat, Hold::Fire);
                    assert(self.seats@ =~= lend(v, (i + 1) as nat).seats);
                    lent.push(seat);
                },
                Err(why) => {
                    let ghost w = self.seats@;
                    assert(w =~= l.seats);
                    let mut k: usize = 0;
                    assert(lent@.take(0) =~= Seq::<u32>::empty());
                    while k < lent.len()
                        invariant
                            k <= lent@.len(),
                            w.inv(),
                            borrowed(w, lent@),
                            self.seats.wf(),
                            self.seats.beside(&old(self).seats),
                            *self == (Tier { seats: self.seats, ..*old(self) }),
                            self.seats@ == strip_all(w, lent@.take(k as int)),
                        decreases lent@.len() - k,
                    {
                        let seat: u32 = lent[k];
                        proof {
                            let head = lent@.take(k as int);
                            assert(lent@.take(k + 1).drop_last() =~= head);
                            lemma_part_borrowed(w, lent@, k as int);
                            lemma_part_borrowed(w, lent@, k + 1);
                            lemma_strip_all(w, head);
                            lemma_strip_all(w, lent@.take(k + 1));
                            assert(!head.contains(seat)) by {
                                if head.contains(seat) {
                                    let j = head.index_of(seat);
                                    assert(lent@[j] == seat);
                                }
                            }
                            assert(self.seats@.pool.holds[seat as int] == Hold::Fire);
                            assert(!self.seats@.pool.free.contains(seat));
                            assert(self.seats@.pool.list.contains(seat));
                        }
                        self.seats.pool.strip(seat);
                        assert(self.seats@ =~= strip_all(w, lent@.take(k + 1)));
                        k += 1;
                    }
                    self.whole = false;
                    proof {
                        assert(lent@.take(lent@.len() as int) =~= lent@);
                        lemma_strip_all(w, lent@);
                        lemma_lend_stops(v, (i + 1) as nat, n);
                        assert(lend(v, n).seats == w && lend(v, n).lent == lent@);
                        let x = self.seats@;
                        assert(keeps_held(v, x)) by {
                            assert forall|s: int|
                                0 <= s < v.pool.holds.len() && (v.pool.holds[s] == Hold::Fire
                                    || v.pool.holds[s] == Hold::Inflight) && v.pool.in_seat[s] is None implies {
                                &&& #[trigger] x.pool.holds[s] == v.pool.holds[s]
                                &&& x.pool.in_seat[s] is None
                            } by {
                                assert(w.pool.holds[s] == v.pool.holds[s]);
                                if lent@.contains(s as u32) {
                                    let j = lent@.index_of(s as u32);
                                    assert(v.pool.holds[lent@[j] as int] == Hold::Free);
                                }
                            }
                        }
                        lemma_keeps_held(v, x, old(self).landing@, Seq::empty());
                        assert(borrowed_only(x, Seq::empty())) by {
                            assert forall|s: int| 0 <= s < x.pool.holds.len() implies #[trigger] x.pool.holds[s]
                                != Hold::Fire by {
                                if x.pool.holds[s] == Hold::Fire {
                                    assert(w.pool.holds[s] == Hold::Fire);
                                    assert(v.pool.holds[s] == Hold::Fire);
                                    assert(old(self)@.ring->0.seats.contains(s as u32));
                                }
                            }
                        }
                        assert(self@.ring == old(self)@.ring);
                        assert(self@ =~= old(self)@.borrowing());
                    }
                    return Err(why);
                },
            }
            i += 1;
        }
        self.whole = true;
        if let Some(ring) = &mut self.ring {
            ring.seats = lent;
            ring.holds = (None, None);
        }
        proof {
            lemma_lend(v, n);
            lemma_keeps_held(v, self.seats@, old(self).landing@, Seq::empty());
            assert(self@.ring->0.seats == lend(v, n).lent);
            assert(borrowed_only(self.seats@, self@.ring->0.seats)) by {
                let l = lend(v, n);
                assert forall|s: int| 0 <= s < v.pool.holds.len() && #[trigger] l.seats.pool.holds[s]
                    == Hold::Fire implies l.lent.contains(s as u32) by {
                    if v.pool.holds[s] == Hold::Fire {
                        assert(old(self)@.ring->0.seats.contains(s as u32));
                    }
                }
            }
            assert(self@ =~= old(self)@.borrowing());
        }
        Ok(())
    }

    /// The borrowed seats go back to the pool holding the last two layers
    /// they were filled with, at the cold end of the list, where a decode
    /// may hit them but an eviction takes them first. The fill under way is
    /// joined first, as `filled` says it ended; one that refused leaves its
    /// half's seats empty and free, and is told once all are back.
    #[verifier::spinoff_prover]
    pub fn return_ring(&mut self, filled: Result<(), Fault>) -> (done: Result<(), Fault>)
        requires
            old(self).wf(),
        ensures
            final(self).wf(),
            final(self).beside(old(self)),
            final(self)@ == old(self)@.returned(filled is Ok),
            done == if old(self).whole && old(self)@.filling() { filled } else { Ok(()) },
            !old(self).whole ==> final(self)@ == old(self)@,
            !final(self).whole,
            final(self)@.ring matches Some(ring) ==> ring.seats.len() == 0 && ring.filling is None,
            old(self).whole ==> ({
                let ring = old(self)@.ring->0.joined(filled is Ok, None, 0);
                let_go(final(self)@.seats, ring, ring.seats.len())
            }),
            filled is Err ==> (old(self)@.ring matches Some(ring) ==> (ring.filling matches Some((_, h))
                ==> half(ring.joined(false, None, 0).holds, h as int) is None)),
            forall|s: int|
                0 <= s < final(self)@.seats.pool.holds.len()
                    ==> #[trigger] final(self)@.seats.pool.holds[s] != Hold::Fire,
            final(self).inflight == old(self).inflight,
    {
        if !self.whole {
            return Ok(());
        }
        let ghost held = old(self)@.returned(filled is Ok);
        let done = self.ring_join(None, filled, 0);
        self.whole = false;
        let ghost ring = self@.ring->0;
        let ghost v = self.seats@;
        let ghost mid = self@;
        let experts: usize = match &self.ring {
            Some(ring) => ring.experts as usize,
            None => 0,
        };
        let mut lent: Vec<u32> = Vec::new();
        let mut holds: (Option<usize>, Option<usize>) = (None, None);
        if let Some(ring) = &mut self.ring {
            std::mem::swap(&mut lent, &mut ring.seats);
            holds = ring.holds;
            ring.holds = (None, None);
        }
        let ghost emptied = *self;
        let mut k: usize = 0;
        while k < lent.len()
            invariant
                k <= lent@.len(),
                lent@ == ring.seats,
                holds == ring.holds,
                experts == ring.experts,
                v.inv(),
                borrowed(v, ring.seats),
                ring.seats.len() == 2 * ring.experts,
                forall|g: int| 0 <= g < v.seat_of.len() ==> (#[trigger] v.seat_of[g]).len() == ring.experts,
                ring.holds.0 matches Some(g) ==> g < v.seat_of.len(),
                ring.holds.1 matches Some(g) ==> g < v.seat_of.len(),
                self.seats.wf(),
                self.seats.beside(&old(self).seats),
                *self == (Tier { seats: self.seats, ..emptied }),
                self.seats@ == give_back(v, ring, k as nat),
            decreases lent@.len() - k,
        {
            let seat: u32 = lent[k];
            let ghost w = self.seats@;
            proof {
                lemma_give_back(v, ring, k as nat);
                assert forall|j: int| 0 <= j < k implies #[trigger] ring.seats[j] != seat by {
                    assert(ring.seats[k as int] == seat);
                }
                assert(w.pool.in_seat[seat as int] is None);
                assert(w.pool.holds[seat as int] == Hold::Fire);
                assert(!w.pool.free.contains(seat));
                assert(w.pool.list.contains(seat));
            }
            let held: Option<usize> = if k < experts { holds.0 } else { holds.1 };
            let expert: usize = if k < experts { k } else { k - experts };
            assert(held matches Some(group) ==> w.seat_of[group as int].len() == ring.experts);
            self.seats.give_back(seat, held, expert as u32);
            k += 1;
        }
        proof {
            lemma_give_back(v, ring, ring.seats.len());
            lemma_let_go(v, ring, ring.seats.len());
            let landing = old(self).landing@;
            let w = self.seats@;
            assert forall|i: int| 0 <= i < landing.len() implies {
                let (g, s, e) = #[trigger] landing[i];
                &&& w.names(g as int, e as int)
                &&& s < w.pool.holds.len()
                &&& w.pool.holds[s as int] == Hold::Inflight
                &&& w.pool.in_seat[s as int] is None
            } by {
                let (g, s, e) = landing[i];
                assert(v.names(g as int, e as int));
                assert(w.seat_of[g as int].len() == v.seat_of[g as int].len());
                assert(w.pool.in_seat[s as int] is None);
            }
            assert(self@ =~= held);
        }
        done
    }
}

/// Part of what was borrowed is borrowed.
pub proof fn lemma_part_borrowed(v: SeatsView, seats: Seq<u32>, n: int)
    requires
        borrowed(v, seats),
        0 <= n <= seats.len(),
    ensures
        borrowed(v, seats.take(n)),
{
    let head = seats.take(n);
    assert forall|i: int| 0 <= i < head.len() implies #[trigger] head[i] == seats[i] by {}
}

/// A borrow that was refused part of the way takes no more.
pub proof fn lemma_lend_stops(v: SeatsView, n: nat, m: nat)
    requires
        n <= m,
        !lend(v, n).ok,
    ensures
        lend(v, m) == lend(v, n),
    decreases m - n,
{
    if n < m {
        lemma_lend_stops(v, n, (m - 1) as nat);
    }
}

} // verus!
