//! Where every expert a segment routes to will sit.
//!
//! Deciding moves no bytes and makes no expert resident: it takes seats and
//! holds them, so a second row naming the same expert finds the same answer
//! and no two experts are given one seat.

use vstd::prelude::*;

use crate::experts::pool::{lemma_bump, Hold};
use crate::experts::seats::{
    lemma_pick, lemma_take, lemma_touch, Band, SeatsView,
};
use crate::experts::tier::lends_no_more;

verus! {

/// A copy: where it lands, where it comes from, how long it is.
pub type Job = (u64, u64, u64);

/// What a copy makes resident once it has landed: a group, the seat, and
/// the expert.
pub type Landing = (usize, u32, u32);

/// Why a routing vector cannot be seated.
pub enum Stop {
    /// It names this expert, and the group has no such expert.
    NoSuchExpert(u32),
    /// Every seat is held.
    Full,
}

/// A routing vector part of the way through.
pub struct Deciding {
    pub seats: SeatsView,
    /// The seat each expert named so far was given.
    pub taken: Map<u32, u32>,
    pub landing: Seq<Landing>,
    pub hits: nat,
    pub misses: nat,
    pub stop: Option<Stop>,
}

impl Deciding {
    pub open spec fn start(seats: SeatsView) -> Deciding {
        Deciding {
            seats,
            taken: Map::empty(),
            landing: Seq::empty(),
            hits: 0,
            misses: 0,
            stop: None,
        }
    }

    /// One more entry of the vector.
    pub open spec fn step(self, at: usize, experts: u32, id: i32) -> Deciding {
        if self.stop is Some || id < 0 {
            self
        } else if id >= experts {
            Deciding { stop: Some(Stop::NoSuchExpert(id as u32)), ..self }
        } else if self.taken.contains_key(id as u32) {
            self.again(id as u32)
        } else {
            match self.seats.seat(at as int, id as int) {
                Some(seat) => self.hit(id as u32, seat),
                None => self.miss(at, id as u32),
            }
        }
    }

    /// An expert this vector named before.
    pub open spec fn again(self, expert: u32) -> Deciding {
        Deciding {
            seats: self.seats.with_pool(self.seats.pool.bump(self.taken[expert])),
            ..self
        }
    }

    /// An expert that sits in `seat` already.
    pub open spec fn hit(self, expert: u32, seat: u32) -> Deciding {
        Deciding {
            seats: self.seats.with_pool(self.seats.pool.bump(seat).hold(seat, Hold::Segment)),
            taken: self.taken.insert(expert, seat),
            hits: self.hits + 1,
            ..self
        }
    }

    /// An expert that sits nowhere.
    pub open spec fn miss(self, at: usize, expert: u32) -> Deciding {
        match self.seats.pool.pick() {
            None => Deciding { misses: self.misses + 1, stop: Some(Stop::Full), ..self },
            Some(seat) => {
                let seats = self.seats.take();
                Deciding {
                    seats: seats.with_pool(seats.pool.hold(seat, Hold::Segment)),
                    taken: self.taken.insert(expert, seat),
                    landing: self.landing.push((at, seat, expert)),
                    misses: self.misses + 1,
                    ..self
                }
            },
        }
    }
}

/// What a routing vector decides, entry by entry.
pub open spec fn decided(seats: SeatsView, at: usize, experts: u32, ids: Seq<i32>) -> Deciding
    decreases ids.len(),
{
    if ids.len() == 0 {
        Deciding::start(seats)
    } else {
        decided(seats, at, experts, ids.drop_last()).step(at, experts, ids.last())
    }
}

/// The copies that land `expert` in `seat`: one per band.
pub open spec fn jobs_of(bands: Seq<Band>, seat: u32, expert: u32) -> Seq<Job> {
    Seq::new(
        bands.len(),
        |b: int|
            (
                (bands[b].at + seat * bands[b].stride) as u64,
                (bands[b].from + expert * bands[b].stride) as u64,
                bands[b].stride,
            ),
    )
}

/// The copies a whole landing asks for, in its order.
pub open spec fn jobs_for(bands: Seq<Band>, landing: Seq<Landing>) -> Seq<Job>
    decreases landing.len(),
{
    if landing.len() == 0 {
        Seq::empty()
    } else {
        jobs_for(bands, landing.drop_last()) + jobs_of(bands, landing.last().1, landing.last().2)
    }
}

/// How many bytes copies move.
pub open spec fn bytes_moved(jobs: Seq<Job>) -> nat
    decreases jobs.len(),
{
    if jobs.len() == 0 {
        0
    } else {
        bytes_moved(jobs.drop_last()) + jobs.last().2 as nat
    }
}

/// Two counts of one whole.
pub proof fn lemma_bytes_moved_step(jobs: Seq<Job>, n: int)
    requires
        0 <= n < jobs.len(),
    ensures
        bytes_moved(jobs.take(n + 1)) == bytes_moved(jobs.take(n)) + jobs[n].2,
{
    assert(jobs.take(n + 1).drop_last() =~= jobs.take(n));
}

pub proof fn lemma_bytes_moved_mono(jobs: Seq<Job>, n: int)
    requires
        0 <= n <= jobs.len(),
    ensures
        bytes_moved(jobs.take(n)) <= bytes_moved(jobs),
    decreases jobs.len() - n,
{
    if n < jobs.len() {
        lemma_bytes_moved_step(jobs, n);
        lemma_bytes_moved_mono(jobs, n + 1);
    } else {
        assert(jobs.take(n) =~= jobs);
    }
}

/// What holds part of the way through a vector that started from `v`.
pub open spec fn on_the_way(v: SeatsView, at: usize, experts: u32, d: Deciding) -> bool {
    let p = d.seats.pool;
    &&& d.seats.inv()
    &&& p.holds.len() == v.pool.holds.len()
    &&& d.seats.seat_of.len() == v.seat_of.len()
    &&& forall|g: int| 0 <= g < v.seat_of.len() ==> (#[trigger] d.seats.seat_of[g]).len() == v.seat_of[g].len()
    &&& d.seats.ever == v.ever
    &&& d.seats.distinct == v.distinct
    // every expert named has a seat of its own, held for this segment
    &&& forall|e: u32| #[trigger] d.taken.contains_key(e) ==> {
        let s = d.taken[e];
        &&& e < experts
        &&& p.list.contains(s)
        &&& p.holds[s as int] == Hold::Segment
        &&& d.seats.seat(at as int, e as int) == Some(s) || d.landing.contains((at, s, e))
    }
    &&& forall|e: u32, f: u32|
        #[trigger] d.taken.contains_key(e) && #[trigger] d.taken.contains_key(f) && e != f
            ==> d.taken[e] != d.taken[f]
    // what is to land lands in empty seats
    &&& forall|i: int| 0 <= i < d.landing.len() ==> {
        let (g, s, e) = #[trigger] d.landing[i];
        &&& g == at
        &&& e < experts
        &&& d.taken.contains_key(e)
        &&& d.taken[e] == s
        &&& p.in_seat[s as int] is None
        &&& d.seats.seat(at as int, e as int) is None
    }
    &&& forall|i: int, j: int|
        0 <= i < j < d.landing.len() ==> (#[trigger] d.landing[i]).2 != (#[trigger] d.landing[j]).2
    // nobody became resident
    &&& forall|g: int, e: int| v.names(g, e) ==> {
        ||| #[trigger] d.seats.seat(g, e) == v.seat(g, e)
        ||| d.seats.seat(g, e) is None
    }
    // what a fire or a copy in flight holds stayed as it was
    &&& forall|s: int|
        0 <= s < p.holds.len() && (v.pool.holds[s] == Hold::Fire || v.pool.holds[s] == Hold::Inflight)
            && v.pool.in_seat[s] is None ==> {
            &&& #[trigger] p.holds[s] == v.pool.holds[s]
            &&& p.in_seat[s] is None
        }
    &&& lends_no_more(v, d.seats)
    &&& d.hits + d.misses == d.taken.dom().len() + if d.stop == Some(Stop::Full) { 1nat } else { 0nat }
    &&& d.taken.dom().finite()
    &&& d.misses == d.landing.len() + if d.stop == Some(Stop::Full) { 1nat } else { 0nat }
}

proof fn lemma_step(v: SeatsView, at: usize, experts: u32, d: Deciding, id: i32)
    requires
        v.inv(),
        at < v.seat_of.len(),
        v.seat_of[at as int].len() == experts,
        on_the_way(v, at, experts, d),
    ensures
        on_the_way(v, at, experts, d.step(at, experts, id)),
{
    let n = d.step(at, experts, id);
    if d.stop is Some || id < 0 || id >= experts {
    } else {
        let e = id as u32;
        let p = d.seats.pool;
        if d.taken.contains_key(e) {
            let s = d.taken[e];
            lemma_touch(d.seats, s, Hold::Segment);
            lemma_bump(p.list, s);
            assert(n.seats.seat_of == d.seats.seat_of);
            assert(forall|g: int, x: int| n.seats.seat(g, x) == #[trigger] d.seats.seat(g, x));
        } else {
            match d.seats.seat(at as int, id as int) {
                Some(s) => {
                    assert(d.seats.names(at as int, id as int));
                    assert(p.in_seat[s as int] == Some((at as u32, e)));
                    assert(!p.free.contains(s));
                    assert(p.list.contains(s));
                    lemma_touch(d.seats, s, Hold::Segment);
                    lemma_bump(p.list, s);
                    let mid = d.seats.with_pool(p.bump(s));
                    assert(mid.pool.list.contains(s));
                    lemma_touch(mid, s, Hold::Segment);
                    assert(n.seats == mid.with_pool(mid.pool.hold(s, Hold::Segment)));
                    assert(forall|g: int, x: int| n.seats.seat(g, x) == #[trigger] d.seats.seat(g, x));
                    assert forall|f: u32| #[trigger] d.taken.contains_key(f) implies d.taken[f] != s by {
                        if d.taken[f] == s {
                            if d.seats.seat(at as int, f as int) == Some(s) {
                                assert(p.in_seat[s as int] == Some((at as u32, f)));
                            } else {
                                let i = d.landing.index_of((at, s, f));
                                assert(d.landing[i] == (at, s, f));
                            }
                        }
                    }
                },
                None => {
                    lemma_pick(d.seats);
                    if let Some(s) = p.pick() {
                        lemma_take(d.seats);
                        let mid = d.seats.take();
                        lemma_bump(p.list, s);
                        assert(mid.pool.list.contains(s));
                        lemma_touch(mid, s, Hold::Segment);
                        assert(n.seats == mid.with_pool(mid.pool.hold(s, Hold::Segment)));
                        assert forall|f: u32| #[trigger] d.taken.contains_key(f) implies d.taken[f] != s by {}
                        assert(n.landing[d.landing.len() as int] == (at, s, e));
                        assert forall|x: Landing| #[trigger] d.landing.contains(x) implies n.landing.contains(x) by {
                            assert(n.landing[d.landing.index_of(x)] == x);
                        }
                        assert(n.landing.contains((at, s, e)));
                        assert forall|g: int, x: int| d.seats.names(g, x) implies {
                            ||| #[trigger] n.seats.seat(g, x) == d.seats.seat(g, x)
                            ||| n.seats.seat(g, x) is None && d.seats.seat(g, x) == Some(s)
                        } by {
                            match p.in_seat[s as int] {
                                Some((h, y)) => {
                                    assert(d.seats.names(h as int, y as int));
                                    assert(d.seats.seat(h as int, y as int) == Some(s));
                                },
                                None => {},
                            }
                        }
                        assert forall|f: u32| #[trigger] n.taken.contains_key(f) implies {
                            let t = n.taken[f];
                            &&& f < experts
                            &&& n.seats.pool.list.contains(t)
                            &&& n.seats.pool.holds[t as int] == Hold::Segment
                            &&& n.seats.seat(at as int, f as int) == Some(t) || n.landing.contains((at, t, f))
                        } by {
                            if f != e {
                                assert(d.taken.contains_key(f));
                                assert(d.seats.names(at as int, f as int));
                                assert(n.seats.seat(at as int, f as int) == d.seats.seat(at as int, f as int)
                                    || d.seats.seat(at as int, f as int) == Some(s));
                            }
                        }
                        assert forall|i: int| 0 <= i < n.landing.len() implies {
                            let (g, t, f) = #[trigger] n.landing[i];
                            &&& g == at
                            &&& f < experts
                            &&& n.taken.contains_key(f)
                            &&& n.taken[f] == t
                            &&& n.seats.pool.in_seat[t as int] is None
                            &&& n.seats.seat(at as int, f as int) is None
                        } by {
                            if i < d.landing.len() {
                                assert(n.landing[i] == d.landing[i]);
                                let f = d.landing[i].2;
                                assert(d.seats.names(at as int, f as int));
                            }
                            assert(d.seats.names(at as int, e as int));
                            assert(n.seats.seat(at as int, e as int) is None);
                        }
                    }
                },
            }
        }
    }
}

/// Deciding, whole: every expert the vector names has a seat of its own,
/// held for the segment, and either sits there already or is to land there;
/// nobody became resident; what the fire's ring and a copy in flight hold
/// was left alone.
pub proof fn deciding_seats_every_expert(v: SeatsView, at: usize, experts: u32, ids: Seq<i32>)
    requires
        v.inv(),
        at < v.seat_of.len(),
        v.seat_of[at as int].len() == experts,
    ensures
        on_the_way(v, at, experts, decided(v, at, experts, ids)),
        decided(v, at, experts, ids).stop is None ==> forall|i: int|
            0 <= i < ids.len() && ids[i] >= 0 ==> decided(v, at, experts, ids).taken.contains_key(
                #[trigger] ids[i] as u32,
            ),
    decreases ids.len(),
{
    if ids.len() == 0 {
        let d = decided(v, at, experts, ids);
        assert(d.taken.dom() =~= Set::empty());
    } else {
        let head = ids.drop_last();
        deciding_seats_every_expert(v, at, experts, head);
        let d = decided(v, at, experts, head);
        lemma_step(v, at, experts, d, ids.last());
        let n = decided(v, at, experts, ids);
        if n.stop is None {
            assert forall|i: int| 0 <= i < ids.len() && ids[i] >= 0 implies n.taken.contains_key(
                #[trigger] ids[i] as u32,
            ) by {
                if i < head.len() {
                    assert(head[i] == ids[i]);
                    assert(d.taken.contains_key(head[i] as u32));
                }
            }
        }
    }
}

} // verus!
