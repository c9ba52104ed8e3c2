//! What a pass says of itself.

use vstd::prelude::*;

use crate::experts::segment::holds_expert;
use crate::ids::{as_signed, id_at, id_text, ids, signed};
use crate::line::{joined, num, Line};
use crate::passing::passes::PassingView;
use crate::passing::tier::{passing_view, Tier};

verus! {

/// The seats of those of `group` below `n`, in the order of the experts.
pub open spec fn seats_by_expert(group: Seq<u32>, seat_of: Seq<Option<u32>>, n: nat) -> Seq<u32>
    decreases n,
{
    if n == 0 {
        Seq::empty()
    } else {
        let head = seats_by_expert(group, seat_of, (n - 1) as nat);
        match seat_of[n - 1] {
            Some(seat) => if group.contains((n - 1) as u32) {
                head.push(seat)
            } else {
                head
            },
            None => head,
        }
    }
}

/// Seats one after another, commas between them.
pub open spec fn listed(seats: Seq<u32>) -> Seq<Seq<char>>
    decreases seats.len(),
{
    if seats.len() == 0 {
        Seq::empty()
    } else {
        let head = listed(seats.drop_last());
        let last = id_text(signed(seats.last() as int));
        if seats.len() == 1 {
            head.push(last)
        } else {
            head.push(", "@).push(last)
        }
    }
}

/// How many entries of a vector name anybody.
pub open spec fn entries(all: Seq<i32>) -> nat
    decreases all.len(),
{
    if all.len() == 0 {
        0
    } else {
        entries(all.drop_last()) + if all.last() >= 0 { 1nat } else { 0nat }
    }
}

/// The passes of a group, none before its first segment.
pub open spec fn passes_of(passing: Option<PassingView>) -> Seq<Seq<u32>> {
    match passing {
        Some(p) => p.groups,
        None => Seq::empty(),
    }
}

/// A pass's line of the trace, piece by piece: which it is, whom it seated
/// and where, and how many of the `count` entries of its vector it assigned.
pub open spec fn pass_pieces(
    pass: u32,
    passes: u32,
    at: usize,
    group: Seq<u32>,
    seats: Seq<u32>,
    assigned: nat,
    count: u64,
    groups: nat,
) -> Seq<Seq<char>> {
    seq![
        "pass "@,
        num(pass as int),
        " of "@,
        num(passes as int),
        " on group "@,
        num(at as int),
        ": group of "@,
        num(group.len() as int),
        " experts (seats ["@,
    ] + listed(seats) + seq![
        "]), "@,
        num(assigned as int),
        " of "@,
        num(count as int),
        " entries assigned, groups "@,
        num(groups as int),
    ]
}

/// How many entries of a vector name anybody.
fn count_entries(raw: &[u8]) -> (n: usize)
    ensures
        n == entries(ids(raw@)),
{
    let ghost all = ids(raw@);
    let mut n: usize = 0;
    let mut i: usize = 0;
    assert(all.take(0) =~= Seq::<i32>::empty());
    while i < raw.len() / 4
        invariant
            i <= raw@.len() / 4,
            all == ids(raw@),
            n <= i,
            n == entries(all.take(i as int)),
        decreases raw@.len() / 4 - i,
    {
        assert(all.take(i + 1).drop_last() =~= all.take(i as int));
        if id_at(raw, i) >= 0 {
            n += 1;
        }
        i += 1;
    }
    assert(all.take(all.len() as int) =~= all);
    n
}

impl Tier {
    /// The line of the trace for pass `pass` of `passes` over group `at`,
    /// just seated, `raw` its routing vector as the matmuls are to read it
    /// and `count` the entries of the segment's rows.
    pub fn pass_line(&self, at: usize, pass: u32, passes: u32, count: u64, raw: &[u8]) -> (text: String)
        requires
            self.wf(),
            at < self.room.groups@.len(),
        ensures
            ({
                let groups = passes_of(self@.passing[at as int]);
                let group = if pass < groups.len() { groups[pass as int] } else { Seq::empty() };
                let seat_of = self.room.groups@[at as int].seat_of@;
                text@ == joined(
                    pass_pieces(
                        pass,
                        passes,
                        at,
                        group,
                        seats_by_expert(group, seat_of, seat_of.len()),
                        entries(ids(raw@)),
                        count,
                        groups.len(),
                    ),
                )
            }),
    {
        let ghost groups = passes_of(self@.passing[at as int]);
        let ghost named = if pass < groups.len() { groups[pass as int] } else { Seq::empty() };
        let ghost all = self.room.groups@[at as int].seat_of@;
        assert(self@.passing[at as int] == passing_view(self.passing@[at as int]));
        let (group, many): (Vec<u32>, usize) = match &self.passing[at] {
            Some(p) => {
                let k: usize = pass as usize;
                if k < p.groups.len() {
                    (p.groups[k].clone(), p.groups.len())
                } else {
                    (Vec::new(), p.groups.len())
                }
            },
            None => (Vec::new(), 0),
        };
        assert(group@ =~= named);
        let mut line = Line::new();
        line.say("pass ");
        line.number(pass as u64);
        line.say(" of ");
        line.number(passes as u64);
        line.say(" on group ");
        line.number(at as u64);
        line.say(": group of ");
        line.number(group.len() as u64);
        line.say(" experts (seats [");
        let ghost lead = line.pieces@;
        let seat_of: &Vec<Option<u32>> = &self.room.groups[at].seat_of;
        let mut some: bool = false;
        let mut e: usize = 0;
        assert(lead + listed(Seq::<u32>::empty()) =~= lead);
        while e < seat_of.len()
            invariant
                e <= seat_of@.len(),
                seat_of@ == all,
                seat_of@.len() <= u32::MAX,
                group@ == named,
                line.wf(),
                line.pieces@ == lead + listed(seats_by_expert(named, all, e as nat)),
                some <==> seats_by_expert(named, all, e as nat).len() > 0,
            decreases seat_of@.len() - e,
        {
            let ghost so_far = seats_by_expert(named, all, e as nat);
            if let Some(seat) = seat_of[e] {
                if holds_expert(&group, e as u32) {
                    if some {
                        line.say(", ");
                    }
                    line.id(as_signed(seat));
                    some = true;
                    proof {
                        let now = so_far.push(seat);
                        assert(now.drop_last() =~= so_far);
                        assert(line.pieces@ =~= lead + listed(now));
                    }
                }
            }
            e += 1;
        }
        line.say("]), ");
        line.number(count_entries(raw) as u64);
        line.say(" of ");
        line.number(count);
        line.say(" entries assigned, groups ");
        line.number(many as u64);
        assert(line.pieces@ =~= pass_pieces(
            pass,
            passes,
            at,
            named,
            seats_by_expert(named, all, all.len()),
            entries(ids(raw@)),
            count,
            groups.len(),
        ));
        line.text
    }
}

/// A pass is said with the seats of its experts, in the experts' order, and
/// of no others; and with as many entries as name an expert at all.
pub proof fn a_pass_is_said_by_its_seats(group: Seq<u32>, seat_of: Seq<Option<u32>>, n: nat, all: Seq<i32>, id: i32)
    requires
        n <= seat_of.len() <= u32::MAX,
    ensures
        forall|e: int|
            0 <= e < n && group.contains(e as u32) && #[trigger] seat_of[e] is Some ==> seats_by_expert(
                group,
                seat_of,
                n,
            ).contains(seat_of[e]->0),
        forall|i: int|
            0 <= i < seats_by_expert(group, seat_of, n).len() ==> sits_in_pass(
                group,
                seat_of,
                n,
                #[trigger] seats_by_expert(group, seat_of, n)[i],
            ),
        n > 0 ==> seats_by_expert(group, seat_of, (n - 1) as nat).is_prefix_of(
            seats_by_expert(group, seat_of, n),
        ),
        entries(Seq::<i32>::empty()) == 0,
        entries(all.push(id)) == entries(all) + if id >= 0 {
            1nat
        } else {
            0
        },
    decreases n,
{
    assert(all.push(id).drop_last() =~= all);
    if n > 0 {
        let m = (n - 1) as nat;
        a_pass_is_said_by_its_seats(group, seat_of, m, all, id);
        let head = seats_by_expert(group, seat_of, m);
        let now = seats_by_expert(group, seat_of, n);
        assert(head =~= now.subrange(0, head.len() as int));
        assert forall|e: int| 0 <= e < n && group.contains(e as u32) && #[trigger] seat_of[e] is Some implies now.contains(
            seat_of[e]->0,
        ) by {
            if e < m {
                assert(head.contains(seat_of[e]->0));
                assert(now[head.index_of(seat_of[e]->0)] == seat_of[e]->0);
            } else {
                assert(now[head.len() as int] == seat_of[e]->0);
            }
        }
        assert forall|i: int| 0 <= i < now.len() implies sits_in_pass(group, seat_of, n, #[trigger] now[i]) by {
            if i < head.len() {
                assert(now[i] == head[i]);
                assert(sits_in_pass(group, seat_of, m, head[i]));
                let e = choose|e: int|
                    0 <= e < m && group.contains(e as u32) && #[trigger] seat_of[e] == Some(head[i]);
                assert(seat_of[e] == Some(now[i]));
            } else {
                assert(seat_of[m as int] == Some(now[i]));
            }
        }
    }
}

/// One of the pass's experts, among the first `n`, sits in this seat.
pub open spec fn sits_in_pass(group: Seq<u32>, seat_of: Seq<Option<u32>>, n: nat, seat: u32) -> bool {
    exists|e: int| 0 <= e < n && group.contains(e as u32) && #[trigger] seat_of[e] == Some(seat)
}

} // verus!
