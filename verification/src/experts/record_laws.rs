//! What a fill, a cut and a report say of what has happened.

use vstd::prelude::*;

use crate::experts::cutting::{routed, streams_by};
use crate::experts::deciding::bytes_moved;
use crate::experts::filling::FillView;
use crate::experts::fire::seated_of;
use crate::experts::opening::{hints_map, routes_map};
use crate::experts::plan::{region_views, RegionPlan};
use crate::experts::pool::seated;
use crate::experts::predict::{guesses, raws};
use crate::experts::ring::half;
use crate::experts::seats::SeatsView;
use crate::experts::tally::Tally;
use crate::experts::tier::{ranks, RingView, TierView};
use crate::experts::trace::{group_views, GroupPlan, GroupView};
use crate::trace::{Trace, ValueId};

verus! {

/// A fill that landed leaves its layer in its half; one that failed leaves
/// both halves as they were. Either way nothing is filling any more, and the
/// wait counts where this layer was waited for.
pub proof fn a_fill_is_held_where_it_landed(
    ring: RingView,
    ok: bool,
    wanted: Option<usize>,
    waited: u64,
    group: usize,
    h: usize,
)
    requires
        ring.filling == Some((group, h)),
        h < 2,
        ring.wait_ns + waited <= u64::MAX,
    ensures
        ({
            let now = ring.joined(ok, wanted, waited);
            &&& now.filling is None
            &&& half(now.holds, h as int) == if ok {
                Some(group)
            } else {
                half(ring.holds, h as int)
            }
            &&& half(now.holds, 1 - h) == half(ring.holds, 1 - h)
            &&& now.seats == ring.seats && now.experts == ring.experts
            &&& now.wait_ns == ring.wait_ns + if wanted == Some(group) {
                waited as int
            } else {
                0
            }
        }),
{
}

/// A fill under way is counted, and its half holds nothing till it has
/// landed; the other half holds what it held, and nobody moves.
pub proof fn a_started_fill_empties_its_half(v: TierView, group: usize, h: usize, fill: FillView)
    requires
        v.ring is Some,
        h < 2,
        v.ring->0.fills < u64::MAX,
        v.ring->0.copied + fill.copied <= u64::MAX,
        v.ring->0.read + fill.read <= u64::MAX,
        v.ring->0.bytes + bytes_moved(fill.reads) <= u64::MAX,
        v.tally.bytes_read + bytes_moved(fill.reads) <= u64::MAX,
        v.tally.swaps + fill.copies.len() + fill.reads.len() <= u64::MAX,
    ensures
        ({
            let w = v.fill_started(group, h, fill);
            let was = v.ring->0;
            let now = w.ring->0;
            &&& w.ring is Some
            &&& now.filling == Some((group, h))
            &&& half(now.holds, h as int) is None
            &&& half(now.holds, 1 - h) == half(was.holds, 1 - h)
            &&& now.seats == was.seats
            &&& now.fills == was.fills + 1
            &&& now.copied + now.read == was.copied + was.read + fill.copied + fill.read
            &&& now.read == was.read + fill.read
            &&& now.bytes == was.bytes + bytes_moved(fill.reads)
            &&& w.tally.bytes_read == v.tally.bytes_read + bytes_moved(fill.reads)
            &&& w.tally.swaps == v.tally.swaps + fill.copies.len() + fill.reads.len()
            &&& w.tally.hits == v.tally.hits && w.tally.misses == v.tally.misses
            &&& w.seats == v.seats
        }),
{
}

/// A cut's record is what came since the cut before it: straight after one,
/// nothing, and between two marks the difference of the counters.
pub proof fn a_cut_record_is_what_came_since(t: Tally, later: Tally, group: u32, rows: u32, cut_ns: u64)
    requires
        t.wf(),
        later.wf(),
        later.cut_at == t.now(),
    ensures
        ({
            let r = later.cut_record(group, rows, cut_ns);
            &&& r.fire == later.fires && r.group == group && r.rows == rows && r.cut_ns == cut_ns
            &&& r.misses == later.misses - t.misses
            &&& r.hits == later.hits - t.hits
            &&& r.copies == later.swaps - t.swaps
            &&& r.bytes_read == later.bytes_read - t.bytes_read
            &&& r.copy_ns == later.copy_ns - t.copy_ns
            &&& r.wait_ns == later.wait_ns - t.wait_ns
            &&& r.gpu_ns == later.gpu_ns - t.gpu_ns
        }),
{
}

/// So many are resident as there are seats somebody sits in.
pub proof fn the_resident_are_those_seated(in_seat: Seq<Option<(u32, u32)>>)
    ensures
        Set::new(|s: int| 0 <= s < in_seat.len() && in_seat[s] is Some).finite(),
        seated(in_seat) == Set::new(|s: int| 0 <= s < in_seat.len() && in_seat[s] is Some).len(),
    decreases in_seat.len(),
{
    let all = Set::new(|s: int| 0 <= s < in_seat.len() && in_seat[s] is Some);
    if in_seat.len() == 0 {
        assert(all =~= Set::empty());
    } else {
        let head = in_seat.drop_last();
        the_resident_are_those_seated(head);
        let before = Set::new(|s: int| 0 <= s < head.len() && head[s] is Some);
        let k = in_seat.len() - 1;
        assert(in_seat[k] == in_seat.last());
        if in_seat.last() is Some {
            assert(all =~= before.insert(k));
        } else {
            assert(all =~= before);
        }
    }
}

/// What a group's residency says is where its experts sit: an expert is said
/// to be in a seat just when it is.
pub proof fn residency_says_who_sits_where(v: SeatsView, g: int, s: int, e: u32)
    requires
        v.inv(),
        0 <= g < v.seat_of.len(),
        e < v.seat_of[g].len(),
        0 <= s < v.pool.in_seat.len(),
    ensures
        seated_of(v.pool.in_seat, g).len() == v.pool.in_seat.len(),
        seated_of(v.pool.in_seat, g)[s] == Some(e) <==> v.seat(g, e as int) == Some(s as u32),
{
    assert(v.names(g, e as int));
    assert(v.pool.in_seat[s] matches Some((h, x)) ==> v.seat(h as int, x as int) == Some(s as u32));
}

/// Every group is found by its own routing vector, and its hint by the same.
pub proof fn a_routing_vector_finds_its_group(groups: Seq<GroupView>, k: nat, g: int)
    requires
        0 <= g < k <= groups.len() <= usize::MAX,
        forall|g: int, h: int|
            0 <= g < h < groups.len() ==> (#[trigger] groups[g]).routes != (#[trigger] groups[h]).routes,
    ensures
        routes_map(groups, k).contains_key(groups[g].routes.0),
        routes_map(groups, k)[groups[g].routes.0] == g,
        hints_map(groups, k).contains_key(groups[g].routes.0) == (groups[g].hint is Some),
        groups[g].hint matches Some(hint) ==> hints_map(groups, k)[groups[g].routes.0] == hint,
        forall|r: u32| #[trigger]
            routes_map(groups, k).contains_key(r) ==> exists|h: int|
                0 <= h < k && (#[trigger] groups[h]).routes.0 == r,
    decreases k,
{
    let last = k - 1;
    if g < last {
        a_routing_vector_finds_its_group(groups, (k - 1) as nat, g);
        assert(groups[g].routes != groups[last].routes);
        assert(groups[g].routes.0 != groups[last].routes.0);
    } else {
        lemma_no_hint(groups, last as nat, groups[g].routes);
    }
    assert forall|r: u32| #[trigger] routes_map(groups, k).contains_key(r) implies exists|h: int|
        0 <= h < k && (#[trigger] groups[h]).routes.0 == r by {
        lemma_routes_of(groups, k, r);
    }
}

proof fn lemma_routes_of(groups: Seq<GroupView>, k: nat, r: u32)
    requires
        k <= groups.len(),
        routes_map(groups, k).contains_key(r),
    ensures
        exists|h: int| 0 <= h < k && (#[trigger] groups[h]).routes.0 == r,
    decreases k,
{
    if k > 0 {
        if groups[k - 1].routes.0 != r {
            lemma_routes_of(groups, (k - 1) as nat, r);
            let h = choose|h: int| 0 <= h < k - 1 && (#[trigger] groups[h]).routes.0 == r;
            assert(0 <= h < k && groups[h].routes.0 == r);
        }
    }
}

proof fn lemma_no_hint(groups: Seq<GroupView>, k: nat, routes: ValueId)
    requires
        k <= groups.len(),
        forall|g: int| 0 <= g < k ==> (#[trigger] groups[g]).routes != routes,
    ensures
        !hints_map(groups, k).contains_key(routes.0),
    decreases k,
{
    if k > 0 {
        lemma_no_hint(groups, (k - 1) as nat, routes);
        assert(groups[k - 1].routes != routes);
        assert(groups[k - 1].routes.0 != routes.0);
    }
}

/// A region shows the routing vectors of the routers in it whose planes
/// stream, and nothing else.
pub proof fn a_region_shows_what_streams_in_it(
    trace: Trace,
    groups: Seq<GroupPlan>,
    nodes: Seq<u32>,
    i: int,
    routes: ValueId,
)
    requires
        0 <= i < nodes.len(),
    ensures
        routed(trace, groups, nodes).len() == nodes.len(),
        routed(trace, groups, nodes)[i] == Some(routes) <==> {
            &&& nodes[i] < trace.nodes@.len()
            &&& trace.router_at(nodes[i] as int) is Some
            &&& trace.router_at(nodes[i] as int)->0.routes == routes
            &&& exists|g: int| 0 <= g < groups.len() && (#[trigger] groups[g]).routes == routes
        },
{
    assert(streams_by(groups, routes) <==> exists|g: int|
        0 <= g < groups.len() && (#[trigger] groups[g]).routes == routes);
}

/// The ring has a layer just when one of its halves holds it or is being
/// filled with it.
pub proof fn the_ring_has_what_it_holds_or_fills(v: TierView, at: usize)
    ensures
        v.ring is None ==> !v.has(at),
        v.ring matches Some(ring) ==> (v.has(at) <==> half(ring.holds, 0) == Some(at) || half(ring.holds, 1)
            == Some(at) || (ring.filling is Some && (ring.filling->0).0 == at)),
{
}

/// Rows are seen as they are: each of them, in order, entry by entry.
pub proof fn rows_are_seen_as_they_are(
    ranked: Seq<Vec<u32>>,
    named: Seq<Vec<i32>>,
    predicted: Seq<Option<Vec<Vec<u32>>>>,
    r: int,
)
    ensures
        ranks(ranked).len() == ranked.len(),
        0 <= r < ranked.len() ==> ranks(ranked)[r] == ranked[r]@,
        raws(named).len() == named.len(),
        0 <= r < named.len() ==> raws(named)[r] == named[r]@,
        guesses(predicted).len() == predicted.len(),
        0 <= r < predicted.len() ==> match predicted[r] {
            None => guesses(predicted)[r] is None,
            Some(rows) => guesses(predicted)[r] is Some && guesses(predicted)[r]->0.len() == rows@.len()
                && forall|i: int| 0 <= i < rows@.len() ==> #[trigger] guesses(predicted)[r]->0[i] == rows@[i]@,
        },
{
}

/// Groups are seen as they are: each of them, in order, with its bands.
pub proof fn groups_are_seen_as_they_are(groups: Seq<GroupPlan>, regions: Seq<RegionPlan>, g: int)
    ensures
        group_views(groups).len() == groups.len(),
        region_views(regions).len() == regions.len(),
        0 <= g < groups.len() ==> {
            let view = group_views(groups)[g];
            &&& view.routes == groups[g].routes && view.experts == groups[g].experts
            &&& view.slots == groups[g].slots && view.hint == groups[g].hint
            &&& view.bands == groups[g].bands@
        },
        0 <= g < regions.len() ==> {
            let view = region_views(regions)[g];
            &&& view.position == regions[g].position && view.stride == regions[g].stride
            &&& view.head == regions[g].head && view.bands == regions[g].bands@
        },
{
}

} // verus!
