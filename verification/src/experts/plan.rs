//! Sizing the shared pool.

use std::collections::BTreeMap;
use vstd::prelude::*;

use crate::device::heater::Config;
use crate::experts::shape::position;
use crate::experts::trace::{all_found, fan, group_views, Found, GroupPlan, GroupView};
use crate::fault::{Fault, Refusal};
use crate::gather;
use crate::trace::Trace;
use crate::weights::{align_up, next_multiple, Weights};

verus! {

/// How many routed-expert seats the shared pool holds.
///
/// The pool is one LRU over `(layer, expert)` pairs: every group (one router
/// and the bands it indexes) aliases the same slabs, so a seat can hold any
/// layer's expert and the layers compete for seats by recency rather than
/// each holding a fixed share.
#[derive(Debug, Clone, Copy, PartialEq, Eq, Structural)]
pub enum Policy {
    /// Every expert resident; no tier opens.
    Off,
    /// As many seats as fit the byte budget once the dense planes are paid
    /// for.
    Budget(u64),
    /// Exactly this many seats.
    Slots(u32),
    /// Free memory at load, less a headroom, less the dense planes, all of
    /// it in seats. The default when nothing else is stated.
    Auto { headroom: u64 },
}

/// What sized a plan, for the log.
#[derive(Debug, Clone, Copy, PartialEq, Eq, Structural)]
pub enum Word {
    /// Off: every expert resident.
    Off,
    /// The budget holds the plan whole.
    Whole,
    /// No routed experts in this plan.
    Dense,
    /// This budget, in bytes.
    Budget(u64),
    /// This many seats, asked for by number.
    Slots(u32),
    /// Free memory, less a headroom and the dense planes, in bytes.
    Auto { free: u64, headroom: u64, dense: u64 },
}

/// A row routes to `top_k` of `experts`, so `rows` rows name about
/// `experts * (1 - exp(-rows * top_k / experts))` distinct experts: the
/// union passes 80% of the layer at `rows = 1.6 * experts / top_k`. Below
/// that a whole-layer read moves bytes no matmul asks for, so the ring's own
/// threshold is that, rounded to 2.
pub const PREFILL_UNION: u32 = 2;

pub const PREFILL_FLOOR: u32 = 32;

pub const DEFAULT_REPORT_EVERY: u64 = 256;

/// Every knob a load takes for the expert pool, read once at the load's edge
/// and carried from there.
#[derive(Debug, Clone, PartialEq, Eq)]
pub struct Knobs {
    pub policy: Policy,
    /// `None` derives the row count from the group's shape, `Some(0)` drops
    /// the ring.
    pub prefill: Option<u32>,
    /// Reads bypass the page cache unless off.
    pub nocache: bool,
    /// Fires between two reports; 0 leaves only the last one.
    pub report_every: u64,
    /// Where the per-fire log lands: the bytes of its path.
    pub log: Option<Vec<u8>>,
    /// The clock heater asked for.
    pub heater: Option<Config>,
}

/// Rows in one lane from which a fire counts as prefill.
pub open spec fn prefill_rows(prefill: Option<u32>, experts: u32, top_k: u32) -> int {
    match prefill {
        Some(rows) => rows as int,
        None => {
            let per_row = if top_k == 0 { 1int } else { top_k as int };
            let rows = (PREFILL_UNION * experts + per_row - 1) / per_row;
            if rows < PREFILL_FLOOR {
                PREFILL_FLOOR as int
            } else {
                rows
            }
        },
    }
}

impl Knobs {
    /// This policy and the default of every other knob: what the budget-only
    /// plans take.
    pub fn under(policy: Policy) -> (knobs: Knobs)
        ensures
            knobs == (Knobs {
                policy,
                prefill: None,
                nocache: true,
                report_every: DEFAULT_REPORT_EVERY,
                log: None,
                heater: None,
            }),
    {
        Knobs {
            policy,
            prefill: None,
            nocache: true,
            report_every: DEFAULT_REPORT_EVERY,
            log: None,
            heater: None,
        }
    }

    /// Rows in one lane from which a fire counts as prefill and runs its
    /// routed matmuls over the ring (a whole layer at a time, filled one
    /// layer ahead).
    pub fn prefill_min(&self, experts: u32, top_k: u32) -> (rows: u32)
        requires
            self.prefill is None ==> PREFILL_UNION * experts <= u32::MAX,
        ensures
            rows == prefill_rows(self.prefill, experts, top_k),
    {
        match self.prefill {
            Some(rows) => rows,
            None => {
                let per_row: u64 = if top_k == 0 { 1 } else { top_k as u64 };
                let all: u64 = PREFILL_UNION as u64 * experts as u64;
                assert(0 <= (all + per_row - 1) / per_row as int <= all) by (nonlinear_arith)
                    requires
                        per_row >= 1,
                        all >= 0,
                ;
                let rows: u64 = (all + per_row - 1) / per_row;
                if rows < PREFILL_FLOOR as u64 {
                    PREFILL_FLOOR
                } else {
                    rows as u32
                }
            },
        }
    }
}

impl Default for Knobs {
    fn default() -> (knobs: Knobs)
        ensures
            knobs.policy == Policy::Off,
            knobs.prefill is None && knobs.nocache && knobs.report_every == DEFAULT_REPORT_EVERY,
            knobs.log is None && knobs.heater is None,
    {
        Knobs::under(Policy::Off)
    }
}

/// One plane whose experts stream: its seats, and how far apart they are.
#[derive(Debug, Clone)]
pub struct BandPlan {
    pub param: usize,
    pub name: String,
    pub experts: u32,
    pub slots: u32,
    pub stride: u64,
    pub group: usize,
}

/// One slab of the shared pool: every band that sits at the same position of
/// its group and has the same per-expert stride. All of them alias one
/// `slots x stride` reservation, placed under the `head` param.
#[derive(Debug, Clone)]
pub struct RegionPlan {
    pub position: usize,
    pub stride: u64,
    pub head: usize,
    pub bands: Vec<usize>,
}

pub struct RegionView {
    pub position: nat,
    pub stride: u64,
    pub head: usize,
    pub bands: Seq<usize>,
}

impl View for RegionPlan {
    type V = RegionView;

    open spec fn view(&self) -> RegionView {
        RegionView {
            position: self.position as nat,
            stride: self.stride,
            head: self.head,
            bands: self.bands@,
        }
    }
}

pub open spec fn region_views(regions: Seq<RegionPlan>) -> Seq<RegionView> {
    Seq::new(regions.len(), |r: int| regions[r]@)
}

/// The first of the first `n` regions at this position and stride.
pub open spec fn slot(regions: Seq<RegionView>, position: nat, stride: u64, n: nat) -> Option<nat>
    decreases n,
{
    if n == 0 {
        None
    } else if slot(regions, position, stride, (n - 1) as nat) is Some {
        slot(regions, position, stride, (n - 1) as nat)
    } else if regions[n - 1].position == position && regions[n - 1].stride == stride {
        Some((n - 1) as nat)
    } else {
        None
    }
}

/// The regions of the first `k` bands: a band joins the one at its position
/// and stride, and opens it if there is none. The head is the lowest param.
pub open spec fn placed(bands: Seq<BandPlan>, k: nat) -> Seq<RegionView>
    decreases k,
{
    if k == 0 {
        Seq::empty()
    } else {
        let r = placed(bands, (k - 1) as nat);
        let band = bands[k - 1];
        let at = position(bands, k - 1);
        match slot(r, at, band.stride, r.len()) {
            Some(i) => r.update(
                i as int,
                RegionView {
                    head: if band.param < r[i as int].head { band.param } else { r[i as int].head },
                    bands: r[i as int].bands.push((k - 1) as usize),
                    ..r[i as int]
                },
            ),
            None => r.push(
                RegionView {
                    position: at,
                    stride: band.stride,
                    head: band.param,
                    bands: seq![(k - 1) as usize],
                },
            ),
        }
    }
}

/// The param band `b`'s region is placed under.
pub open spec fn head_of(regions: Seq<RegionView>, bands: Seq<BandPlan>, b: int) -> usize {
    match slot(regions, position(bands, b), bands[b].stride, regions.len()) {
        Some(i) => regions[i as int].head,
        None => bands[b].param,
    }
}

/// The param each of the first `k` bands' params aliases, if not its own.
pub open spec fn aliases(regions: Seq<RegionView>, bands: Seq<BandPlan>, k: nat) -> Map<usize, usize>
    decreases k,
{
    if k == 0 {
        Map::empty()
    } else {
        let a = aliases(regions, bands, (k - 1) as nat);
        let head = head_of(regions, bands, k - 1);
        if head != bands[k - 1].param {
            a.insert(bands[k - 1].param, head)
        } else {
            a
        }
    }
}

/// What one seat takes over the first `k` regions.
pub open spec fn strides_sum(regions: Seq<RegionView>, k: nat) -> int
    decreases k,
{
    if k == 0 {
        0
    } else {
        strides_sum(regions, (k - 1) as nat) + regions[k - 1].stride
    }
}

/// What `n` seats take over the first `k` regions, each region aligned.
pub open spec fn seats(regions: Seq<RegionView>, align: int, n: int, k: nat) -> int
    decreases k,
{
    if k == 0 {
        0
    } else {
        seats(regions, align, n, (k - 1) as nat) + align_up(n * regions[k - 1].stride, align)
    }
}

/// What `n` seats take.
pub open spec fn seat_bytes(regions: Seq<RegionView>, align: int, n: int) -> int {
    seats(regions, align, n, regions.len())
}

/// The most seats, up to `cap`, whose bytes fit `usable`.
pub open spec fn most(regions: Seq<RegionView>, align: int, usable: int, cap: nat) -> nat
    decreases cap,
{
    if cap == 0 || seat_bytes(regions, align, cap as int) <= usable {
        cap
    } else {
        most(regions, align, usable, (cap - 1) as nat)
    }
}

/// Where the first `k` bands' planes start on the host, end to end.
pub open spec fn host_end(bands: Seq<BandPlan>, k: nat) -> int
    decreases k,
{
    if k == 0 {
        0
    } else {
        host_end(bands, (k - 1) as nat) + bands[k - 1].experts * bands[k - 1].stride
    }
}

pub open spec fn host_starts(bands: Seq<BandPlan>, k: nat) -> Map<usize, u64>
    decreases k,
{
    if k == 0 {
        Map::empty()
    } else {
        host_starts(bands, (k - 1) as nat).insert(
            bands[k - 1].param,
            host_end(bands, (k - 1) as nat) as u64,
        )
    }
}

/// The seats each of the first `k` bands' params is placed at.
pub open spec fn reserved(bands: Seq<BandPlan>, n: u32, k: nat) -> Map<usize, u32>
    decreases k,
{
    if k == 0 {
        Map::empty()
    } else {
        reserved(bands, n, (k - 1) as nat).insert(bands[k - 1].param, n)
    }
}

/// The params of the first `k` bands.
pub open spec fn streamed(bands: Seq<BandPlan>, k: nat) -> Set<usize>
    decreases k,
{
    if k == 0 {
        Set::empty()
    } else {
        streamed(bands, (k - 1) as nat).insert(bands[k - 1].param)
    }
}

/// `(layer, expert)` pairs of the first `k` groups.
pub open spec fn pairs_of(groups: Seq<GroupView>, k: nat) -> int
    decreases k,
{
    if k == 0 {
        0
    } else {
        pairs_of(groups, (k - 1) as nat) + groups[k - 1].experts
    }
}

/// The widest fan-out of the first `k` groups, at least one.
pub open spec fn widest(trace: Trace, groups: Seq<GroupView>, k: nat) -> u32
    decreases k,
{
    if k == 0 {
        1
    } else {
        let w = widest(trace, groups, (k - 1) as nat);
        match fan(trace, groups[k - 1].routes, trace.nodes@.len()) {
            Some(top_k) => if top_k > w {
                top_k
            } else {
                w
            },
            None => w,
        }
    }
}

/// Seats one pass of a segment may take: the whole pool, or half of it where
/// the next pass's experts are read into the other half meanwhile.
pub open spec fn pass_seats(slots: int, half: bool) -> int {
    let seats = if half { slots / 2 } else { slots };
    if seats < 1 {
        1
    } else {
        seats
    }
}

/// The fewest seats of which one pass takes a row's `fan` experts.
pub open spec fn fewest(fan: u32, half: bool) -> u32 {
    if !half || fan <= 1 || 2 * fan > u32::MAX {
        fan
    } else {
        (2 * fan) as u32
    }
}

/// What a plan's groups measure, whatever the policy.
pub struct Measures {
    pub regions: Seq<RegionView>,
    /// What the planes that do not stream take.
    pub dense: int,
    /// The seats one segment may need at once: every expert of a layer, or,
    /// where a segment runs in passes, what one row's take.
    pub need: u32,
    /// The experts a row takes, where a segment runs in passes.
    pub fan: Option<u32>,
    pub pairs: int,
    pub prefill_min: int,
    /// The prefill ring: two whole layers of seats past the pool's own.
    pub ring: int,
    /// The seats past which another would never be used.
    pub ceiling: int,
    /// What the groups' seat tables take.
    pub tables: int,
}

/// `passes` says whether a segment runs in passes, and then whether one
/// takes half the pool. A pool in passes has no ring and no seat tables.
pub open spec fn measured(
    trace: Trace,
    weights: Weights,
    prefill: Option<u32>,
    passes: Option<bool>,
    held: Set<usize>,
    f: Found,
) -> Measures {
    let experts = f.groups[0].experts;
    let wide = widest(trace, f.groups, f.groups.len());
    let need = match passes {
        None => experts,
        Some(half) => fewest(wide, half),
    };
    let pairs = pairs_of(f.groups, f.groups.len());
    let prefill_min = match passes {
        None => prefill_rows(prefill, experts, wide),
        Some(_) => 0,
    };
    let capped = if pairs > u32::MAX { u32::MAX as int } else { pairs };
    Measures {
        regions: placed(f.bands, f.bands.len()),
        dense: weights.sum(streamed(f.bands, f.bands.len()).union(held)),
        need,
        fan: match passes {
            None => None,
            Some(_) => Some(wide),
        },
        pairs,
        prefill_min,
        ring: if prefill_min > 0 { 2 * experts } else { 0 },
        ceiling: if capped < need { need as int } else { capped },
        tables: match passes {
            None => align_up(4 * experts, weights.align as int) * f.groups.len(),
            Some(_) => 0,
        },
    }
}

/// What a plan comes to, knobs and gathered table aside.
pub struct PlanView {
    pub bands: Seq<BandPlan>,
    pub groups: Seq<GroupView>,
    pub regions: Seq<RegionView>,
    pub alias_of: Map<usize, usize>,
    pub resident_of: Map<usize, u32>,
    pub host_of: Map<usize, u64>,
    pub slots: u32,
    pub ring: u32,
    pub prefill_min: u32,
    pub per_slot: u64,
    pub pairs: u64,
    pub policy: Word,
    pub device_bytes: u64,
    pub host_bytes: u64,
}

impl PlanView {
    /// Every group has bands, which the plan has, and one expert count; no
    /// two are of one routing vector; and a ring is two of their layers.
    pub open spec fn wf(self) -> bool {
        &&& self.groups.len() <= u32::MAX
        &&& forall|g: int|
            0 <= g < self.groups.len() ==> {
                &&& (#[trigger] self.groups[g]).bands.len() > 0
                &&& self.groups[g].experts == self.groups[0].experts
            }
        &&& forall|g: int, i: int|
            0 <= g < self.groups.len() && 0 <= i < self.groups[g].bands.len()
                ==> #[trigger] self.groups[g].bands[i] < self.bands.len()
        &&& forall|g: int, h: int|
            0 <= g < h < self.groups.len() ==> (#[trigger] self.groups[g]).routes != (
            #[trigger] self.groups[h]).routes
        &&& self.ring > 0 ==> {
            &&& self.groups.len() > 0
            &&& self.ring == 2 * self.groups[0].experts
        }
    }
}

/// A plan that streams nothing.
pub open spec fn whole(full: int, policy: Word) -> PlanView {
    PlanView {
        bands: Seq::empty(),
        groups: Seq::empty(),
        regions: Seq::empty(),
        alias_of: Map::empty(),
        resident_of: Map::empty(),
        host_of: Map::empty(),
        slots: 0,
        ring: 0,
        prefill_min: 0,
        per_slot: 0,
        pairs: 0,
        policy,
        device_bytes: full as u64,
        host_bytes: 0,
    }
}

/// The seats a policy gives the pool, and what said so.
pub open spec fn sized(m: Measures, bands: nat, align: int, policy: Policy, free: Option<u64>) -> Result<
    (u32, Word),
    Fault,
> {
    let least = m.need + m.ring;
    let cap = (m.ceiling + m.ring) as nat;
    let ring_bytes = seat_bytes(m.regions, align, m.ring) as u64;
    match policy {
        Policy::Off => Ok((0, Word::Off)),
        Policy::Budget(budget) => {
            let floor = m.dense + seat_bytes(m.regions, align, least);
            if budget < floor {
                Err(
                    Fault::Residency(
                        Refusal::BudgetBelowFloor {
                            budget,
                            dense: m.dense as u64,
                            bands: bands as usize,
                            need: m.need,
                            fan: m.fan,
                            ring: m.ring as u32,
                            ring_bytes,
                            floor: floor as u64,
                        },
                    ),
                )
            } else {
                Ok(
                    (
                        (most(m.regions, align, budget - m.dense, cap) - m.ring) as u32,
                        Word::Budget(budget),
                    ),
                )
            }
        },
        Policy::Slots(n) => if n < m.need {
            Err(Fault::Residency(Refusal::SlotsBelowFloor { slots: n, need: m.need, fan: m.fan }))
        } else {
            Ok((n, Word::Slots(n)))
        },
        Policy::Auto { headroom } => match free {
            None => Err(Fault::Residency(Refusal::NoFreeRam)),
            Some(free) => {
                let left = if free < headroom { 0 } else { free - headroom };
                let usable = if left < m.dense { 0 } else { left - m.dense };
                if seat_bytes(m.regions, align, least) > usable {
                    Err(
                        Fault::Residency(
                            Refusal::RamBelowFloor {
                                free,
                                headroom,
                                dense: m.dense as u64,
                                usable: usable as u64,
                                need: m.need,
                                per_slot: strides_sum(m.regions, m.regions.len()) as u64,
                                ring: m.ring as u32,
                                ring_bytes,
                            },
                        ),
                    )
                } else {
                    Ok(
                        (
                            (most(m.regions, align, usable, cap) - m.ring) as u32,
                            Word::Auto { free, headroom, dense: m.dense as u64 },
                        ),
                    )
                }
            },
        },
    }
}

/// Bands and groups with the pool's seats in place of every expert's.
pub open spec fn seated_bands(bands: Seq<BandPlan>, slots: u32) -> Seq<BandPlan> {
    Seq::new(bands.len(), |b: int| BandPlan { slots, ..bands[b] })
}

pub open spec fn seated_groups(groups: Seq<GroupView>, slots: u32) -> Seq<GroupView> {
    Seq::new(groups.len(), |g: int| GroupView { slots, ..groups[g] })
}

/// The plan of the groups found, at this many seats.
pub open spec fn streaming(f: Found, m: Measures, align: int, slots: u32, policy: Word) -> PlanView {
    let total = slots + m.ring;
    let n = f.bands.len();
    PlanView {
        bands: seated_bands(f.bands, slots),
        groups: seated_groups(f.groups, slots),
        regions: m.regions,
        alias_of: aliases(m.regions, f.bands, n),
        resident_of: reserved(f.bands, total as u32, n),
        host_of: host_starts(f.bands, n),
        slots,
        ring: m.ring as u32,
        prefill_min: m.prefill_min as u32,
        per_slot: strides_sum(m.regions, m.regions.len()) as u64,
        pairs: m.pairs as u64,
        policy,
        device_bytes: (m.dense + seat_bytes(m.regions, align, total) + m.tables) as u64,
        host_bytes: host_end(f.bands, n) as u64,
    }
}

/// The plan a load runs under.
pub open spec fn drawn(
    trace: Trace,
    planes: Map<usize, Vec<usize>>,
    weights: Weights,
    policy: Policy,
    prefill: Option<u32>,
    passes: Option<bool>,
    held: Set<usize>,
    free: Option<u64>,
) -> Result<PlanView, Fault> {
    let full = weights.sum(held);
    let f = all_found(trace, planes, weights.bytes@);
    let m = measured(trace, weights, prefill, passes, held, f);
    let align = weights.align as int;
    if policy == Policy::Off {
        Ok(whole(full, Word::Off))
    } else if policy matches Policy::Budget(budget) && budget >= full {
        Ok(whole(full, Word::Whole))
    } else if f.fault is Some {
        Err(f.fault->0)
    } else if f.bands.len() == 0 {
        match policy {
            Policy::Budget(budget) => Err(
                Fault::Residency(Refusal::NothingStreams { budget, demand: full as u64 }),
            ),
            _ => Ok(whole(full, Word::Dense)),
        }
    } else {
        match sized(m, f.bands.len(), align, policy, free) {
            Ok((slots, word)) => Ok(streaming(f, m, align, slots, word)),
            Err(fault) => Err(fault),
        }
    }
}

/// Whether a policy draws a pool for these groups, rather than hold
/// everything or find nothing to stream.
pub open spec fn pools(full: int, f: Found, policy: Policy) -> bool {
    &&& policy != Policy::Off
    &&& !(policy matches Policy::Budget(budget) && budget >= full)
    &&& f.fault is None
    &&& f.bands.len() > 0
}

/// The most seats, ring included, that a policy may come to: as many as it
/// states, or up to the ceiling; none where it is refused before any is
/// counted.
pub open spec fn most_drawn(m: Measures, policy: Policy, free: Option<u64>) -> Option<int> {
    match policy {
        Policy::Off => None,
        Policy::Budget(_) => Some(m.ceiling + m.ring),
        Policy::Slots(n) => if n < m.need {
            None
        } else {
            Some(n + m.ring)
        },
        Policy::Auto { .. } => if free is None {
            None
        } else {
            Some(m.ceiling + m.ring)
        },
    }
}

/// Everything a plan counts in bytes, seats and pairs can be counted: the
/// planes' bytes, and, where a pool is drawn, what that takes.
pub open spec fn countable(
    trace: Trace,
    planes: Map<usize, Vec<usize>>,
    weights: Weights,
    policy: Policy,
    prefill: Option<u32>,
    passes: Option<bool>,
    held: Set<usize>,
    free: Option<u64>,
) -> bool {
    let f = all_found(trace, planes, weights.bytes@);
    let m = measured(trace, weights, prefill, passes, held, f);
    &&& weights.sum(held) <= u64::MAX
    &&& pools(weights.sum(held), f, policy) ==> {
        &&& m.ring <= u32::MAX
        &&& m.pairs <= u64::MAX
        &&& strides_sum(m.regions, m.regions.len()) <= u64::MAX
        &&& most_drawn(m, policy, free) matches Some(n) ==> {
            &&& n <= u32::MAX
            &&& m.dense + seat_bytes(m.regions, weights.align as int, n) + m.tables <= u64::MAX
            &&& host_end(f.bands, f.bands.len()) <= u64::MAX
        }
    }
}

#[derive(Debug, Clone)]
pub struct Plan {
    pub bands: Vec<BandPlan>,
    pub groups: Vec<GroupPlan>,
    pub regions: Vec<RegionPlan>,
    pub alias_of: BTreeMap<usize, usize>,
    pub resident_of: BTreeMap<usize, u32>,
    pub host_of: BTreeMap<usize, u64>,
    pub slots: u32,
    pub ring: u32,
    pub prefill_min: u32,
    pub per_slot: u64,
    pub pairs: u64,
    pub policy: Word,
    pub knobs: Knobs,
    pub device_bytes: u64,
    pub host_bytes: u64,
    pub gathered: gather::plan::Plan,
}

impl View for Plan {
    type V = PlanView;

    open spec fn view(&self) -> PlanView {
        PlanView {
            bands: self.bands@,
            groups: group_views(self.groups@),
            regions: region_views(self.regions@),
            alias_of: self.alias_of@,
            resident_of: self.resident_of@,
            host_of: self.host_of@,
            slots: self.slots,
            ring: self.ring,
            prefill_min: self.prefill_min,
            per_slot: self.per_slot,
            pairs: self.pairs,
            policy: self.policy,
            device_bytes: self.device_bytes,
            host_bytes: self.host_bytes,
        }
    }
}

impl Plan {
    /// What this plan gathers beside the pool.
    pub fn gathered(&self) -> (gathered: &gather::plan::Plan)
        ensures
            *gathered == self.gathered,
    {
        &self.gathered
    }

    /// Whether any expert streams.
    pub fn streams(&self) -> (streams: bool)
        ensures
            streams == (self@.bands.len() > 0),
    {
        self.bands.len() > 0
    }

    pub fn bands(&self) -> (bands: &Vec<BandPlan>)
        ensures
            bands@ == self@.bands,
    {
        &self.bands
    }

    pub fn groups(&self) -> (groups: &Vec<GroupPlan>)
        ensures
            group_views(groups@) == self@.groups,
    {
        &self.groups
    }

    pub fn regions(&self) -> (regions: &Vec<RegionPlan>)
        ensures
            region_views(regions@) == self@.regions,
    {
        &self.regions
    }

    /// Bytes one group's seat table takes on the device: where each of its
    /// experts sits in the pool, one word apiece, aligned like a plane.
    pub open spec fn table_stride(&self, align: u64) -> int {
        if self.groups@.len() == 0 {
            0
        } else {
            align_up(4 * self.groups@[0].experts, align as int)
        }
    }

    /// Bytes one group's seat table takes on the device.
    pub fn seat_table_stride(&self, align: u64) -> (bytes: u64)
        requires
            align > 0,
            self.table_stride(align) <= u64::MAX,
        ensures
            bytes == self.table_stride(align),
    {
        if self.groups.len() == 0 {
            0
        } else {
            next_multiple(4 * self.groups[0].experts as u64, align)
        }
    }

    /// Bytes every group's seat table takes, laid end to end.
    pub fn seat_tables(&self, align: u64) -> (bytes: u64)
        requires
            align > 0,
            self.table_stride(align) <= u64::MAX,
            self.table_stride(align) * self.groups@.len() <= u64::MAX,
        ensures
            bytes == self.table_stride(align) * self.groups@.len(),
    {
        self.seat_table_stride(align) * self.groups.len() as u64
    }

    /// Seats in the shared pool.
    pub fn slots(&self) -> (slots: u32)
        ensures
            slots == self@.slots,
    {
        self.slots
    }

    /// Bytes one seat holds across every region: one expert of every band.
    pub fn per_slot_bytes(&self) -> (bytes: u64)
        ensures
            bytes == self@.per_slot,
    {
        self.per_slot
    }

    /// `(layer, expert)` pairs the pool can be asked for.
    pub fn pairs(&self) -> (pairs: u64)
        ensures
            pairs == self@.pairs,
    {
        self.pairs
    }

    /// Seats past the pool's own that hold the prefill ring (two whole
    /// layers), or 0 without one.
    pub fn ring(&self) -> (ring: u32)
        ensures
            ring == self@.ring,
    {
        self.ring
    }

    /// Whether this load's reads bypass the page cache: the planes landed at
    /// load and every seat copy after.
    pub fn uncached(&self) -> (uncached: bool)
        ensures
            uncached == self.knobs.nocache,
    {
        self.knobs.nocache
    }

    /// Fires between two reports; 0 leaves only the last one.
    pub fn report_every(&self) -> (fires: u64)
        ensures
            fires == self.knobs.report_every,
    {
        self.knobs.report_every
    }

    /// The clock heater this load asks for.
    pub fn heater(&self) -> (heater: &Option<Config>)
        ensures
            *heater == self.knobs.heater,
    {
        &self.knobs.heater
    }

    /// Rows in one lane from which a fire takes the ring.
    pub fn prefill_min(&self) -> (rows: u32)
        ensures
            rows == self@.prefill_min,
    {
        self.prefill_min
    }

    /// The param whose reservation this streamed param aliases, if it is not
    /// its region's head.
    pub fn alias(&self, param: usize) -> (head: Option<usize>)
        ensures
            head == if self@.alias_of.contains_key(param) {
                Some(self@.alias_of[param])
            } else {
                None
            },
    {
        match self.alias_of.get(&param) {
            Some(head) => Some(*head),
            None => None,
        }
    }

    /// The seats this streamed param's region is placed at.
    pub fn resident(&self, param: usize) -> (seats: Option<u32>)
        ensures
            seats == if self@.resident_of.contains_key(param) {
                Some(self@.resident_of[param])
            } else {
                None
            },
    {
        match self.resident_of.get(&param) {
            Some(seats) => Some(*seats),
            None => None,
        }
    }

    /// Where this streamed param starts on the host.
    pub fn host_at(&self, param: usize) -> (at: Option<u64>)
        ensures
            at == if self@.host_of.contains_key(param) {
                Some(self@.host_of[param])
            } else {
                None
            },
    {
        match self.host_of.get(&param) {
            Some(at) => Some(*at),
            None => None,
        }
    }

    /// What the device is asked for: the planes, the pool and the slab.
    pub fn device_demand(&self) -> (bytes: u64)
        requires
            self.gathered.table matches Some(table) ==> self.device_bytes + table.device_bytes
                <= u64::MAX,
        ensures
            bytes == self@.device_bytes + match self.gathered.table {
                Some(table) => table.device_bytes as int,
                None => 0,
            },
    {
        self.device_bytes + self.gathered.device_demand()
    }

    /// What the host is asked for: nothing, whatever is held there.
    pub fn host_demand(&self) -> (bytes: u64)
        ensures
            bytes == 0,
    {
        0
    }

    /// What the streamed planes take on the host.
    pub fn source_bytes(&self) -> (bytes: u64)
        ensures
            bytes == self@.host_bytes,
    {
        self.host_bytes
    }
}

} // verus!
