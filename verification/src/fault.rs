//! What a load or a fire is refused with.

use vstd::prelude::*;

verus! {

/// What a fault about one plane calls it.
#[derive(Debug)]
pub enum Name {
    /// A declared parameter, by its own name.
    Param(String),
    /// A value of the trace, by number.
    Value(u32),
    /// A parameter the store or the source knows nothing of, by number.
    Index(usize),
    /// The gathered table, before there is one.
    Table,
}

/// Why one plane is refused.
#[derive(Debug, Clone, Copy, PartialEq, Eq, Structural)]
pub enum Why {
    /// Read at a routed matmul's expert-indexed port and not a weight.
    BandNotWeight,
    /// Two routed groups of one plan declare different expert counts.
    ArityDiffers,
    /// A routed band that does not declare `[experts, ...]`.
    BandShape,
    /// A routed band whose bytes do not divide by its expert count.
    BandBytes,
    /// Read as a concatenating gather's table and not a weight.
    TableNotWeight,
    /// A second gathered table in one plan.
    SecondTable,
    /// A gathered table in a plan without a hasher.
    NoHasher,
    /// A gathered table that declares no rows.
    NoRows,
    /// A companion plane whose row count is not the table's.
    CompanionRows,
    /// Opened over a plan that gathers nothing.
    GathersNothing,
    /// The store laid down no offset for it.
    NoSeatOffset,
    /// The source states no row-0 offset for it.
    NoSourceOffset,
}

/// What a read in flight is for.
#[derive(Debug, Clone, Copy, PartialEq, Eq, Structural)]
pub enum Flight {
    /// Experts a route prediction names.
    Experts,
    /// A half of the prefill ring.
    Ring,
    /// Rows a fire is expected to ask for.
    Rows,
}

/// Why a load or a fire cannot be made resident.
#[derive(Debug)]
pub enum Refusal {
    /// A routing vector names an expert the group does not have.
    NoSuchExpert { expert: u32, name: String, experts: u32 },
    /// A prefill segment's routing vector names an expert its group does
    /// not have.
    NotInRing { expert: u32, name: String, experts: u32 },
    /// A routing vector read for a segment in passes names an expert its
    /// group does not have.
    NotInPass { expert: u32, name: String, experts: u32 },
    /// Every seat of the pool is held.
    PoolFull { slots: u32, name: String },
    /// Every seat of a pool in passes is read by the segment running now.
    PoolPinned { slots: u32, name: String },
    /// The prefill ring reads whole layers from a file, and there is none.
    RingWantsFile,
    /// The thread of a read in flight panicked.
    ReaderPanicked { reader: Flight },
    /// A value is read as a routing vector and no router of the plan writes
    /// it.
    NoRouter { value: u32, op: String },
    /// One region holds two routers, and a cut serves one.
    TwoRouters { region: usize, first: u32, second: u32 },
    /// The budget is short of the plan, and nothing in the plan streams.
    NothingStreams { budget: u64, demand: u64 },
    /// The budget is short of the dense planes and the fewest seats a pool
    /// can have: a layer's, or those `fan` experts a row take in passes.
    BudgetBelowFloor {
        budget: u64,
        dense: u64,
        bands: usize,
        need: u32,
        fan: Option<u32>,
        ring: u32,
        ring_bytes: u64,
        floor: u64,
    },
    /// Fewer seats asked for than a pool can have.
    SlotsBelowFloor { slots: u32, need: u32, fan: Option<u32> },
    /// The host's free memory could not be read.
    NoFreeRam,
    /// What is free, less the headroom and the dense planes, is short of the
    /// fewest seats a pool can have.
    RamBelowFloor {
        free: u64,
        headroom: u64,
        dense: u64,
        usable: u64,
        need: u32,
        per_slot: u64,
        ring: u32,
        ring_bytes: u64,
    },
    /// The budget does not hold even the row slab of a gathered table.
    SlabAboveBudget { budget: u64, name: String, table: u64, seats: u32, slab: u64, rows: u64 },
    /// One region holds two n-gram hashers, and a cut serves one.
    TwoHashers { region: usize, first: u32, second: u32 },
    /// A fire demands more distinct rows than the slab seats.
    SlabFull { seats: u32, name: String },
    /// The headroom is no byte count.
    NotByteCount { word: String },
    /// The cache word is neither off, automatic, nor a seat count.
    NotSeatCount { word: String },
    /// The source states no offset for a band the plan streams.
    NoBandOffset { name: String, param: usize },
    /// A read's offset is past what a file offset can say.
    OffsetTooFar { at: u64 },
    /// A read of the source failed.
    ReadFailed { want: usize, at: u64, why: String },
    /// A read of the source met the end of the file.
    EndOfFile { at: u64, short: u64 },
}

/// The step of mapping a file that was refused.
#[derive(Debug, Clone, Copy, PartialEq, Eq, Structural)]
pub enum Step {
    Open,
    Stat,
    Size,
    Place,
}

/// Why a file is not mapped.
#[derive(Debug)]
pub enum Unmapped {
    /// The system said so.
    Said(String),
    /// There is nothing in it.
    Empty,
    /// So many bytes do not fit this process's address space.
    TooLong(u64),
    /// The kernel answered a null mapping.
    Null,
}

/// What ran out.
#[derive(Debug, Clone, Copy, PartialEq, Eq, Structural)]
pub enum What {
    SeatSource,
    RowSource,
    Reservation,
}

#[derive(Debug)]
pub enum Fault {
    Residency(Refusal),
    Param { name: Name, why: Why },
    Ceiling { what: What, need: u64, have: u64 },
    Mapped { step: Step, file: String, reason: Unmapped },
    /// What a fire reads through a handle it minted no row for.
    Unbound { what: String },
    /// This build has no device behind it.
    Deviceless,
}

} // verus!
