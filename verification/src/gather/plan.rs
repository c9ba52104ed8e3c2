//! Which table is gathered, and the slab its rows are seated in.

use std::collections::{BTreeMap, BTreeSet};
use vstd::prelude::*;

use crate::cuts::{a_cut_serves_one_value, scan, Scan};
use crate::experts::trace::{planes_wf, Attachments};
use crate::fault::{Fault, Name, Refusal, Why};
use crate::trace::{Def, Region, Trace, ValueId};
use crate::weights::{align_up, lemma_align_up, lemma_align_up_mono, next_multiple, Weights};

verus! {

/// The n-gram hasher's constants and where its state lives, so the host can
/// name a fire's rows before the device does.
#[derive(Debug, Clone, PartialEq, Eq)]
pub struct Hasher {
    pub eos: i32,
    pub mults: Vec<u64>,
    pub primes: Vec<u64>,
    pub offsets: Vec<u64>,
    pub heads_per_ngram: usize,
    /// The recurrent cache row holding each slot's last `span` token ids.
    pub state_row: usize,
}

pub struct HasherView {
    pub eos: i32,
    pub mults: Seq<u64>,
    pub primes: Seq<u64>,
    pub offsets: Seq<u64>,
    pub heads_per_ngram: usize,
    pub state_row: usize,
}

impl View for Hasher {
    type V = HasherView;

    open spec fn view(&self) -> HasherView {
        HasherView {
            eos: self.eos,
            mults: self.mults@,
            primes: self.primes@,
            offsets: self.offsets@,
            heads_per_ngram: self.heads_per_ngram,
            state_row: self.state_row,
        }
    }
}

impl Hasher {
    /// How many tokens behind a row's own its hash looks.
    pub fn span(&self) -> (span: usize)
        ensures
            span == if self.mults@.len() == 0 { 0 } else { self.mults@.len() - 1 },
    {
        let n: usize = self.mults.len();
        n.saturating_sub(1)
    }

    /// The same constants again.
    pub fn copy(&self) -> (copy: Hasher)
        ensures
            copy@ == self@,
    {
        Hasher {
            eos: self.eos,
            mults: numbers(&self.mults),
            primes: numbers(&self.primes),
            offsets: numbers(&self.offsets),
            heads_per_ngram: self.heads_per_ngram,
            state_row: self.state_row,
        }
    }
}

pub open spec fn hasher_view(hasher: Option<Hasher>) -> Option<HasherView> {
    match hasher {
        Some(hasher) => Some(hasher@),
        None => None,
    }
}

/// The gathered table: its planes, its rows, and the seats of its slab.
#[derive(Debug, Clone)]
pub struct Table {
    pub name: String,
    pub params: Vec<usize>,
    pub rows: u64,
    pub seats: u32,
    pub strides: Vec<u64>,
    pub hasher: Option<Hasher>,
    pub host_of: BTreeMap<usize, u64>,
    pub host_bytes: u64,
    pub device_bytes: u64,
}

pub struct TableView {
    pub name: String,
    pub params: Seq<usize>,
    pub rows: u64,
    pub seats: u32,
    pub strides: Seq<u64>,
    pub hasher: Option<HasherView>,
    pub host_of: Map<usize, u64>,
    pub host_bytes: int,
    pub device_bytes: int,
}

impl View for Table {
    type V = TableView;

    open spec fn view(&self) -> TableView {
        TableView {
            name: self.name,
            params: self.params@,
            rows: self.rows,
            seats: self.seats,
            strides: self.strides@,
            hasher: hasher_view(self.hasher),
            host_of: self.host_of@,
            host_bytes: self.host_bytes as int,
            device_bytes: self.device_bytes as int,
        }
    }
}

/// What `rows` rows take of the first `n` planes of these strides.
pub open spec fn slabs(strides: Seq<u64>, rows: int, align: int, n: nat) -> int
    decreases n,
{
    if n == 0 {
        0
    } else {
        slabs(strides, rows, align, (n - 1) as nat) + align_up(rows * strides[n - 1], align)
    }
}

pub proof fn lemma_slabs_mono(strides: Seq<u64>, rows: int, align: int, n: nat, m: nat)
    requires
        align > 0,
        rows >= 0,
        n <= m <= strides.len(),
    ensures
        0 <= slabs(strides, rows, align, n) <= slabs(strides, rows, align, m),
    decreases m,
{
    if m > 0 {
        assert(rows * strides[m - 1] >= 0) by (nonlinear_arith)
            requires
                rows >= 0,
                strides[m - 1] >= 0,
        ;
        lemma_align_up(rows * strides[m - 1], align);
        if n < m {
            lemma_slabs_mono(strides, rows, align, n, (m - 1) as nat);
        } else {
            lemma_slabs_mono(strides, rows, align, (n - 1) as nat, (n - 1) as nat);
        }
    }
}

/// What `rows` rows take of every plane of these strides.
fn slab_bytes(strides: &Vec<u64>, rows: u64, align: u64) -> (bytes: u64)
    requires
        align > 0,
        slabs(strides@, rows as int, align as int, strides@.len()) <= u64::MAX,
    ensures
        bytes == slabs(strides@, rows as int, align as int, strides@.len()),
{
    let mut bytes: u64 = 0;
    let mut i: usize = 0;
    while i < strides.len()
        invariant
            align > 0,
            slabs(strides@, rows as int, align as int, strides@.len()) <= u64::MAX,
            i <= strides@.len(),
            bytes == slabs(strides@, rows as int, align as int, i as nat),
        decreases strides@.len() - i,
    {
        proof {
            lemma_slabs_mono(strides@, rows as int, align as int, i as nat, i as nat);
            lemma_slabs_mono(
                strides@,
                rows as int,
                align as int,
                (i + 1) as nat,
                strides@.len(),
            );
            assert(rows * strides@[i as int] >= 0) by (nonlinear_arith)
                requires
                    rows >= 0,
                    strides@[i as int] >= 0,
            ;
            lemma_align_up(rows * strides@[i as int], align as int);
        }
        bytes = bytes + next_multiple(rows * strides[i], align);
        i += 1;
    }
    bytes
}

impl Table {
    /// What the whole table takes, every plane of it aligned.
    pub fn stored(&self, align: u64) -> (bytes: u64)
        requires
            align > 0,
            slabs(self.strides@, self.rows as int, align as int, self.strides@.len()) <= u64::MAX,
        ensures
            bytes == slabs(self.strides@, self.rows as int, align as int, self.strides@.len()),
    {
        slab_bytes(&self.strides, self.rows, align)
    }

    /// What the slab takes on the device.
    pub fn slab(&self) -> (bytes: u64)
        ensures
            bytes == self.device_bytes,
    {
        self.device_bytes
    }
}

/// The widest hasher among the first `n` nodes.
pub open spec fn heads(trace: Trace, n: nat) -> Option<nat>
    decreases n,
{
    if n == 0 {
        None
    } else {
        let held = heads(trace, (n - 1) as nat);
        match trace.ngram_at(n - 1) {
            None => held,
            Some(ngram) => match held {
                Some(wide) => if wide > ngram.primes@.len() {
                    held
                } else {
                    Some(ngram.primes@.len())
                },
                None => Some(ngram.primes@.len()),
            },
        }
    }
}

/// The end-of-sequence id as the kernels hold it.
pub open spec fn narrow(eos: i64) -> i32 {
    if i32::MIN <= eos <= i32::MAX {
        eos as i32
    } else {
        i32::MAX
    }
}

/// What node `i` says as a hasher whose state is a row of the recurrent
/// cache.
pub open spec fn hasher_at(trace: Trace, i: int) -> Option<HasherView> {
    match trace.ngram_at(i) {
        None => None,
        Some(ngram) => if ngram.state.0 < trace.values@.len() && trace.values@[ngram.state.0 as int] is Cache {
            Some(
                HasherView {
                    eos: narrow(ngram.eos),
                    mults: ngram.mults@,
                    primes: ngram.primes@,
                    offsets: ngram.offsets@,
                    heads_per_ngram: ngram.heads_per_ngram as usize,
                    state_row: trace.values@[ngram.state.0 as int]->Cache_0 as usize,
                },
            )
        } else {
            None
        },
    }
}

/// The first such among the first `n` nodes.
pub open spec fn hasher(trace: Trace, n: nat) -> Option<HasherView>
    decreases n,
{
    if n == 0 {
        None
    } else if hasher(trace, (n - 1) as nat) is Some {
        hasher(trace, (n - 1) as nat)
    } else {
        hasher_at(trace, n - 1)
    }
}

/// A table's planes: its own, and those attached to it.
pub open spec fn with_companions(planes: Map<usize, Vec<usize>>, codes: usize) -> Seq<usize> {
    if planes.contains_key(codes) {
        seq![codes] + planes[codes]@
    } else {
        seq![codes]
    }
}

pub open spec fn rows_of(trace: Trace, p: int) -> u64 {
    if trace.params@[p].shape@.len() == 0 {
        0
    } else {
        trace.params@[p].shape@[0]
    }
}

/// The first plane that has other rows than the table.
pub open spec fn companion_fault(trace: Trace, params: Seq<usize>, rows: u64, n: nat) -> Option<Fault>
    decreases n,
{
    if n == 0 {
        None
    } else if companion_fault(trace, params, rows, (n - 1) as nat) is Some {
        companion_fault(trace, params, rows, (n - 1) as nat)
    } else if rows_of(trace, params[n - 1] as int) != rows {
        Some(
            Fault::Param {
                name: Name::Param(trace.params@[params[n - 1] as int].name),
                why: Why::CompanionRows,
            },
        )
    } else {
        None
    }
}

/// A seat for every row a fire of `max_tokens` tokens can name, and at
/// least one: `heads` a token, but no more than there are rows.
pub open spec fn seats_for(max_tokens: u32, heads: nat, rows: u64) -> u32 {
    let want = if max_tokens * heads < rows { max_tokens * heads } else { rows as int };
    if want < 1 {
        1
    } else if want > u32::MAX {
        u32::MAX
    } else {
        want as u32
    }
}

/// What the first `n` planes take, end to end.
pub open spec fn host_sum(params: Seq<usize>, bytes: Seq<u64>, n: nat) -> int
    decreases n,
{
    if n == 0 {
        0
    } else {
        host_sum(params, bytes, (n - 1) as nat) + bytes[params[n - 1] as int]
    }
}

/// Where each of the first `n` planes starts, laid end to end.
pub open spec fn host_map(params: Seq<usize>, bytes: Seq<u64>, n: nat) -> Map<usize, u64>
    decreases n,
{
    if n == 0 {
        Map::empty()
    } else {
        host_map(params, bytes, (n - 1) as nat).insert(
            params[n - 1],
            host_sum(params, bytes, (n - 1) as nat) as u64,
        )
    }
}

/// What the first `n` planes take, each aligned.
pub open spec fn held_bytes(params: Seq<usize>, bytes: Seq<u64>, align: int, n: nat) -> int
    decreases n,
{
    if n == 0 {
        0
    } else {
        held_bytes(params, bytes, align, (n - 1) as nat) + align_up(
            bytes[params[n - 1] as int] as int,
            align,
        )
    }
}

/// Any plane and its companions take a number of bytes that can be counted.
pub open spec fn companions_fit(trace: Trace, planes: Map<usize, Vec<usize>>, weights: Weights) -> bool {
    forall|codes: usize|
        codes < trace.params@.len() ==> held_bytes(
            #[trigger] with_companions(planes, codes),
            weights.bytes@,
            weights.align as int,
            with_companions(planes, codes).len(),
        ) <= u64::MAX
}

/// Why the table of parameter `codes` cannot be gathered.
pub open spec fn table_fault(trace: Trace, planes: Map<usize, Vec<usize>>, codes: usize) -> Option<Fault> {
    let name = Name::Param(trace.params@[codes as int].name);
    let params = with_companions(planes, codes);
    if heads(trace, trace.nodes@.len()) is None {
        Some(Fault::Param { name, why: Why::NoHasher })
    } else if rows_of(trace, codes as int) == 0 {
        Some(Fault::Param { name, why: Why::NoRows })
    } else {
        companion_fault(trace, params, rows_of(trace, codes as int), params.len())
    }
}

/// The table of parameter `codes`, gathered.
pub open spec fn table_of(
    trace: Trace,
    planes: Map<usize, Vec<usize>>,
    weights: Weights,
    max_tokens: u32,
    codes: usize,
) -> TableView {
    let n = trace.nodes@.len();
    let params = with_companions(planes, codes);
    let rows = rows_of(trace, codes as int);
    let seats = seats_for(max_tokens, heads(trace, n)->0, rows);
    let strides = Seq::new(
        params.len(),
        |i: int| (weights.bytes@[params[i] as int] / rows) as u64,
    );
    TableView {
        name: trace.params@[codes as int].name,
        params,
        rows,
        seats,
        strides,
        hasher: hasher(trace, n),
        host_of: host_map(params, weights.bytes@, params.len()),
        host_bytes: host_sum(params, weights.bytes@, params.len()),
        device_bytes: slabs(strides, seats as int, weights.align as int, params.len()),
    }
}

/// What looking for gathered tables comes to: one, none, or a fault.
pub struct Search {
    pub table: Option<TableView>,
    pub fault: Option<Fault>,
}

/// The search over the first `n` nodes.
pub open spec fn search(
    trace: Trace,
    planes: Map<usize, Vec<usize>>,
    weights: Weights,
    max_tokens: u32,
    n: nat,
) -> Search
    decreases n,
{
    if n == 0 {
        Search { table: None, fault: None }
    } else {
        let s = search(trace, planes, weights, max_tokens, (n - 1) as nat);
        if s.fault is Some {
            s
        } else {
            match trace.table_at(n - 1) {
                None => s,
                Some(id) => match trace.weight(id) {
                    None => Search {
                        fault: Some(
                            Fault::Param { name: Name::Value(id.0), why: Why::TableNotWeight },
                        ),
                        ..s
                    },
                    Some(w) => match s.table {
                        Some(held) => if held.params[0] == w {
                            s
                        } else {
                            Search {
                                fault: Some(
                                    Fault::Param {
                                        name: Name::Param(trace.params@[w].name),
                                        why: Why::SecondTable,
                                    },
                                ),
                                ..s
                            }
                        },
                        None => match table_fault(trace, planes, w as usize) {
                            Some(fault) => Search { fault: Some(fault), ..s },
                            None => Search {
                                table: Some(
                                    table_of(trace, planes, weights, max_tokens, w as usize),
                                ),
                                ..s
                            },
                        },
                    },
                },
            }
        }
    }
}

/// What a plan gathers under a budget: nothing while the budget holds every
/// plane whole, and otherwise the one table a concatenating gather reads.
pub open spec fn planned(
    trace: Trace,
    planes: Map<usize, Vec<usize>>,
    weights: Weights,
    budget: Option<u64>,
    max_tokens: u32,
) -> Result<Option<TableView>, Fault> {
    let s = search(trace, planes, weights, max_tokens, trace.nodes@.len());
    match budget {
        None => Ok(None),
        Some(budget) => if budget >= weights.sum(Set::empty()) {
            Ok(None)
        } else if s.fault is Some {
            Err(s.fault->0)
        } else {
            match s.table {
                None => Ok(None),
                Some(table) => if budget < table.device_bytes {
                    Err(
                        Fault::Residency(
                            Refusal::SlabAboveBudget {
                                budget,
                                name: table.name,
                                table: weights.bytes@[table.params[0] as int],
                                seats: table.seats,
                                slab: table.device_bytes as u64,
                                rows: table.rows,
                            },
                        ),
                    )
                } else {
                    Ok(Some(table))
                },
            }
        },
    }
}

/// The table a load gathers, if it gathers one.
#[derive(Debug, Clone)]
pub struct Plan {
    pub table: Option<Table>,
}

pub open spec fn table_view(table: Option<Table>) -> Option<TableView> {
    match table {
        Some(table) => Some(table@),
        None => None,
    }
}

fn numbers(from: &Vec<u64>) -> (copy: Vec<u64>)
    ensures
        copy@ == from@,
{
    let mut copy: Vec<u64> = Vec::new();
    let mut i: usize = 0;
    while i < from.len()
        invariant
            i <= from@.len(),
            copy@ == from@.take(i as int),
        decreases from@.len() - i,
    {
        copy.push(from[i]);
        i += 1;
        assert(copy@ =~= from@.take(i as int));
    }
    assert(from@.take(from@.len() as int) =~= from@);
    copy
}

/// The widest hasher of a trace, and the constants of the first whose state
/// the host can read.
fn hashers(trace: &Trace) -> (said: (Option<usize>, Option<Hasher>))
    ensures
        match said.0 {
            Some(wide) => heads(*trace, trace.nodes@.len()) == Some(wide as nat),
            None => heads(*trace, trace.nodes@.len()) is None,
        },
        match said.1 {
            Some(first) => hasher(*trace, trace.nodes@.len()) == Some(first@),
            None => hasher(*trace, trace.nodes@.len()) is None,
        },
{
    let mut wide: Option<usize> = None;
    let mut first: Option<Hasher> = None;
    let mut i: usize = 0;
    while i < trace.nodes.len()
        invariant
            i <= trace.nodes@.len(),
            match wide {
                Some(wide) => heads(*trace, i as nat) == Some(wide as nat),
                None => heads(*trace, i as nat) is None,
            },
            match first {
                Some(first) => hasher(*trace, i as nat) == Some(first@),
                None => hasher(*trace, i as nat) is None,
            },
        decreases trace.nodes@.len() - i,
    {
        if let Some(ngram) = trace.nodes[i].ngram() {
            assert(trace.ngram_at(i as int) == Some(*ngram));
            let here: usize = ngram.primes.len();
            wide = match wide {
                Some(held) => if held > here {
                    Some(held)
                } else {
                    Some(here)
                },
                None => Some(here),
            };
            if first.is_none() && (ngram.state.0 as usize) < trace.values.len() {
                if let Def::Cache(row) = trace.values[ngram.state.0 as usize] {
                    let eos: i32 = if ngram.eos >= -0x8000_0000 && ngram.eos <= 0x7fff_ffff {
                        ngram.eos as i32
                    } else {
                        i32::MAX
                    };
                    first = Some(
                        Hasher {
                            eos,
                            mults: numbers(&ngram.mults),
                            primes: numbers(&ngram.primes),
                            offsets: numbers(&ngram.offsets),
                            heads_per_ngram: ngram.heads_per_ngram as usize,
                            state_row: row as usize,
                        },
                    );
                }
            }
        } else {
            assert(trace.ngram_at(i as int) is None);
        }
        i += 1;
    }
    (wide, first)
}

/// A table's planes: its own, and those attached to it.
fn companions(planes: &Attachments, codes: usize) -> (params: Vec<usize>)
    ensures
        params@ == with_companions(planes@, codes),
{
    let mut params: Vec<usize> = Vec::new();
    params.push(codes);
    if let Some(more) = planes.get(&codes) {
        let mut i: usize = 0;
        while i < more.len()
            invariant
                i <= more@.len(),
                params@ == seq![codes] + more@.take(i as int),
            decreases more@.len() - i,
        {
            params.push(more[i]);
            i += 1;
            assert(params@ =~= seq![codes] + more@.take(i as int));
        }
        assert(more@.take(more@.len() as int) =~= more@);
    }
    assert(params@ =~= with_companions(planes@, codes));
    params
}

proof fn lemma_held(params: Seq<usize>, bytes: Seq<u64>, align: int, n: nat, m: nat)
    requires
        align > 0,
        n <= m <= params.len(),
    ensures
        0 <= host_sum(params, bytes, n) <= host_sum(params, bytes, m),
        host_sum(params, bytes, m) <= held_bytes(params, bytes, align, m),
    decreases m,
{
    if m > 0 {
        lemma_align_up(bytes[params[m - 1] as int] as int, align);
        if n < m {
            lemma_held(params, bytes, align, n, (m - 1) as nat);
        } else {
            lemma_held(params, bytes, align, (n - 1) as nat, (n - 1) as nat);
        }
    }
}

/// A slab takes no more than the planes it is cut from.
proof fn lemma_slab_within(
    params: Seq<usize>,
    bytes: Seq<u64>,
    strides: Seq<u64>,
    rows: int,
    seats: int,
    align: int,
    n: nat,
)
    requires
        align > 0,
        0 <= seats <= rows,
        0 < rows,
        n <= params.len() == strides.len(),
        forall|i: int|
            0 <= i < params.len() ==> #[trigger] strides[i] as int == bytes[params[i] as int] as int / rows,
    ensures
        slabs(strides, seats, align, n) <= held_bytes(params, bytes, align, n),
    decreases n,
{
    if n > 0 {
        lemma_slab_within(params, bytes, strides, rows, seats, align, (n - 1) as nat);
        let plane = bytes[params[n - 1] as int] as int;
        let stride = strides[n - 1] as int;
        assert(strides[n - 1] as int == plane / rows);
        assert(0 <= seats * stride <= plane) by (nonlinear_arith)
            requires
                stride == plane / rows,
                0 <= seats <= rows,
                0 < rows,
                plane >= 0,
        ;
        lemma_align_up_mono(seats * stride, plane, align);
    }
}

/// The table of parameter `codes`, gathered, or why it cannot be.
fn gather_table(
    trace: &Trace,
    planes: &Attachments,
    weights: &Weights,
    max_tokens: u32,
    codes: usize,
    wide: Option<usize>,
    first: Option<Hasher>,
) -> (table: Result<Table, Fault>)
    requires
        trace.wf(),
        planes_wf(*trace, planes@),
        weights.align > 0,
        weights.bytes@.len() == trace.params@.len(),
        companions_fit(*trace, planes@, *weights),
        codes < trace.params@.len(),
        match wide {
            Some(wide) => heads(*trace, trace.nodes@.len()) == Some(wide as nat),
            None => heads(*trace, trace.nodes@.len()) is None,
        },
        match first {
            Some(first) => hasher(*trace, trace.nodes@.len()) == Some(first@),
            None => hasher(*trace, trace.nodes@.len()) is None,
        },
    ensures
        match table {
            Ok(table) => {
                &&& table_fault(*trace, planes@, codes) is None
                &&& table@ == table_of(*trace, planes@, *weights, max_tokens, codes)
            },
            Err(fault) => table_fault(*trace, planes@, codes) == Some(fault),
        },
{
    let wide: usize = match wide {
        Some(wide) => wide,
        None => {
            return Err(
                Fault::Param {
                    name: Name::Param(trace.params[codes].name.clone()),
                    why: Why::NoHasher,
                },
            );
        },
    };
    let params: Vec<usize> = companions(planes, codes);
    let rows: u64 = if trace.params[codes].shape.len() == 0 {
        0
    } else {
        trace.params[codes].shape[0]
    };
    if rows == 0 {
        return Err(
            Fault::Param { name: Name::Param(trace.params[codes].name.clone()), why: Why::NoRows },
        );
    }
    let ghost all = with_companions(planes@, codes);
    let ghost bytes = weights.bytes@;
    let ghost align = weights.align as int;
    proof {
        assert forall|i: int| 0 <= i < all.len() implies #[trigger] all[i] < trace.params@.len() by {
            if i > 0 {
                assert(all[i] == planes@[codes]@[i - 1]);
            }
        }
    }
    let mut strides: Vec<u64> = Vec::new();
    let mut i: usize = 0;
    while i < params.len()
        invariant
            params@ == all,
            all == with_companions(planes@, codes),
            forall|i: int| 0 <= i < all.len() ==> #[trigger] all[i] < trace.params@.len(),
            bytes == weights.bytes@,
            bytes.len() == trace.params@.len(),
            rows > 0,
            rows == rows_of(*trace, codes as int),
            heads(*trace, trace.nodes@.len()) is Some,
            i <= all.len(),
            companion_fault(*trace, all, rows, i as nat) is None,
            strides@.len() == i,
            forall|j: int|
                0 <= j < i ==> #[trigger] strides@[j] as int == bytes[all[j] as int] as int / rows as int,
        decreases all.len() - i,
    {
        let at: usize = params[i];
        assert(all[i as int] < trace.params@.len());
        let plane_rows: u64 = if trace.params[at].shape.len() == 0 {
            0
        } else {
            trace.params[at].shape[0]
        };
        if plane_rows != rows {
            proof {
                lemma_companion_stays(*trace, all, rows, (i + 1) as nat, all.len());
            }
            return Err(
                Fault::Param {
                    name: Name::Param(trace.params[at].name.clone()),
                    why: Why::CompanionRows,
                },
            );
        }
        strides.push(weights.bytes[at] / rows);
        i += 1;
    }
    assert(0 <= max_tokens * wide <= 0xffff_ffff * 0xffff_ffff_ffff_ffff) by (nonlinear_arith)
        requires
            0 <= max_tokens <= 0xffff_ffff,
            0 <= wide <= 0xffff_ffff_ffff_ffff,
    ;
    let demand: u128 = max_tokens as u128 * wide as u128;
    let want: u64 = if demand < rows as u128 { demand as u64 } else { rows };
    let seats: u32 = if want < 1 {
        1
    } else if want > 0xffff_ffff {
        0xffff_ffff
    } else {
        want as u32
    };
    assert(seats == seats_for(max_tokens, wide as nat, rows));
    proof {
        lemma_held(all, bytes, align, 0, all.len());
        lemma_slab_within(all, bytes, strides@, rows as int, seats as int, align, all.len());
    }
    let mut host_of: BTreeMap<usize, u64> = BTreeMap::new();
    let mut host_bytes: u64 = 0;
    let mut k: usize = 0;
    assert(host_of@ =~= Map::<usize, u64>::empty());
    while k < params.len()
        invariant
            params@ == all,
            forall|i: int| 0 <= i < all.len() ==> #[trigger] all[i] < trace.params@.len(),
            bytes == weights.bytes@,
            bytes.len() == trace.params@.len(),
            align > 0,
            held_bytes(all, bytes, align, all.len()) <= u64::MAX,
            k <= all.len(),
            host_of@ == host_map(all, bytes, k as nat),
            host_bytes == host_sum(all, bytes, k as nat),
        decreases all.len() - k,
    {
        let param: usize = params[k];
        assert(all[k as int] < trace.params@.len());
        proof {
            lemma_held(all, bytes, align, (k + 1) as nat, all.len());
        }
        host_of.insert(param, host_bytes);
        host_bytes = host_bytes + weights.bytes[param];
        k += 1;
    }
    let device_bytes: u64 = slab_bytes(&strides, seats as u64, weights.align);
    let name: String = trace.params[codes].name.clone();
    let table = Table {
        name,
        params,
        rows,
        seats,
        strides,
        hasher: first,
        host_of,
        host_bytes,
        device_bytes,
    };
    proof {
        let said = table_of(*trace, planes@, *weights, max_tokens, codes);
        assert(table@.strides =~= said.strides);
    }
    Ok(table)
}

proof fn lemma_companion_stays(trace: Trace, params: Seq<usize>, rows: u64, n: nat, m: nat)
    requires
        n <= m,
        companion_fault(trace, params, rows, n) is Some,
    ensures
        companion_fault(trace, params, rows, m) == companion_fault(trace, params, rows, n),
    decreases m,
{
    if n < m {
        lemma_companion_stays(trace, params, rows, n, (m - 1) as nat);
    }
}

proof fn lemma_search_stays(
    trace: Trace,
    planes: Map<usize, Vec<usize>>,
    weights: Weights,
    max_tokens: u32,
    n: nat,
    m: nat,
)
    requires
        n <= m,
        search(trace, planes, weights, max_tokens, n).fault is Some,
    ensures
        search(trace, planes, weights, max_tokens, m) == search(
            trace,
            planes,
            weights,
            max_tokens,
            n,
        ),
    decreases m,
{
    if n < m {
        lemma_search_stays(trace, planes, weights, max_tokens, n, (m - 1) as nat);
    }
}

impl Plan {
    /// What a load gathers under a budget: nothing while the budget holds
    /// every plane whole, and otherwise the one table a concatenating gather
    /// reads, held on the host and read through a slab of seats.
    pub fn of(
        trace: &Trace,
        planes: &Attachments,
        weights: &Weights,
        budget: Option<u64>,
        max_tokens: u32,
    ) -> (plan: Result<Plan, Fault>)
        requires
            trace.wf(),
            planes_wf(*trace, planes@),
            weights.align > 0,
            weights.bytes@.len() == trace.params@.len(),
            budget matches Some(cap) ==> {
                &&& weights.sum(Set::empty()) <= u64::MAX
                &&& cap < weights.sum(Set::empty()) ==> companions_fit(*trace, planes@, *weights)
            },
        ensures
            match plan {
                Ok(plan) => planned(*trace, planes@, *weights, budget, max_tokens) == Ok::<
                    Option<TableView>,
                    Fault,
                >(table_view(plan.table)),
                Err(fault) => planned(*trace, planes@, *weights, budget, max_tokens) == Err::<
                    Option<TableView>,
                    Fault,
                >(fault),
            },
    {
        let cap: u64 = match budget {
            Some(cap) => cap,
            None => {
                return Ok(Plan { table: None });
            },
        };
        let none: BTreeSet<usize> = BTreeSet::new();
        assert(none@ =~= Set::<usize>::empty());
        let full: u64 = weights.total(&none);
        if cap >= full {
            return Ok(Plan { table: None });
        }
        let (wide, first) = hashers(trace);
        let mut first: Option<Hasher> = first;
        let mut found: Option<Table> = None;
        let mut i: usize = 0;
        while i < trace.nodes.len()
            invariant
                trace.wf(),
                planes_wf(*trace, planes@),
                weights.align > 0,
                weights.bytes@.len() == trace.params@.len(),
                companions_fit(*trace, planes@, *weights),
                cap < weights.sum(Set::empty()),
                budget == Some(cap),
                match wide {
                    Some(wide) => heads(*trace, trace.nodes@.len()) == Some(wide as nat),
                    None => heads(*trace, trace.nodes@.len()) is None,
                },
                found is None ==> match first {
                    Some(first) => hasher(*trace, trace.nodes@.len()) == Some(first@),
                    None => hasher(*trace, trace.nodes@.len()) is None,
                },
                i <= trace.nodes@.len(),
                ({
                    let s = search(*trace, planes@, *weights, max_tokens, i as nat);
                    &&& s.fault is None
                    &&& s.table == table_view(found)
                }),
                found matches Some(table) ==> {
                    &&& table.params@.len() > 0
                    &&& table.params@[0] < trace.params@.len()
                },
            decreases trace.nodes@.len() - i,
        {
            let ghost more = search(*trace, planes@, *weights, max_tokens, (i + 1) as nat);
            if let Some(id) = trace.nodes[i].table() {
                let codes: usize = match trace.weight_at(id) {
                    Some(codes) => codes,
                    None => {
                        proof {
                            lemma_search_stays(
                                *trace,
                                planes@,
                                *weights,
                                max_tokens,
                                (i + 1) as nat,
                                trace.nodes@.len(),
                            );
                        }
                        return Err(
                            Fault::Param { name: Name::Value(id.0), why: Why::TableNotWeight },
                        );
                    },
                };
                assert(trace.values@[id.0 as int] is Weight);
                assert(codes < trace.params@.len());
                match &found {
                    Some(held) => {
                        if held.params[0] != codes {
                            proof {
                                lemma_search_stays(
                                    *trace,
                                    planes@,
                                    *weights,
                                    max_tokens,
                                    (i + 1) as nat,
                                    trace.nodes@.len(),
                                );
                            }
                            return Err(
                                Fault::Param {
                                    name: Name::Param(trace.params[codes].name.clone()),
                                    why: Why::SecondTable,
                                },
                            );
                        }
                    },
                    None => {
                        let mine = first.take();
                        match gather_table(
                            trace,
                            planes,
                            weights,
                            max_tokens,
                            codes,
                            wide,
                            mine,
                        ) {
                            Ok(table) => {
                                assert(table@.params[0] == codes);
                                found = Some(table);
                            },
                            Err(why) => {
                                proof {
                                    lemma_search_stays(
                                        *trace,
                                        planes@,
                                        *weights,
                                        max_tokens,
                                        (i + 1) as nat,
                                        trace.nodes@.len(),
                                    );
                                }
                                return Err(why);
                            },
                        }
                    },
                }
            }
            i += 1;
        }
        match found {
            None => Ok(Plan { table: None }),
            Some(table) => {
                if cap < table.device_bytes {
                    return Err(
                        Fault::Residency(
                            Refusal::SlabAboveBudget {
                                budget: cap,
                                name: table.name.clone(),
                                table: weights.bytes[table.params[0]],
                                seats: table.seats,
                                slab: table.device_bytes,
                                rows: table.rows,
                            },
                        ),
                    );
                }
                Ok(Plan { table: Some(table) })
            },
        }
    }

    /// Whether anything is gathered.
    pub fn gathers(&self) -> (gathers: bool)
        ensures
            gathers == (self.table is Some),
    {
        self.table.is_some()
    }

    pub fn table(&self) -> (table: Option<&Table>)
        ensures
            match table {
                Some(table) => self.table == Some(*table),
                None => self.table is None,
            },
    {
        self.table.as_ref()
    }

    /// The parameters that are gathered.
    pub open spec fn held(&self) -> Set<usize> {
        match self.table {
            Some(table) => table.params@.to_set(),
            None => Set::empty(),
        }
    }

    /// The seats a gathered parameter's rows are read through.
    pub fn resident(&self, param: usize) -> (seats: Option<u32>)
        ensures
            seats == match self.table {
                Some(table) => if table.params@.contains(param) {
                    Some(table.seats)
                } else {
                    None
                },
                None => None,
            },
    {
        if let Some(table) = &self.table {
            let mut i: usize = 0;
            while i < table.params.len()
                invariant
                    self.table == Some(*table),
                    i <= table.params@.len(),
                    forall|j: int| 0 <= j < i ==> table.params@[j] != param,
                decreases table.params@.len() - i,
            {
                if table.params[i] == param {
                    return Some(table.seats);
                }
                i += 1;
            }
        }
        None
    }

    /// Where a gathered parameter starts on the host.
    pub fn host_at(&self, param: usize) -> (at: Option<u64>)
        ensures
            at == match self.table {
                Some(table) => if table.host_of@.contains_key(param) {
                    Some(table.host_of@[param])
                } else {
                    None
                },
                None => None,
            },
    {
        match &self.table {
            Some(table) => match table.host_of.get(&param) {
                Some(at) => Some(*at),
                None => None,
            },
            None => None,
        }
    }

    /// The parameters that are gathered.
    pub fn params(&self) -> (params: BTreeSet<usize>)
        ensures
            params@ == self.held(),
    {
        let mut params: BTreeSet<usize> = BTreeSet::new();
        if let Some(table) = &self.table {
            let mut i: usize = 0;
            assert(params@ =~= table.params@.take(0).to_set());
            while i < table.params.len()
                invariant
                    i <= table.params@.len(),
                    params@ == table.params@.take(i as int).to_set(),
                decreases table.params@.len() - i,
            {
                params.insert(table.params[i]);
                proof {
                    let head = table.params@.take(i as int);
                    let more = table.params@.take(i + 1);
                    assert(more =~= head.push(table.params@[i as int]));
                    assert forall|p: usize| #[trigger] more.to_set().contains(p) <==> head.to_set().insert(
                        table.params@[i as int],
                    ).contains(p) by {
                        if head.contains(p) {
                            assert(more[head.index_of(p)] == p);
                        }
                        if more.contains(p) && p != table.params@[i as int] {
                            assert(head[more.index_of(p)] == p);
                        }
                        assert(more[i as int] == table.params@[i as int]);
                    }
                    assert(params@ =~= more.to_set());
                }
                i += 1;
            }
            assert(table.params@.take(table.params@.len() as int) =~= table.params@);
        } else {
            assert(params@ =~= Set::<usize>::empty());
        }
        params
    }

    /// What the slab takes on the device.
    pub fn device_demand(&self) -> (bytes: u64)
        ensures
            bytes == match self.table {
                Some(table) => table.device_bytes,
                None => 0,
            },
    {
        match &self.table {
            Some(table) => table.device_bytes,
            None => 0,
        }
    }

    /// What the gathered planes take on the host.
    pub fn source_bytes(&self) -> (bytes: u64)
        ensures
            bytes == match self.table {
                Some(table) => table.host_bytes,
                None => 0,
            },
    {
        match &self.table {
            Some(table) => table.host_bytes,
            None => 0,
        }
    }

    /// Where every gathered parameter starts on the host.
    pub fn host_bands(&self) -> (bands: BTreeMap<usize, u64>)
        ensures
            bands@ == match self.table {
                Some(table) => table.host_of@,
                None => Map::empty(),
            },
    {
        match &self.table {
            Some(table) => table.host_of.clone(),
            None => {
                let none: BTreeMap<usize, u64> = BTreeMap::new();
                assert(none@ =~= Map::<usize, u64>::empty());
                none
            },
        }
    }

    /// The seats an embedding over a gathered table indexes, if this
    /// parameter is that table's own plane.
    pub fn vocab(&self, param: usize) -> (seats: Option<u32>)
        ensures
            seats == match self.table {
                Some(table) => if table.params@.len() > 0 && table.params@[0] == param {
                    Some(table.seats)
                } else {
                    None
                },
                None => None,
            },
    {
        match &self.table {
            Some(table) => if table.params.len() > 0 && table.params[0] == param {
                Some(table.seats)
            } else {
                None
            },
            None => None,
        }
    }
}

/// What the nodes of a region show: the id vectors its hashers land.
pub open spec fn hashed(trace: Trace, nodes: Seq<u32>) -> Seq<Option<ValueId>> {
    Seq::new(
        nodes.len(),
        |i: int|
            if nodes[i] < trace.nodes@.len() {
                match trace.ngram_at(nodes[i] as int) {
                    Some(ngram) => Some(ngram.ngram_ids),
                    None => None,
                }
            } else {
                None
            },
    )
}

/// Where a gathered load cuts each region: behind its hasher, of which it
/// may hold one.
pub fn cuts(trace: &Trace, template: &Vec<Region>) -> (cuts: Result<Vec<Option<ValueId>>, Fault>)
    ensures
        match cuts {
            Ok(cuts) => {
                &&& cuts@.len() == template@.len()
                &&& forall|at: int|
                    0 <= at < template@.len() ==> {
                        let s = scan(hashed(*trace, (#[trigger] template@[at]).nodes@));
                        s.clash is None && cuts@[at] == s.first
                    }
            },
            Err(fault) => exists|at: int|
                0 <= at < template@.len() && {
                    let s = scan(hashed(*trace, (#[trigger] template@[at]).nodes@));
                    &&& s.clash is Some
                    &&& fault == Fault::Residency(
                        Refusal::TwoHashers {
                            region: at as usize,
                            first: s.two().0,
                            second: s.two().1,
                        },
                    )
                    &&& forall|b: int|
                        0 <= b < at ==> scan(hashed(*trace, (#[trigger] template@[b]).nodes@)).clash is None
                },
        },
{
    let mut cuts: Vec<Option<ValueId>> = Vec::new();
    let mut at: usize = 0;
    while at < template.len()
        invariant
            at <= template@.len(),
            cuts@.len() == at,
            forall|b: int|
                0 <= b < at ==> {
                    let s = scan(hashed(*trace, (#[trigger] template@[b]).nodes@));
                    s.clash is None && cuts@[b] == s.first
                },
        decreases template@.len() - at,
    {
        let nodes = &template[at].nodes;
        let ghost all = hashed(*trace, nodes@);
        let mut here = Scan { first: None, clash: None };
        let mut i: usize = 0;
        assert(all.take(0) =~= Seq::<Option<ValueId>>::empty());
        while i < nodes.len()
            invariant
                i <= nodes@.len(),
                all == hashed(*trace, nodes@),
                here == scan(all.take(i as int)),
            decreases nodes@.len() - i,
        {
            assert(all.take(i + 1).drop_last() =~= all.take(i as int));
            let node: usize = nodes[i] as usize;
            if node < trace.nodes.len() {
                match trace.nodes[node].ngram() {
                    Some(ngram) => {
                        assert(trace.ngram_at(node as int) == Some(*ngram));
                        here.see(ngram.ngram_ids);
                    },
                    None => {
                        assert(trace.ngram_at(node as int) is None);
                    },
                }
            }
            i += 1;
        }
        assert(all.take(all.len() as int) =~= all);
        proof {
            a_cut_serves_one_value(all);
        }
        if let Some(second) = here.clash {
            let first: u32 = match here.first {
                Some(first) => first.0,
                None => 0,
            };
            assert(template@[at as int].nodes@ == nodes@);
            return Err(
                Fault::Residency(Refusal::TwoHashers { region: at, first, second: second.0 }),
            );
        }
        cuts.push(here.first);
        at += 1;
    }
    Ok(cuts)
}

} // verus!
