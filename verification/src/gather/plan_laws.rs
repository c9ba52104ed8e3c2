//! What holds of every table that is planned to be gathered.

use vstd::arithmetic::div_mod::lemma_fundamental_div_mod;
use vstd::prelude::*;

use crate::fault::Fault;
use crate::gather::plan::{
    companion_fault, hashed, hasher, hasher_at, heads, host_map, host_sum, planned, rows_of, search,
    seats_for, slabs, table_fault, table_of, with_companions, TableView,
};
use crate::trace::{Trace, ValueId};
use crate::weights::{lemma_align_up, Weights};

verus! {

/// The heads counted are the most any hasher has.
pub proof fn the_widest_hasher_counts(trace: Trace, n: nat)
    ensures
        match heads(trace, n) {
            None => forall|i: int| 0 <= i < n ==> #[trigger] trace.ngram_at(i) is None,
            Some(wide) => {
                &&& forall|i: int|
                    0 <= i < n ==> (#[trigger] trace.ngram_at(i) matches Some(ngram) ==> ngram.primes@.len()
                        <= wide)
                &&& exists|i: int|
                    0 <= i < n && #[trigger] trace.ngram_at(i) is Some && trace.ngram_at(
                        i,
                    )->0.primes@.len() == wide
            },
        },
    decreases n,
{
    if n > 0 {
        the_widest_hasher_counts(trace, (n - 1) as nat);
        if let Some(wide) = heads(trace, n) {
            if heads(trace, (n - 1) as nat) == Some(wide) {
                let i = choose|i: int|
                    0 <= i < n - 1 && #[trigger] trace.ngram_at(i) is Some && trace.ngram_at(
                        i,
                    )->0.primes@.len() == wide;
                assert(trace.ngram_at(i) is Some);
            } else {
                assert(trace.ngram_at(n - 1) is Some);
            }
        }
    }
}

/// The hasher run ahead is the first whose state is a cache.
pub proof fn the_first_hasher_with_a_cache_is_run(trace: Trace, n: nat)
    ensures
        match hasher(trace, n) {
            None => forall|i: int| 0 <= i < n ==> #[trigger] hasher_at(trace, i) is None,
            Some(_) => exists|i: int|
                0 <= i < n && #[trigger] hasher_at(trace, i) == hasher(trace, n) && forall|j: int|
                    0 <= j < i ==> #[trigger] hasher_at(trace, j) is None,
        },
    decreases n,
{
    if n > 0 {
        the_first_hasher_with_a_cache_is_run(trace, (n - 1) as nat);
        if hasher(trace, n) is Some {
            if hasher(trace, (n - 1) as nat) is Some {
                let i = choose|i: int|
                    0 <= i < n - 1 && #[trigger] hasher_at(trace, i) == hasher(trace, (n - 1) as nat)
                        && forall|j: int| 0 <= j < i ==> #[trigger] hasher_at(trace, j) is None;
                assert(hasher_at(trace, i) == hasher(trace, n));
            } else {
                assert(hasher_at(trace, n - 1) == hasher(trace, n));
            }
        }
    }
}

/// A slab has a seat for every row a fire can gather, and for no more rows
/// than there are, but one at least.
pub proof fn a_slab_has_a_seat_a_row(max_tokens: u32, heads: nat, rows: u64)
    requires
        rows > 0,
    ensures
        ({
            let seats = seats_for(max_tokens, heads, rows);
            &&& seats >= 1
            &&& seats <= rows
            &&& seats >= max_tokens * heads || seats == rows || seats == u32::MAX
            &&& max_tokens * heads > 0 ==> seats <= max_tokens * heads
        }),
{
    assert(max_tokens * heads >= 0) by (nonlinear_arith);
}

/// A plane's slab is the least multiple of the alignment that holds a row a
/// seat, and a table's is all of its planes'.
pub proof fn a_plane_takes_its_rows(strides: Seq<u64>, stride: u64, seats: int, align: int)
    requires
        align > 0,
        seats >= 0,
    ensures
        slabs(Seq::<u64>::empty(), seats, align, 0) == 0,
        ({
            let more = strides.push(stride);
            let takes = slabs(more, seats, align, more.len()) - slabs(strides, seats, align, strides.len());
            &&& takes % align == 0
            &&& seats * stride <= takes < seats * stride + align
        }),
{
    lemma_same_slabs(strides, strides.push(stride), seats, align, strides.len());
    let bytes = seats * stride;
    assert(bytes >= 0) by (nonlinear_arith)
        requires
            seats >= 0,
            bytes == seats * stride,
    ;
    lemma_align_up(bytes, align);
}

proof fn lemma_same_slabs(a: Seq<u64>, b: Seq<u64>, seats: int, align: int, n: nat)
    requires
        n <= a.len(),
        n <= b.len(),
        forall|i: int| 0 <= i < n ==> a[i] == b[i],
    ensures
        slabs(a, seats, align, n) == slabs(b, seats, align, n),
    decreases n,
{
    if n > 0 {
        lemma_same_slabs(a, b, seats, align, (n - 1) as nat);
    }
}

proof fn lemma_companions(trace: Trace, params: Seq<usize>, rows: u64, n: nat)
    requires
        n <= params.len(),
    ensures
        companion_fault(trace, params, rows, n) is None <==> forall|i: int|
            0 <= i < n ==> rows_of(trace, #[trigger] params[i] as int) == rows,
    decreases n,
{
    if n > 0 {
        lemma_companions(trace, params, rows, (n - 1) as nat);
        if companion_fault(trace, params, rows, n) is Some && companion_fault(
            trace,
            params,
            rows,
            (n - 1) as nat,
        ) is None {
            assert(rows_of(trace, params[n - 1] as int) != rows);
        }
    }
}

/// The node that names the table this search found, and all that name one.
proof fn lemma_search(
    trace: Trace,
    planes: Map<usize, Vec<usize>>,
    weights: Weights,
    max_tokens: u32,
    n: nat,
)
    requires
        trace.wf(),
        search(trace, planes, weights, max_tokens, n).fault is None,
        n <= trace.nodes@.len(),
    ensures
        match search(trace, planes, weights, max_tokens, n).table {
            None => forall|i: int| 0 <= i < n ==> #[trigger] trace.table_at(i) is None,
            Some(table) => {
                let codes = table.params[0];
                &&& codes < trace.params@.len()
                &&& table == table_of(trace, planes, weights, max_tokens, codes)
                &&& table_fault(trace, planes, codes) is None
                &&& exists|i: int| 0 <= i < n && #[trigger] trace.table_at(i) is Some
                &&& forall|i: int|
                    0 <= i < n ==> (#[trigger] trace.table_at(i) matches Some(id) ==> trace.weight(id)
                        == Some(codes as int))
            },
        },
    decreases n,
{
    if n > 0 {
        let s = search(trace, planes, weights, max_tokens, (n - 1) as nat);
        assert(s.fault is None);
        lemma_search(trace, planes, weights, max_tokens, (n - 1) as nat);
        if let Some(id) = trace.table_at(n - 1) {
            if let Some(w) = trace.weight(id) {
                if s.table is None {
                    assert(with_companions(planes, w as usize)[0] == w as usize);
                }
            }
        }
    }
}

/// The table that is gathered: the one plane every gathering node names,
/// first, and its companions, all of as many rows; a row's bytes are a plane's
/// share of it; and it is gathered only under a budget that holds the slab
/// and not the planes.
pub proof fn a_gathered_table_is_the_one_named(
    trace: Trace,
    planes: Map<usize, Vec<usize>>,
    weights: Weights,
    budget: Option<u64>,
    max_tokens: u32,
)
    requires
        trace.wf(),
        weights.align > 0,
        weights.bytes@.len() == trace.params@.len(),
    ensures
        ({
            let said = planned(trace, planes, weights, budget, max_tokens);
            let n = trace.nodes@.len();
            &&& budget is None || budget->0 >= weights.sum(Set::empty()) ==> said
                == Ok::<Option<TableView>, Fault>(None)
            &&& said matches Ok(Some(table)) ==> {
                let codes = table.params[0];
                &&& budget is Some && table.device_bytes <= budget->0 < weights.sum(Set::empty())
                &&& exists|i: int| 0 <= i < n && #[trigger] trace.table_at(i) is Some
                &&& forall|i: int|
                    0 <= i < n ==> (#[trigger] trace.table_at(i) matches Some(id) ==> trace.weight(id)
                        == Some(codes as int))
                &&& table.name == trace.params@[codes as int].name
                &&& if planes.contains_key(codes) {
                    table.params == seq![codes] + planes[codes]@
                } else {
                    table.params == seq![codes]
                }
                &&& table.rows > 0
                &&& forall|i: int|
                    0 <= i < table.params.len() ==> {
                        let shape = trace.params@[#[trigger] table.params[i] as int].shape@;
                        shape.len() > 0 && shape[0] == table.rows
                    }
                &&& table.strides.len() == table.params.len()
                &&& forall|i: int|
                    0 <= i < table.params.len() ==> {
                        let bytes = weights.bytes@[table.params[i] as int];
                        let taken = table.rows * #[trigger] table.strides[i];
                        taken <= bytes < taken + table.rows
                    }
                &&& heads(trace, n) matches Some(wide) && table.seats == seats_for(
                    max_tokens,
                    wide,
                    table.rows,
                )
                &&& table.device_bytes == slabs(
                    table.strides,
                    table.seats as int,
                    weights.align as int,
                    table.strides.len(),
                )
                &&& table.hasher == hasher(trace, n)
            }
            &&& budget is Some && budget->0 < weights.sum(Set::empty()) ==> {
                let s = search(trace, planes, weights, max_tokens, n);
                &&& s.fault is Some ==> said == Err::<Option<TableView>, Fault>(s.fault->0)
                &&& s.fault is None ==> (said is Ok <==> s.table is None || s.table->0.device_bytes
                    <= budget->0)
            }
        }),
{
    let n = trace.nodes@.len();
    let s = search(trace, planes, weights, max_tokens, n);
    if s.fault is None {
        lemma_search(trace, planes, weights, max_tokens, n);
        if let Some(table) = s.table {
            let codes = table.params[0];
            let params = with_companions(planes, codes);
            let rows = rows_of(trace, codes as int);
            lemma_companions(trace, params, rows, params.len());
            assert forall|i: int| 0 <= i < table.params.len() implies {
                let shape = trace.params@[#[trigger] table.params[i] as int].shape@;
                shape.len() > 0 && shape[0] == table.rows
            } by {
                assert(rows_of(trace, params[i] as int) == rows);
            }
            assert forall|i: int| 0 <= i < table.params.len() implies {
                let bytes = weights.bytes@[table.params[i] as int];
                let taken = table.rows * #[trigger] table.strides[i];
                taken <= bytes < taken + table.rows
            } by {
                let bytes = weights.bytes@[table.params[i] as int];
                lemma_fundamental_div_mod(bytes as int, rows as int);
            }
        }
    }
}

/// The planes of a table lie end to end at the source, in their order.
pub proof fn planes_lie_end_to_end_at_the_source(params: Seq<usize>, bytes: Seq<u64>, i: int)
    requires
        params.no_duplicates(),
        forall|j: int| 0 <= j < params.len() ==> #[trigger] params[j] < bytes.len(),
        0 <= i < params.len(),
        host_sum(params, bytes, params.len()) <= u64::MAX,
    ensures
        ({
            let at = host_map(params, bytes, params.len());
            let end = at[params[i]] + bytes[params[i] as int];
            &&& at.contains_key(params[i])
            &&& i == 0 ==> at[params[i]] == 0
            &&& if i + 1 < params.len() {
                end == at[params[i + 1]]
            } else {
                end == host_sum(params, bytes, params.len())
            }
        }),
{
    lemma_host_at(params, bytes, params.len(), i);
    lemma_host_mono(params, bytes, i as nat, params.len());
    if i + 1 < params.len() {
        lemma_host_at(params, bytes, params.len(), i + 1);
        lemma_host_mono(params, bytes, (i + 1) as nat, params.len());
    }
}

proof fn lemma_host_at(params: Seq<usize>, bytes: Seq<u64>, n: nat, i: int)
    requires
        params.no_duplicates(),
        0 <= i < n <= params.len(),
    ensures
        host_map(params, bytes, n).contains_key(params[i]),
        host_map(params, bytes, n)[params[i]] == host_sum(params, bytes, i as nat) as u64,
    decreases n,
{
    if i < n - 1 {
        lemma_host_at(params, bytes, (n - 1) as nat, i);
        assert(params[i] != params[n - 1]);
    }
}

proof fn lemma_host_mono(params: Seq<usize>, bytes: Seq<u64>, n: nat, m: nat)
    requires
        n <= m <= params.len(),
    ensures
        0 <= host_sum(params, bytes, n) <= host_sum(params, bytes, m),
    decreases m,
{
    if n < m {
        lemma_host_mono(params, bytes, n, (m - 1) as nat);
    } else if n > 0 {
        lemma_host_mono(params, bytes, (n - 1) as nat, (n - 1) as nat);
    }
}

/// A hasher says what its node does, its end of text cut to what a token id
/// holds; a node whose state is no cache has none.
pub proof fn a_hasher_says_what_its_node_does(trace: Trace, i: int)
    ensures
        match trace.ngram_at(i) {
            None => hasher_at(trace, i) is None,
            Some(ngram) => {
                let id = ngram.state.0 as int;
                let cached = id < trace.values@.len() && trace.values@[id] is Cache;
                &&& hasher_at(trace, i) is Some <==> cached
                &&& hasher_at(trace, i) matches Some(h) ==> {
                    &&& h.mults == ngram.mults@ && h.primes == ngram.primes@ && h.offsets == ngram.offsets@
                    &&& h.heads_per_ngram == ngram.heads_per_ngram as usize
                    &&& h.state_row == trace.values@[id]->Cache_0 as usize
                    &&& i32::MIN <= ngram.eos <= i32::MAX ==> h.eos == ngram.eos
                    &&& !(i32::MIN <= ngram.eos <= i32::MAX) ==> h.eos == i32::MAX
                }
            },
        },
{
}

/// A region shows the ids its hashers make, and nothing else.
pub proof fn a_region_shows_what_hashes_in_it(trace: Trace, nodes: Seq<u32>, i: int, id: ValueId)
    requires
        0 <= i < nodes.len(),
    ensures
        hashed(trace, nodes).len() == nodes.len(),
        hashed(trace, nodes)[i] == Some(id) <==> {
            &&& nodes[i] < trace.nodes@.len()
            &&& trace.ngram_at(nodes[i] as int) is Some
            &&& trace.ngram_at(nodes[i] as int)->0.ngram_ids == id
        },
{
}

} // verus!
