use std::collections::{BTreeMap, BTreeSet};

use engine_metal::experts::source::Source;
use engine_metal::fault::{Fault, Name, Refusal, What, Why};
use engine_metal::gather::plan::{cuts, Hasher, Plan};
use engine_metal::gather::slab::{token_ids, Slab};
use engine_metal::ids::push_word;
use engine_metal::trace::{
    Attention, Def, Layout, Ngram, Node, Operation, Param, Region, Trace, ValueId,
};
use engine_metal::weights::Weights;

fn param(name: &str, shape: Vec<u64>) -> Param {
    Param { name: name.to_string(), shape }
}

fn ngram() -> Ngram {
    Ngram {
        ngram_ids: ValueId(2),
        state: ValueId(1),
        eos: 9,
        mults: vec![3, 5],
        primes: vec![97, 89],
        offsets: vec![0, 97],
        heads_per_ngram: 1,
    }
}

/// A table of a hundred rows with one companion plane, gathered by what an
/// n-gram hasher of two heads names.
fn gathering() -> Trace {
    Trace {
        params: vec![
            param("dense", vec![10]),
            param("table", vec![100, 16]),
            param("scales", vec![100, 1]),
        ],
        values: vec![Def::Weight(1), Def::Cache(4), Def::Other],
        nodes: vec![
            Node {
                name: "hash".to_string(),
                op: Operation::Attention(Attention::PleNgramIds(ngram())),
            },
            Node {
                name: "gather".to_string(),
                op: Operation::Layout(Layout::EmbedConcat { table: ValueId(0) }),
            },
        ],
    }
}

fn weights() -> Weights {
    Weights { bytes: vec![500, 1600, 400], align: 16 }
}

fn companions() -> BTreeMap<usize, Vec<usize>> {
    BTreeMap::from([(1, vec![2])])
}

fn plan(max_tokens: u32) -> Plan {
    Plan::of(&gathering(), &companions(), &weights(), Some(2400), max_tokens).unwrap()
}

fn slab(max_tokens: u32, filed: bool, pread: bool) -> Slab {
    let plan = plan(max_tokens);
    let source = Source::from_host(2000, filed, None, None, plan.host_bands());
    Slab::open(&plan, &source, &vec![0, 5000, 6000], pread, true).unwrap()
}

fn raw(ids: &[i32]) -> Vec<u8> {
    let mut bytes = Vec::new();
    for &id in ids {
        push_word(&mut bytes, id as u32);
    }
    bytes
}

fn failed() -> Fault {
    Fault::Residency(Refusal::EndOfFile { at: 1, short: 1 })
}

#[test]
fn a_table_is_planned_as_a_slab_of_seats() {
    let plan = plan(3);
    assert!(plan.gathers());
    let table = plan.table().unwrap();
    assert_eq!((table.name.as_str(), table.rows, table.seats), ("table", 100, 6));
    assert_eq!((table.params.clone(), table.strides.clone()), (vec![1, 2], vec![16, 4]));
    // 6 rows of 16 bytes, and 6 of 4, each rounded up to 16.
    assert_eq!(table.slab(), 96 + 32);
    assert_eq!(plan.device_demand(), 128);
    assert_eq!(plan.source_bytes(), 2000);
    assert_eq!(table.stored(16), 2000);
    assert_eq!(plan.host_bands(), BTreeMap::from([(1, 0), (2, 1600)]));
    assert_eq!((plan.resident(2), plan.resident(0)), (Some(6), None));
    assert_eq!((plan.vocab(1), plan.vocab(2)), (Some(6), None));
    assert_eq!((plan.host_at(2), plan.host_at(0)), (Some(1600), None));
    assert_eq!(plan.params(), BTreeSet::from([1, 2]));
    let hasher: &Hasher = table.hasher.as_ref().unwrap();
    assert_eq!((hasher.eos, hasher.state_row, hasher.heads_per_ngram), (9, 4, 1));
    assert_eq!(hasher.span(), 1);
}

#[test]
fn a_slab_has_no_more_seats_than_the_table_rows() {
    assert_eq!(plan(1000).table().unwrap().seats, 100);
    assert_eq!(plan(0).table().unwrap().seats, 1);
}

#[test]
fn a_budget_that_holds_the_table_gathers_nothing() {
    let gathers = |budget| {
        Plan::of(&gathering(), &companions(), &weights(), budget, 3).unwrap().gathers()
    };
    assert!(!gathers(None));
    assert!(!gathers(Some(2512)));
    assert!(gathers(Some(2511)));
}

#[test]
fn a_slab_the_budget_does_not_hold_is_refused() {
    match Plan::of(&gathering(), &companions(), &weights(), Some(127), 3) {
        Err(Fault::Residency(Refusal::SlabAboveBudget {
            budget,
            name,
            table,
            seats,
            slab,
            rows,
        })) => {
            assert_eq!((budget, name.as_str(), table), (127, "table", 1600));
            assert_eq!((seats, slab, rows), (6, 128, 100));
        }
        other => panic!("{other:?}"),
    }
}

#[test]
fn what_is_no_table_is_refused() {
    let of = |trace: &Trace| Plan::of(trace, &companions(), &weights(), Some(1000), 3);
    let mut trace = gathering();
    trace.values[0] = Def::Other;
    assert!(matches!(
        of(&trace),
        Err(Fault::Param { name: Name::Value(0), why: Why::TableNotWeight })
    ));
    let mut trace = gathering();
    trace.nodes.remove(0);
    assert!(matches!(
        of(&trace),
        Err(Fault::Param { name: Name::Param(name), why: Why::NoHasher }) if name == "table"
    ));
    let mut trace = gathering();
    trace.params[1].shape = vec![0, 16];
    assert!(matches!(of(&trace), Err(Fault::Param { why: Why::NoRows, .. })));
    let mut trace = gathering();
    trace.params[2].shape = vec![99, 1];
    assert!(matches!(
        of(&trace),
        Err(Fault::Param { name: Name::Param(name), why: Why::CompanionRows }) if name == "scales"
    ));
    let mut trace = gathering();
    trace.values.push(Def::Weight(0));
    trace.nodes.push(Node {
        name: "second".to_string(),
        op: Operation::Layout(Layout::EmbedConcat { table: ValueId(3) }),
    });
    assert!(matches!(
        of(&trace),
        Err(Fault::Param { name: Name::Param(name), why: Why::SecondTable }) if name == "dense"
    ));
}

#[test]
fn a_region_is_cut_behind_its_hasher() {
    let mut trace = gathering();
    trace.nodes.push(Node {
        name: "hash again".to_string(),
        op: Operation::Attention(Attention::PleNgramIdsChunked(Ngram {
            ngram_ids: ValueId(5),
            ..ngram()
        })),
    });
    let template = vec![Region { nodes: vec![1] }, Region { nodes: vec![0, 1, 7] }];
    assert_eq!(cuts(&trace, &template).unwrap(), vec![None, Some(ValueId(2))]);
    let template = vec![Region { nodes: vec![0, 2] }];
    assert!(matches!(
        cuts(&trace, &template),
        Err(Fault::Residency(Refusal::TwoHashers { region: 0, first: 2, second: 5 }))
    ));
}

#[test]
fn a_slab_wants_its_offsets() {
    let plan = plan(3);
    let source = Source::from_host(2000, true, None, None, plan.host_bands());
    assert!(matches!(
        Slab::open(&plan, &source, &vec![0, 5000], true, true),
        Err(Fault::Param { name: Name::Index(2), why: Why::NoSeatOffset })
    ));
    let source = Source::from_host(2000, true, None, None, BTreeMap::new());
    assert!(matches!(
        Slab::open(&plan, &source, &vec![0, 5000, 6000], true, true),
        Err(Fault::Param { name: Name::Index(1), why: Why::NoSourceOffset })
    ));
    assert!(matches!(
        Slab::open(&Plan { table: None }, &source, &vec![], true, true),
        Err(Fault::Param { name: Name::Table, why: Why::GathersNothing })
    ));
}

#[test]
fn ids_are_rewritten_to_the_seats_of_their_rows() {
    let mut slab = slab(3, true, true);
    slab.fire(Ok(0));
    let seating = slab.segment(2, &raw(&[7, 7, -1, 100, 50]), Ok(0)).unwrap().unwrap();
    assert_eq!(seating.landing, vec![(7, 0), (50, 1)]);
    assert_eq!(
        seating.jobs,
        vec![
            (5000, 7 * 16, 16),
            (6000, 1600 + 7 * 4, 4),
            (5016, 50 * 16, 16),
            (6004, 1600 + 50 * 4, 4),
        ]
    );
    // A row the table lacks is sent past the last seat.
    assert_eq!(slab.land(seating, Ok(()), 30).unwrap(), raw(&[0, 0, -1, 6, 1]));
    assert_eq!(slab.this_fire(), (2, 2, 30));
    let again = slab.segment(1, &raw(&[50]), Ok(0)).unwrap().unwrap();
    assert!(again.jobs.is_empty());
    assert_eq!(slab.land(again, Ok(()), 5).unwrap(), raw(&[1]));
    assert_eq!(slab.this_fire(), (2, 2, 30));
    assert_eq!(slab.motion(), (4, 1));
    assert_eq!(slab.residency().demanded, 2);
    slab.fire(Ok(0));
    assert_eq!(slab.residency().demanded, 0);
    assert_eq!(slab.this_fire(), (0, 0, 0));
}

#[test]
fn a_segment_without_rows_asks_for_nothing() {
    let mut slab = slab(3, true, true);
    assert!(matches!(slab.segment(0, &raw(&[1]), Err(failed())), Ok(None)));
}

#[test]
fn a_right_guess_is_resident_when_the_device_names_it() {
    let mut slab = slab(3, true, true);
    slab.fire(Ok(0));
    let jobs = slab.prefetch(&vec![vec![7, -1, 7, 100], vec![50]]);
    assert_eq!(jobs.len(), 4);
    assert!(slab.prefetching(&jobs, Ok(())).unwrap());
    let seating = slab.segment(1, &raw(&[50, 8]), Ok(11)).unwrap().unwrap();
    assert_eq!(seating.landing, vec![(8, 2)]);
    assert_eq!(slab.land(seating, Ok(()), 4).unwrap(), raw(&[1, 2]));
    // Three rows read, one of them no guess had landed.
    assert_eq!(slab.this_fire(), (3, 1, 15));
    assert_eq!(slab.motion().0, 6);
}

#[test]
fn a_prefetch_that_fails_is_told_at_the_cut() {
    let mut slab = slab(3, true, true);
    slab.fire(Ok(0));
    let jobs = slab.prefetch(&vec![vec![7]]);
    slab.prefetching(&jobs, Ok(())).unwrap();
    assert!(slab.segment(1, &raw(&[7]), Err(failed())).is_err());
    // The seat it was to land in has gone back.
    assert_eq!(slab.residency().demanded, 0);
    let seating = slab.segment(1, &raw(&[7]), Ok(0)).unwrap().unwrap();
    assert_eq!(seating.landing, vec![(7, 0)]);
}

#[test]
fn a_prefetch_that_fails_gives_back_its_own_seats_alone() {
    let mut slab = slab(3, true, true);
    slab.fire(Ok(0));
    let seating = slab.segment(1, &raw(&[1, 2]), Ok(0)).unwrap().unwrap();
    slab.land(seating, Ok(()), 0).unwrap();
    let (copies, _) = slab.motion();
    let jobs = slab.prefetch(&vec![vec![2, 7, 8]]);
    assert!(slab.prefetching(&jobs, Ok(())).unwrap());
    assert_eq!(slab.residency().demanded, 4);
    assert!(slab.join(Err(failed())).is_err());
    assert_eq!(slab.residency().demanded, 2);
    assert_eq!(slab.in_seat, vec![1, 2, -1, -1, -1, -1]);
    assert!(slab.pending.is_empty() && !slab.inflight);
    assert_eq!(slab.motion().0, copies);
    // A full fire still finds every seat.
    let seating = slab.segment(2, &raw(&[1, 3, 4, 5, 6]), Ok(0)).unwrap().unwrap();
    assert_eq!(seating.landing, vec![(3, 2), (4, 3), (5, 4), (6, 5)]);
}

#[test]
fn a_prefetch_the_store_refuses_gives_its_seats_back() {
    let mut slab = slab(3, true, true);
    slab.fire(Ok(0));
    let jobs = slab.prefetch(&vec![vec![7, 8]]);
    assert!(slab.prefetching(&jobs, Err(failed())).is_err());
    assert_eq!(slab.residency().demanded, 0);
    let seating = slab.segment(1, &raw(&[8]), Ok(0)).unwrap().unwrap();
    assert_eq!(seating.landing, vec![(8, 0)]);
}

#[test]
fn guesses_stop_where_the_seats_do() {
    let mut slab = slab(1, true, true);
    slab.fire(Ok(0));
    let jobs = slab.prefetch(&vec![vec![1, 2, 3], vec![4]]);
    assert_eq!(jobs.len(), 4);
    assert!(slab.prefetching(&jobs, Ok(())).unwrap());
    // Wrong guesses hold every seat: the row the device names finds none.
    assert!(matches!(
        slab.segment(1, &raw(&[9]), Ok(0)),
        Err(Fault::Residency(Refusal::SlabFull { seats: 2, name })) if name == "table"
    ));
}

#[test]
fn a_fire_within_its_ceiling_finds_every_seat() {
    let mut slab = slab(3, true, true);
    slab.fire(Ok(0));
    let seating = slab.segment(3, &raw(&[1, 2, 3, 4, 5, 6]), Ok(0)).unwrap().unwrap();
    assert_eq!(seating.landing.len(), 6);
    slab.land(seating, Ok(()), 0).unwrap();
    assert!(slab.segment(1, &raw(&[7]), Ok(0)).is_err());
}

#[test]
fn a_mapped_slab_copies_up_to_its_fault() {
    let mut slab = slab(1, false, true);
    assert!(!slab.pread && !slab.prefetch);
    assert!(slab.prefetch(&vec![vec![1]]).is_empty());
    slab.fire(Ok(0));
    let seating = slab.segment(2, &raw(&[1, 2, 3]), Ok(0)).unwrap().unwrap();
    assert_eq!(seating.landing, vec![(1, 0), (2, 1)]);
    assert!(matches!(
        slab.land(seating, Ok(()), 0),
        Err(Fault::Residency(Refusal::SlabFull { seats: 2, .. }))
    ));
    // What came before the fault was copied, and is there.
    assert_eq!(slab.motion().0, 4);
    let seating = slab.segment(1, &raw(&[2]), Ok(0)).unwrap().unwrap();
    assert!(seating.jobs.is_empty());
    assert_eq!(slab.land(seating, Ok(()), 0).unwrap(), raw(&[1]));
}

#[test]
fn a_mapped_copy_that_fails_leaves_its_row_unseated() {
    let mut slab = slab(2, false, false);
    slab.fire(Ok(0));
    let seating = slab.segment(2, &raw(&[1, 2, 3]), Ok(0)).unwrap().unwrap();
    assert_eq!(seating.jobs.len(), 6);
    // The second plane of row 2 fails.
    assert!(slab.land(seating, Err((3, failed())), 0).is_err());
    assert_eq!(slab.motion().0, 3);
    assert_eq!(slab.seat_of, BTreeMap::from([(1, 0)]));
    assert_eq!(slab.in_seat, vec![1, -1, -1, -1]);
    assert_eq!(slab.residency().demanded, 1);
    let seating = slab.segment(1, &raw(&[1, 2]), Ok(0)).unwrap().unwrap();
    assert_eq!(seating.landing, vec![(2, 1)]);
}

#[test]
fn rows_that_could_not_be_read_are_read_again() {
    let mut slab = slab(3, true, true);
    slab.fire(Ok(0));
    let seating = slab.segment(1, &raw(&[1]), Ok(0)).unwrap().unwrap();
    slab.land(seating, Ok(()), 0).unwrap();
    let seating = slab.segment(1, &raw(&[1, 2, 3]), Ok(0)).unwrap().unwrap();
    assert_eq!(seating.landing, vec![(2, 1), (3, 2)]);
    assert!(slab.land(seating, Err((0, failed())), 9).is_err());
    assert_eq!(slab.seat_of, BTreeMap::from([(1, 0)]));
    assert_eq!(slab.in_seat, vec![1, -1, -1, -1, -1, -1]);
    assert_eq!((slab.motion().0, slab.this_fire()), (2, (1, 1, 0)));
    let seating = slab.segment(1, &raw(&[3, 1]), Ok(0)).unwrap().unwrap();
    assert_eq!(seating.landing, vec![(3, 1)]);
    assert_eq!(slab.land(seating, Ok(()), 0).unwrap(), raw(&[1, 0]));
}

#[test]
fn a_cut_refused_for_want_of_seats_reads_nothing() {
    let mut slab = slab(1, true, true);
    slab.fire(Ok(0));
    assert!(slab.segment(2, &raw(&[1, 2, 3]), Ok(0)).is_err());
    assert!(slab.seat_of.is_empty());
    assert_eq!(slab.residency().demanded, 0);
    let seating = slab.segment(1, &raw(&[2]), Ok(0)).unwrap().unwrap();
    assert_eq!(seating.landing, vec![(2, 0)]);
}

#[test]
fn a_row_past_the_source_is_refused() {
    let plan = plan(2);
    let source = Source::from_host(1700, false, None, None, plan.host_bands());
    let mut slab = Slab::open(&plan, &source, &vec![0, 5000, 6000], true, true).unwrap();
    slab.fire(Ok(0));
    let seating = slab.segment(1, &raw(&[3, 30]), Ok(0)).unwrap().unwrap();
    // Row 30's codes are inside the source, its scales are not.
    assert_eq!(seating.landing, vec![(3, 0)]);
    assert_eq!(seating.jobs.len(), 3);
    assert!(matches!(
        slab.land(seating, Ok(()), 0),
        Err(Fault::Ceiling { what: What::RowSource, need: 1724, have: 1700 })
    ));
    assert_eq!((slab.motion().0, slab.residency().demanded), (3, 1));
}

#[test]
fn a_slab_says_how_it_reads() {
    assert_eq!(
        slab(3, true, true).describe(),
        "n-gram rows: 6 seats of `table`, read by uncached pread, prefetched as the fire opens"
    );
    assert_eq!(
        slab(3, false, true).describe(),
        "n-gram rows: 6 seats of `table`, read by the artifact's mapping"
    );
}

#[test]
fn tokens_no_id_can_say_are_ends_of_sequence() {
    assert_eq!(token_ids(&[0, 7, 0x8000_0000, u32::MAX], 2), vec![0, 7, 2, 2]);
}
