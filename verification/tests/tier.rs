use std::collections::BTreeMap;

use engine_metal::experts::filling::Ready;
use engine_metal::experts::opening::PREFETCH_K;
use engine_metal::experts::plan::{Knobs, Plan, Policy};
use engine_metal::experts::source::Source;
use engine_metal::experts::tier::Tier;
use engine_metal::fault::{Fault, Refusal};
use engine_metal::gather;
use engine_metal::ids::push_word;
use engine_metal::trace::{Def, Linear, Node, Operation, Param, Trace, ValueId};
use engine_metal::weights::Weights;

fn param(name: &str, shape: Vec<u64>) -> Param {
    Param { name: name.to_string(), shape }
}

fn node(name: &str, linear: Linear) -> Node {
    Node { name: name.to_string(), op: Operation::Linear(linear) }
}

/// Two layers of four experts, two of them routed to at a time, each with an
/// up and a down bank.
fn layers() -> Trace {
    Trace {
        params: vec![
            param("embed", vec![10, 25]),
            param("l0.up", vec![4, 16]),
            param("l0.down", vec![4, 16]),
            param("l1.up", vec![4, 16]),
            param("l1.down", vec![4, 16]),
        ],
        values: vec![
            Def::Other,
            Def::Other,
            Def::Weight(1),
            Def::Weight(2),
            Def::Weight(3),
            Def::Weight(4),
            Def::Other,
        ],
        nodes: vec![
            node("top0", Linear::MoeTopkSoftmax { routes: ValueId(0), experts: 4, top_k: 2 }),
            node("up0", Linear::MoeMatmulSelect { bank: ValueId(2), routes: ValueId(0) }),
            node("down0", Linear::MoeMatmulSelect { bank: ValueId(3), routes: ValueId(0) }),
            node(
                "top1",
                Linear::MoeTopkSigmoid {
                    routes: ValueId(1),
                    experts: 4,
                    top_k: 2,
                    hint: Some(ValueId(6)),
                },
            ),
            node("up1", Linear::MoeMatmulSelect { bank: ValueId(4), routes: ValueId(1) }),
            node("down1", Linear::MoeMatmulSelect { bank: ValueId(5), routes: ValueId(1) }),
        ],
    }
}

fn weights() -> Weights {
    Weights { bytes: vec![1000, 400, 800, 400, 800], align: 16 }
}

fn plan(slots: u32, prefill: Option<u32>) -> Plan {
    Plan::under(
        &layers(),
        &BTreeMap::new(),
        &weights(),
        Knobs { prefill, ..Knobs::under(Policy::Slots(slots)) },
        gather::plan::Plan { table: None },
        None,
    )
    .unwrap()
}

fn tier_from(plan: &Plan, filed: bool) -> Tier {
    let source = Source::landed(plan, 2400, filed, None, None);
    Tier::open(plan, &source, &vec![0, 1008, 1520, 1008, 1520], 4000, 16, true, None).unwrap()
}

fn tier(slots: u32) -> Tier {
    tier_from(&plan(slots, Some(0)), true)
}

fn raw(ids: &[i32]) -> Vec<u8> {
    let mut bytes = Vec::new();
    for &id in ids {
        push_word(&mut bytes, id as u32);
    }
    bytes
}

/// Cut a segment of group `at`, seat its experts and land them.
fn run(tier: &mut Tier, at: usize, ids: &[i32]) {
    tier.segment_at(Ok(())).unwrap();
    let seating = tier.decide(at, &raw(ids)).unwrap();
    tier.land(seating, Ok(()), 0).unwrap();
}

fn sits(tier: &Tier, at: usize) -> Vec<Option<u32>> {
    tier.residency()[at].in_seat.clone()
}

fn short() -> Fault {
    Fault::Residency(Refusal::EndOfFile { at: 7, short: 3 })
}

#[test]
fn a_plan_without_its_source_does_not_open() {
    let plan = plan(5, Some(0));
    let source =
        Source::from_host(2400, true, None, None, BTreeMap::from([(1, 0), (2, 400), (3, 1200)]));
    match Tier::open(&plan, &source, &vec![0; 5], 0, 16, false, None) {
        Err(Fault::Residency(Refusal::NoBandOffset { name, param: 4 })) => {
            assert_eq!(name, "l1.down");
        }
        _ => panic!("the last band has no offset"),
    }
}

#[test]
fn a_tier_opens_empty() {
    let tier = tier(5);
    assert_eq!(tier.terms.tables, (4000, 16));
    assert_eq!(tier.terms.prefetch_k, PREFETCH_K);
    assert_eq!(tier.group_of(ValueId(1)), Some(1));
    assert_eq!(tier.group_of(ValueId(6)), None);
    assert_eq!(tier.hint_for(ValueId(1)), Some(ValueId(6)));
    assert_eq!(tier.hint_for(ValueId(0)), None);
    let residency = tier.residency();
    assert_eq!(residency[1].name, "l1.up");
    assert_eq!((residency[1].experts, residency[1].slots), (4, 5));
    assert_eq!(residency[1].in_seat, vec![None; 5]);
    assert_eq!(tier.report().resident, 0);
}

#[test]
fn a_segment_seats_and_lands_its_experts() {
    let mut tier = tier(5);
    assert!(!tier.begin_fire(&[1], Ok(()), Ok(()), 100).unwrap());
    tier.segment_at(Ok(())).unwrap();
    let seating = tier
        .segment_rows(0, 1, Ok(vec![vec![1, 3]]), None, Ok(raw(&[1, 3])))
        .unwrap()
        .unwrap();
    assert_eq!(seating.landing, vec![(0, 0, 1), (0, 1, 3)]);
    assert_eq!(
        seating.jobs,
        vec![
            (1008, 100, 100),
            (1520, 600, 200),
            (1108, 300, 100),
            (1720, 1000, 200),
        ]
    );
    // Not resident before the bytes are there.
    assert_eq!(sits(&tier, 0), vec![None; 5]);
    tier.land(seating, Ok(()), 5).unwrap();
    assert_eq!(sits(&tier, 0), vec![Some(1), Some(3), None, None, None]);
    let report = tier.report();
    assert_eq!((report.hits, report.misses, report.segments), (0, 2, 1));
    assert_eq!((report.resident, report.distinct), (2, 2));
    assert_eq!((report.bytes_read, report.copy_ns), (600, 5));
    assert_eq!(tier.say_seats(0, None), (4000, raw(&[0, 0, 0, 1])));
    assert_eq!(tier.motion(), (4, 1));
}

#[test]
fn a_segment_without_rows_seats_nothing() {
    let mut tier = tier(5);
    assert!(matches!(
        tier.segment_rows(0, 0, Err(short()), Some(Err(short())), Err(short())),
        Ok(None)
    ));
    assert!(tier.segment_rows(0, 1, Ok(Vec::new()), None, Err(short())).is_err());
}

#[test]
fn repeats_and_blanks_of_a_routing_vector_cost_nothing() {
    let mut tier = tier(5);
    tier.segment_at(Ok(())).unwrap();
    let seating = tier.decide(1, &raw(&[0, -1, 0, 2, 2, -7])).unwrap();
    assert_eq!(seating.landing, vec![(1, 0, 0), (1, 1, 2)]);
    tier.land(seating, Ok(()), 0).unwrap();
    assert_eq!((tier.report().hits, tier.report().misses), (0, 2));
    run(&mut tier, 1, &[2, 2]);
    assert_eq!((tier.report().hits, tier.report().misses), (1, 2));
    assert_eq!(tier.say_seats(1, None), (4016, raw(&[0, 0, 1, 0])));
}

#[test]
fn the_coldest_free_seat_is_evicted() {
    let mut tier = tier(5);
    run(&mut tier, 0, &[1, 3]);
    run(&mut tier, 1, &[0, 2]);
    // Expert 1 is hit where it sits, 0 takes the last empty seat, and 2 the
    // seat of 3, which nothing has used since.
    run(&mut tier, 0, &[1, 0, 2]);
    assert_eq!(sits(&tier, 0), vec![Some(1), Some(2), None, None, Some(0)]);
    assert_eq!(sits(&tier, 1), vec![None, None, Some(0), Some(2), None]);
    let report = tier.report();
    assert_eq!((report.hits, report.misses), (1, 6));
    assert_eq!((report.resident, report.distinct), (5, 6));
}

#[test]
fn a_whole_layer_is_seated_in_the_smallest_pool() {
    let mut tier = tier(4);
    run(&mut tier, 0, &[0, 1, 2, 3]);
    run(&mut tier, 1, &[3, 2, 1, 0]);
    assert_eq!(sits(&tier, 0), vec![None; 4]);
    assert_eq!(sits(&tier, 1), vec![Some(3), Some(2), Some(1), Some(0)]);
}

#[test]
fn a_refused_read_leaves_an_empty_seat() {
    let mut tier = tier(4);
    run(&mut tier, 0, &[0, 1, 2, 3]);
    tier.segment_at(Ok(())).unwrap();
    let seating = tier.decide(1, &raw(&[1])).unwrap();
    assert_eq!(seating.landing, vec![(1, 0, 1)]);
    assert!(matches!(
        tier.land(seating, Err(short()), 0),
        Err(Fault::Residency(Refusal::EndOfFile { at: 7, short: 3 }))
    ));
    assert_eq!(sits(&tier, 0), vec![None, Some(1), Some(2), Some(3)]);
    assert_eq!(sits(&tier, 1), vec![None; 4]);
    assert!(tier.note_wait(10, false));
    run(&mut tier, 0, &[1]);
    assert!(!tier.note_wait(10, false));
    assert!(tier.note_wait(0, true));
    assert!(tier.note_tail(0, true));
    assert_eq!(tier.report().wait_ns, 20);
}

#[test]
fn an_expert_the_group_lacks_is_refused_by_name() {
    let mut tier = tier(5);
    tier.segment_at(Ok(())).unwrap();
    match tier.decide(0, &raw(&[0, 4])) {
        Err(Fault::Residency(refusal)) => {
            assert!(matches!(
                &refusal,
                Refusal::NoSuchExpert { expert: 4, name, experts: 4 } if name == "l0.up"
            ));
            assert_eq!(
                refusal.text(),
                "a routing vector names expert 4 and `l0.up` declares 4 of them; a seat cannot \
                 be found for an expert the router does not have. This is a routing vector read \
                 at the wrong instant \u{2014} the segment cut ran against bytes some other \
                 segment wrote."
            );
        }
        other => panic!("{other:?}"),
    }
}

#[test]
fn a_prediction_is_read_ahead_and_hit() {
    let mut tier = tier(6);
    tier.segment_at(Ok(())).unwrap();
    let seating = tier
        .segment_rows(
            0,
            1,
            Ok(vec![vec![1, 3]]),
            Some(Ok(vec![vec![3, 0, -1]])),
            Ok(raw(&[1, 3])),
        )
        .unwrap()
        .unwrap();
    tier.land(seating, Ok(()), 0).unwrap();
    let ahead = tier.prefetch_after(0);
    assert_eq!(ahead.landing, vec![(1, 2, 3), (1, 3, 0)]);
    assert!(tier.spawn(ahead, Ok(())).unwrap());
    assert_eq!(sits(&tier, 1), vec![None; 6]);
    tier.segment_at(Ok(())).unwrap();
    assert_eq!(sits(&tier, 1), vec![None, None, Some(3), Some(0), None, None]);
    let seating = tier
        .segment_rows(1, 1, Ok(vec![vec![0, 2]]), None, Ok(raw(&[0, 2])))
        .unwrap()
        .unwrap();
    assert_eq!(seating.landing, vec![(1, 4, 2)]);
    let note = tier.tally.prediction;
    assert_eq!((note.total, note.misses, note.prefetched), (2, 1, 2));
    assert_eq!((note.covered, note.saved), ([1; 4], [0; 4]));
}

#[test]
fn a_read_ahead_that_refuses_gives_its_seats_back() {
    let mut tier = tier(5);
    let ahead = tier.prefetch(1, &vec![vec![2]]);
    assert_eq!(ahead.landing, vec![(1, 0, 2)]);
    assert!(tier.spawn(ahead, Ok(())).unwrap());
    assert!(tier.segment_at(Err(short())).is_err());
    assert_eq!(sits(&tier, 1), vec![None; 5]);
    // The seat goes first again.
    run(&mut tier, 0, &[0]);
    assert_eq!(sits(&tier, 0)[0], Some(0));
}

#[test]
fn nothing_is_read_ahead_without_a_file() {
    let mut tier = tier_from(&plan(5, Some(0)), false);
    let ahead = tier.prefetch(1, &vec![vec![2]]);
    assert!(ahead.jobs.is_empty() && ahead.landing.is_empty());
    assert!(!tier.spawn(ahead, Ok(())).unwrap());
}

#[test]
fn a_prefill_fire_runs_over_two_borrowed_halves() {
    let mut tier = tier_from(&plan(8, None), true);
    run(&mut tier, 0, &[2]);
    run(&mut tier, 1, &[]);
    assert!(tier.begin_fire(&[4, 32], Ok(()), Ok(()), 0).unwrap());
    // Seat 0, which held expert 2, was the last one to go.
    assert!(matches!(tier.ring_ready(0, Ok(()), 0), Ok(Ready::Fill(0))));
    assert!(!tier.ring_has(0));
    let fill = tier.ring_jobs(0, 0).unwrap();
    assert_eq!((fill.copied, fill.read), (0, 4));
    assert_eq!(fill.reads.len(), 8);
    tier.ring_fill(&fill, Ok(())).unwrap();
    assert!(tier.ring_has(0));
    assert!(matches!(tier.ring_ready(0, Ok(()), 7), Ok(Ready::Held(0))));
    let half = tier.ring_seats(0);
    assert_eq!(half, vec![1, 2, 3, 4]);
    tier.ring_lookups(0, &raw(&[0, 1, -1, 1])).unwrap();
    assert_eq!(tier.say_seats(0, Some(half.as_slice())), (4000, raw(&[1, 2, 3, 4])));
    assert_eq!(tier.ring_next(0, 0), Some((1, 1)));
    let fill = tier.ring_jobs(1, 1).unwrap();
    tier.ring_fill(&fill, Ok(())).unwrap();
    assert_eq!(tier.ring_next(1, 1), None);
    assert_eq!(tier.ring_seats(1), vec![5, 6, 7, 0]);
    let (record, due) = tier.end_fire(36, 9, Ok(())).unwrap();
    assert_eq!((record.rows, record.walk_ns, record.bytes_read), (36, 9, 2700));
    assert!(!due);
    // Each half goes back holding the layer it was filled with.
    assert_eq!(
        sits(&tier, 0),
        vec![None, Some(0), Some(1), Some(2), Some(3), None, None, None]
    );
    assert_eq!(
        sits(&tier, 1),
        vec![Some(3), None, None, None, None, Some(0), Some(1), Some(2)]
    );
    assert!(tier.report().text().ends_with(
        "; prefill ring: 2 fills, 0 experts copied from seats, 8 read (0.000 GiB), 0.0 ms waited \
         for a fill"
    ));
    assert_eq!(tier.report().ring_wait_ns, 7);
}

#[test]
fn a_fill_copies_what_the_pool_holds() {
    let mut tier = tier_from(&plan(8, None), true);
    assert!(tier.begin_fire(&[32], Ok(()), Ok(()), 0).unwrap());
    let fill = tier.ring_jobs(1, 0).unwrap();
    tier.ring_fill(&fill, Ok(())).unwrap();
    tier.end_fire(32, 0, Ok(())).unwrap();
    // Layer 1 sits in half a pool; half 1 went back empty and goes first.
    assert!(tier.begin_fire(&[32], Ok(()), Ok(()), 0).unwrap());
    assert_eq!(tier.report().resident, 0);
}

#[test]
fn a_ring_of_another_expert_is_refused() {
    let mut tier = tier_from(&plan(8, None), true);
    tier.begin_fire(&[32], Ok(()), Ok(()), 0).unwrap();
    assert!(matches!(
        tier.ring_lookups(1, &raw(&[3, 4])),
        Err(Fault::Residency(Refusal::NotInRing { expert: 4, name, experts: 4 })) if name == "l1.up"
    ));
}

#[test]
fn a_ring_wants_a_file() {
    let mut tier = tier_from(&plan(8, None), false);
    tier.begin_fire(&[32], Ok(()), Ok(()), 0).unwrap();
    assert!(matches!(
        tier.ring_jobs(0, 0),
        Err(Fault::Residency(Refusal::RingWantsFile))
    ));
}

#[test]
fn a_borrow_the_pool_cannot_meet_is_given_back() {
    let mut tier = tier_from(&plan(5, None), true);
    run(&mut tier, 0, &[1]);
    assert!(matches!(
        tier.begin_fire(&[32], Ok(()), Ok(()), 0),
        Err(Fault::Residency(Refusal::PoolFull { slots: 5, name })) if name == "l0.up"
    ));
    assert!(!tier.begin_fire(&[31], Ok(()), Ok(()), 0).unwrap());
    run(&mut tier, 0, &[0, 1, 2, 3]);
    assert_eq!(tier.report().resident, 4);
}

#[test]
fn the_last_segment_is_held_against_a_borrow() {
    let mut tier = tier_from(&plan(8, None), true);
    run(&mut tier, 0, &[2]);
    assert!(tier.begin_fire(&[32], Ok(()), Ok(()), 0).is_err());
    tier.segment_at(Ok(())).unwrap();
    assert!(tier.begin_fire(&[32], Ok(()), Ok(()), 0).unwrap());
}

#[test]
fn a_failed_fill_is_told_at_the_next_cut() {
    let mut tier = tier_from(&plan(8, None), true);
    tier.begin_fire(&[32], Ok(()), Ok(()), 0).unwrap();
    let fill = tier.ring_jobs(0, 0).unwrap();
    tier.ring_fill(&fill, Ok(())).unwrap();
    assert!(tier.ring_ready(0, Err(short()), 0).is_err());
    assert!(!tier.ring_has(0));
    tier.end_fire(32, 0, Ok(())).unwrap();
    assert_eq!(tier.report().resident, 0);
}

#[test]
fn records_are_slices_of_the_tally() {
    let mut tier = tier(5);
    tier.begin_fire(&[1], Ok(()), Ok(()), 50).unwrap();
    run(&mut tier, 0, &[1, 3]);
    tier.note_cut(11);
    let cut = tier.tally.close_cut(0, 1, 11);
    assert_eq!((cut.fire, cut.misses, cut.bytes_read, cut.cut_ns), (0, 2, 600, 11));
    run(&mut tier, 1, &[0]);
    tier.note_gpu(3);
    assert!(tier.note_tail(4, false));
    let (first, due) = tier.end_fire(1, 100, Ok(())).unwrap();
    assert_eq!((first.cuts, first.copies, first.misses, first.bytes_read), (2, 6, 3, 900));
    assert_eq!((first.cut_ns, first.gpu_cut_ns, first.gpu_tail_ns), (11, 3, 4));
    assert_eq!((first.t_ns, due), (0, false));
    tier.begin_fire(&[1], Ok(()), Ok(()), 75).unwrap();
    run(&mut tier, 0, &[1]);
    let (second, _) = tier.end_fire(1, 100, Ok(())).unwrap();
    assert_eq!((second.cuts, second.hits, second.misses), (1, 1, 0));
    assert_eq!((second.bytes_read, second.t_ns), (0, 25));
    let all = tier.report();
    assert_eq!(all.bytes_read, first.bytes_read + second.bytes_read);
    assert_eq!((all.hits, all.misses), (first.hits + second.hits, first.misses + second.misses));
}

#[test]
fn a_report_falls_due() {
    let plan = Plan::under(
        &layers(),
        &BTreeMap::new(),
        &weights(),
        Knobs { prefill: Some(0), report_every: 2, ..Knobs::under(Policy::Slots(5)) },
        gather::plan::Plan { table: None },
        None,
    )
    .unwrap();
    let mut tier = tier_from(&plan, true);
    let mut due = Vec::new();
    for _ in 0..4 {
        tier.begin_fire(&[1], Ok(()), Ok(()), 0).unwrap();
        due.push(tier.end_fire(1, 0, Ok(())).unwrap().1);
    }
    assert_eq!(due, vec![false, true, false, true]);
}

#[test]
fn a_returned_ring_goes_before_the_working_set() {
    let mut tier = tier_from(&plan(8, None), true);
    tier.begin_fire(&[32], Ok(()), Ok(()), 0).unwrap();
    let fill = tier.ring_jobs(0, 0).unwrap();
    tier.ring_fill(&fill, Ok(())).unwrap();
    tier.end_fire(32, 0, Ok(())).unwrap();
    // Half 0 holds layer 0; half 1 was never filled and is empty.
    assert_eq!(tier.report().resident, 4);
    run(&mut tier, 1, &[0, 1, 2, 3]);
    assert_eq!(tier.report().resident, 8);
    // Now nothing is empty: a miss takes a seat of the ring, not of layer 1.
    run(&mut tier, 1, &[0]);
    run(&mut tier, 0, &[0, 1, 2, 3]);
    assert_eq!(tier.report().hits, 5);
    assert_eq!(sits(&tier, 1).iter().flatten().count(), 4);
}

#[test]
fn a_fill_that_fails_gives_the_ring_back_all_the_same() {
    let mut tier = tier_from(&plan(9, None), true);
    assert_eq!(tier.report().slots, 9);
    tier.begin_fire(&[32], Ok(()), Ok(()), 0).unwrap();
    let fill = tier.ring_jobs(0, 0).unwrap();
    tier.ring_fill(&fill, Ok(())).unwrap();
    assert!(matches!(tier.ring_ready(0, Ok(()), 5), Ok(Ready::Held(0))));
    let fill = tier.ring_jobs(1, 1).unwrap();
    tier.ring_fill(&fill, Ok(())).unwrap();
    assert!(matches!(
        tier.end_fire(32, 0, Err(short())),
        Err(Fault::Residency(Refusal::EndOfFile { at: 7, short: 3 }))
    ));
    // Layer 0 landed and stays; layer 1 did not, and sits nowhere.
    assert!(!tier.whole && tier.ring.as_ref().unwrap().seats.is_empty());
    assert_eq!(tier.report().resident, 4);
    assert_eq!(sits(&tier, 1), vec![None; 9]);
    // The whole pool can be lent again, and a decode finds every seat.
    assert!(tier.begin_fire(&[32], Ok(()), Ok(()), 0).unwrap());
    tier.end_fire(32, 0, Ok(())).unwrap();
    run(&mut tier, 0, &[0, 1, 2, 3]);
    run(&mut tier, 1, &[0, 1, 2, 3]);
    assert_eq!(tier.report().resident, 8);
}

#[test]
fn a_fire_left_open_is_ended_by_the_next_though_its_fill_failed() {
    let mut tier = tier_from(&plan(9, None), true);
    tier.begin_fire(&[32], Ok(()), Ok(()), 0).unwrap();
    let fill = tier.ring_jobs(0, 0).unwrap();
    tier.ring_fill(&fill, Ok(())).unwrap();
    assert!(tier.begin_fire(&[1], Ok(()), Err(short()), 0).is_err());
    assert_eq!(tier.report().resident, 0);
    assert!(!tier.begin_fire(&[1], Ok(()), Ok(()), 0).unwrap());
    assert!(tier.begin_fire(&[32], Ok(()), Ok(()), 0).unwrap());
}

#[test]
fn a_read_ahead_that_is_refused_gives_its_seats_back() {
    let mut tier = tier(5);
    run(&mut tier, 0, &[0]);
    let ahead = tier.prefetch(1, &vec![vec![2, 3]]);
    assert_eq!(ahead.landing.len(), 2);
    let taken: Vec<u32> = ahead.landing.iter().map(|&(_, seat, _)| seat).collect();
    assert!(tier.spawn(ahead, Err(short())).is_err());
    assert!(!tier.inflight);
    // The seats given back are the next to be taken.
    tier.segment_at(Ok(())).unwrap();
    let seating = tier.decide(1, &raw(&[0, 1])).unwrap();
    let mut again: Vec<u32> = seating.landing.iter().map(|&(_, seat, _)| seat).collect();
    again.reverse();
    assert_eq!(again, taken);
}

#[test]
fn no_two_experts_share_a_seat() {
    let mut tier = tier(5);
    run(&mut tier, 0, &[3, 1, 0]);
    run(&mut tier, 1, &[2, 0, 1]);
    run(&mut tier, 0, &[2, 3]);
    let (a, b) = (sits(&tier, 0), sits(&tier, 1));
    for seat in 0..5 {
        assert!(a[seat].is_none() || b[seat].is_none());
    }
    assert_eq!(a.iter().chain(&b).flatten().count() as u64, tier.report().resident);
}
