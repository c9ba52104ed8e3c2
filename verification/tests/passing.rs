use std::collections::BTreeMap;

use engine_metal::experts::plan::{Plan, Policy};
use engine_metal::experts::source::Source;
use engine_metal::fault::{Fault, Refusal};
use engine_metal::gather;
use engine_metal::ids::push_word;
use engine_metal::passing::opening::plan_under;
use engine_metal::passing::passes::{chunked, group_passes, name_experts, pass_group};
use engine_metal::passing::tier::Tier;
use engine_metal::trace::{Def, Linear, Node, Operation, Param, Trace, ValueId};
use engine_metal::weights::Weights;

fn param(name: &str, shape: Vec<u64>) -> Param {
    Param { name: name.to_string(), shape }
}

fn node(name: &str, linear: Linear) -> Node {
    Node { name: name.to_string(), op: Operation::Linear(linear) }
}

/// Two layers of four experts, two of them routed to at a time, each with an
/// up and a down bank.
fn layers() -> Trace {
    Trace {
        params: vec![
            param("embed", vec![10, 25]),
            param("l0.up", vec![4, 16]),
            param("l0.down", vec![4, 16]),
            param("l1.up", vec![4, 16]),
            param("l1.down", vec![4, 16]),
        ],
        values: vec![
            Def::Other,
            Def::Other,
            Def::Weight(1),
            Def::Weight(2),
            Def::Weight(3),
            Def::Weight(4),
            Def::Other,
        ],
        nodes: vec![
            node("top0", Linear::MoeTopkSoftmax { routes: ValueId(0), experts: 4, top_k: 2 }),
            node("up0", Linear::MoeMatmulSelect { bank: ValueId(2), routes: ValueId(0) }),
            node("down0", Linear::MoeMatmulSelect { bank: ValueId(3), routes: ValueId(0) }),
            node(
                "top1",
                Linear::MoeTopkSigmoid {
                    routes: ValueId(1),
                    experts: 4,
                    top_k: 2,
                    hint: Some(ValueId(6)),
                },
            ),
            node("up1", Linear::MoeMatmulSelect { bank: ValueId(4), routes: ValueId(1) }),
            node("down1", Linear::MoeMatmulSelect { bank: ValueId(5), routes: ValueId(1) }),
        ],
    }
}

fn weights() -> Weights {
    Weights { bytes: vec![1000, 400, 800, 400, 800], align: 16 }
}

fn planned(slots: u32, half: bool) -> Result<Plan, Fault> {
    plan_under(
        &layers(),
        &BTreeMap::new(),
        &weights(),
        Policy::Slots(slots),
        half,
        gather::plan::Plan { table: None },
        None,
    )
}

fn tier(slots: u32) -> Tier {
    let plan = planned(slots, false).unwrap();
    let source = Source::landed(&plan, 2400, true, None, None);
    Tier::open(&plan, &source, &vec![0, 1008, 1520, 1008, 1520], false, true, None).unwrap()
}

fn raw(ids: &[i32]) -> Vec<u8> {
    let mut bytes = Vec::new();
    for &id in ids {
        push_word(&mut bytes, id as u32);
    }
    bytes
}

fn short() -> Fault {
    Fault::Residency(Refusal::EndOfFile { at: 7, short: 3 })
}

#[test]
fn a_pass_takes_the_pool_or_half_of_it() {
    assert_eq!((pass_group(5, false), pass_group(5, true)), (5, 2));
    assert_eq!((pass_group(0, false), pass_group(1, true)), (1, 1));
}

#[test]
fn a_pool_seats_one_pass_of_a_row() {
    let plan = planned(2, false).unwrap();
    assert_eq!((plan.slots(), plan.ring()), (2, 0));
    assert!(matches!(
        planned(1, false),
        Err(Fault::Residency(Refusal::SlotsBelowFloor { slots: 1, need: 2, fan: Some(2) }))
    ));
    assert!(matches!(
        planned(3, true),
        Err(Fault::Residency(Refusal::SlotsBelowFloor { slots: 3, need: 4, fan: Some(2) }))
    ));
}

#[test]
fn seated_experts_lead_the_passes() {
    let seat_of = vec![None, Some(4), None, Some(0)];
    assert_eq!(
        group_passes(&vec![0, 3, -1, 0, 2, 1], 4, &seat_of, 3).unwrap(),
        vec![vec![3, 1, 0], vec![2]]
    );
    assert!(matches!(group_passes(&vec![0, 4, 5], 4, &seat_of, 3), Err(4)));
    assert_eq!(name_experts(&vec![2, -1, 2, 0], 4).unwrap(), vec![2, 0]);
    assert_eq!(chunked(&vec![1, 2, 3, 4, 5], 2), vec![vec![1, 2], vec![3, 4], vec![5]]);
    assert!(chunked(&vec![], 2).is_empty());
}

#[test]
fn a_segment_runs_in_passes_over_a_small_pool() {
    let mut tier = tier(3);
    let first = tier.pass_at(0, 0, 2, 0, Ok(raw(&[0, 1, 2, 3]))).unwrap();
    assert_eq!((first.groups, first.next), (2, Some(vec![3])));
    let cut = first.cut.unwrap();
    assert_eq!(cut.raw, raw(&[0, 1, 2, -1]));
    assert_eq!(
        cut.jobs,
        vec![
            (1008, 0, 100),
            (1520, 400, 200),
            (1108, 100, 100),
            (1720, 600, 200),
            (1208, 200, 100),
            (1920, 800, 200),
        ]
    );
    tier.flushed(&cut.jobs, Ok(()), 5).unwrap();
    assert_eq!(
        tier.pass_line(0, 0, 2, 4, &cut.raw),
        "pass 0 of 2 on group 0: group of 3 experts (seats [0, 1, 2]), 3 of 4 entries assigned, \
         groups 2"
    );
    // The second pass reads no routing vector of its own, but wants one.
    assert!(tier.reads_anew(0, 0, 2, 0) && !tier.reads_anew(0, 0, 2, 1));
    assert!(tier.reads_anew(0, 2, 2, 1) && tier.reads_anew(1, 0, 2, 1));
    let second = tier.pass_at(0, 0, 2, 1, Ok(Vec::new())).unwrap();
    assert_eq!((second.groups, second.next), (2, None));
    let cut = second.cut.unwrap();
    assert_eq!(cut.raw, raw(&[-1, -1, -1, 0]));
    assert_eq!(
        tier.pass_line(0, 1, 2, 4, &cut.raw),
        "pass 1 of 2 on group 0: group of 1 experts (seats [0]), 1 of 4 entries assigned, groups 2"
    );
    tier.flushed(&cut.jobs, Ok(()), 5).unwrap();
    assert_eq!(tier.residency()[0].in_seat, vec![Some(3), Some(1), Some(2)]);
    assert_eq!(tier.hits(), (0, 4));
    assert_eq!((tier.bytes_read(), tier.motion()), (1200, (8, 2)));
    // Other rows start over.
    assert!(tier.pass_at(0, 2, 2, 1, Err(short())).is_err());
    assert!(tier.pass_at(0, 0, 2, 1, Err(short())).is_err());
    let none = tier.pass_at(0, 0, 0, 0, Err(short())).unwrap();
    assert!(none.cut.is_none() && none.groups == 0);
}

#[test]
fn every_entry_is_written_in_one_pass() {
    let mut tier = tier(2);
    // Expert 3 sits before the segment comes, so it is in the first pass.
    let cut = tier.segment_rows(0, 1, Ok(Vec::new()), None, Ok(raw(&[3]))).unwrap().unwrap();
    tier.flushed(&cut.jobs, Ok(()), 0).unwrap();
    let ids = [0, 1, -1, 3, 1, 2, 0, 3];
    let mut written: Vec<Vec<i32>> = Vec::new();
    for pass in 0..2 {
        let passed = tier.pass_at(0, 0, 4, pass, Ok(raw(&ids))).unwrap();
        // Four experts, two a pass.
        assert_eq!(passed.groups, 2);
        let cut = passed.cut.unwrap();
        written.push(cut.raw.chunks(4).map(|e| i32::from_le_bytes([e[0], e[1], e[2], e[3]])).collect());
        tier.flushed(&cut.jobs, Ok(()), 0).unwrap();
    }
    for (i, &id) in ids.iter().enumerate() {
        let times = written.iter().filter(|words| words[i] >= 0).count();
        assert_eq!(times, usize::from(id >= 0));
        for words in &written {
            for (j, &other) in ids.iter().enumerate() {
                if words[i] >= 0 && words[j] >= 0 {
                    assert_eq!(words[i] == words[j], id == other);
                }
            }
        }
    }
    assert!(written[0][3] >= 0 && written[0][7] >= 0);
    assert_eq!(written[0][0] >= 0, true);
    assert_eq!(written[1][1] >= 0 && written[1][5] >= 0, true);
}

#[test]
fn a_pass_of_nobody_says_so() {
    let tier = tier(3);
    assert_eq!(
        tier.pass_line(1, 4, 5, 0, &[]),
        "pass 4 of 5 on group 1: group of 0 experts (seats []), 0 of 0 entries assigned, groups 0"
    );
}

#[test]
fn a_pass_over_an_expert_the_group_lacks_is_refused() {
    let mut tier = tier(3);
    assert!(matches!(
        tier.pass_at(1, 0, 1, 0, Ok(raw(&[0, 4]))),
        Err(Fault::Residency(Refusal::NotInPass { expert: 4, name, experts: 4 })) if name == "l1.up"
    ));
}

#[test]
fn a_whole_segment_is_seated_and_rewritten() {
    let mut tier = tier(3);
    let cut = tier
        .segment_rows(0, 1, Ok(vec![vec![1, 3]]), None, Ok(raw(&[1, 3, -1, 1])))
        .unwrap()
        .unwrap();
    assert_eq!(cut.raw, raw(&[0, 1, -1, 0]));
    assert_eq!(cut.jobs.len(), 4);
    tier.flushed(&cut.jobs, Ok(()), 9).unwrap();
    let cut = tier
        .segment_rows(1, 1, Ok(vec![vec![2]]), None, Ok(raw(&[2])))
        .unwrap()
        .unwrap();
    assert_eq!(cut.raw, raw(&[2]));
    tier.flushed(&cut.jobs, Ok(()), 0).unwrap();
    // The coldest seat is expert 1's of the first layer.
    let cut = tier
        .segment_rows(0, 1, Ok(vec![vec![3, 0]]), None, Ok(raw(&[3, 0])))
        .unwrap()
        .unwrap();
    assert_eq!(cut.raw, raw(&[1, 0]));
    assert_eq!(tier.hits(), (1, 4));
    let report = tier.report();
    assert_eq!((report.resident, report.distinct, report.segments), (3, 4, 3));
}

#[test]
fn a_segment_wider_than_the_pool_is_refused() {
    let mut tier = tier(3);
    assert!(matches!(
        tier.segment_rows(0, 1, Ok(Vec::new()), None, Ok(raw(&[0, 1, 2, 3]))),
        Err(Fault::Residency(Refusal::PoolPinned { slots: 3, name })) if name == "l0.up"
    ));
    assert!(matches!(
        tier.segment_rows(0, 1, Ok(Vec::new()), None, Ok(raw(&[9]))),
        Err(Fault::Residency(Refusal::NoSuchExpert { expert: 9, experts: 4, .. }))
    ));
    assert!(matches!(
        tier.segment_rows(0, 0, Err(short()), None, Err(short())),
        Ok(None)
    ));
}

#[test]
fn a_prediction_is_seated_ahead_of_its_segment() {
    let mut tier = tier(3);
    let cut = tier
        .segment_rows(0, 1, Ok(vec![vec![1]]), Some(Ok(vec![vec![2, 0]])), Ok(raw(&[1])))
        .unwrap()
        .unwrap();
    tier.flushed(&cut.jobs, Ok(()), 0).unwrap();
    let ahead = tier.prefetch_after(0);
    assert_eq!(ahead.len(), 4);
    assert!(tier.spawn(&ahead, Ok(())).unwrap());
    tier.join_inflight(Ok(())).unwrap();
    let cut = tier
        .segment_rows(1, 1, Ok(vec![vec![0, 2]]), None, Ok(raw(&[0, 2])))
        .unwrap()
        .unwrap();
    assert!(cut.jobs.is_empty());
    assert_eq!(cut.raw, raw(&[2, 1]));
    let note = tier.prediction();
    assert_eq!((note.total, note.prefetched, note.covered), (2, 2, [2; 4]));
    assert_eq!(tier.hint_for(ValueId(1)), Some(ValueId(6)));
    assert_eq!(tier.group_of(ValueId(1)), Some(1));
}

#[test]
fn copies_that_fail_are_not_counted() {
    let mut tier = tier(3);
    let pass = tier.pass_at(0, 0, 1, 0, Ok(raw(&[0]))).unwrap();
    let jobs = pass.cut.unwrap().jobs;
    assert!(tier.flushed(&jobs, Err(short()), 5).is_err());
    assert_eq!((tier.bytes_read(), tier.motion()), (0, (0, 1)));
    tier.note_wait(1);
    tier.note_gpu(2);
    tier.note_cut(3);
    assert_eq!((tier.host_time(), tier.gpu_ns()), ((3, 0, 1), 2));
}
