use std::collections::BTreeMap;

use engine_metal::experts::cutting::cuts;
use engine_metal::experts::plan::{Knobs, Plan, Policy, Word};
use engine_metal::experts::trace::{fan_out, found, weight_of};
use engine_metal::fault::{Fault, Name, Refusal, Why};
use engine_metal::gather;
use engine_metal::trace::{Def, Linear, Node, Operation, Param, Region, Trace, ValueId};
use engine_metal::weights::Weights;

fn param(name: &str, shape: Vec<u64>) -> Param {
    Param { name: name.to_string(), shape }
}

fn node(name: &str, linear: Linear) -> Node {
    Node { name: name.to_string(), op: Operation::Linear(linear) }
}

/// Two layers of four experts, two of them routed to at a time, each with an
/// up and a down bank.
fn layers() -> Trace {
    Trace {
        params: vec![
            param("embed", vec![10, 25]),
            param("l0.up", vec![4, 16]),
            param("l0.down", vec![4, 16]),
            param("l1.up", vec![4, 16]),
            param("l1.down", vec![4, 16]),
        ],
        values: vec![
            Def::Other,
            Def::Other,
            Def::Weight(1),
            Def::Weight(2),
            Def::Weight(3),
            Def::Weight(4),
            Def::Other,
        ],
        nodes: vec![
            node("top0", Linear::MoeTopkSoftmax { routes: ValueId(0), experts: 4, top_k: 2 }),
            node("up0", Linear::MoeMatmulSelect { bank: ValueId(2), routes: ValueId(0) }),
            node("down0", Linear::MoeMatmulSelect { bank: ValueId(3), routes: ValueId(0) }),
            node(
                "top1",
                Linear::MoeTopkSigmoid {
                    routes: ValueId(1),
                    experts: 4,
                    top_k: 2,
                    hint: Some(ValueId(6)),
                },
            ),
            node("up1", Linear::MoeMatmulSelect { bank: ValueId(4), routes: ValueId(1) }),
            node("down1", Linear::MoeMatmulSelect { bank: ValueId(5), routes: ValueId(1) }),
        ],
    }
}

fn weights() -> Weights {
    Weights { bytes: vec![1000, 400, 800, 400, 800], align: 16 }
}

fn ringless(policy: Policy) -> Knobs {
    Knobs { prefill: Some(0), ..Knobs::under(policy) }
}

fn under(knobs: Knobs, free: Option<u64>) -> Result<Plan, Fault> {
    Plan::under(
        &layers(),
        &BTreeMap::new(),
        &weights(),
        knobs,
        gather::plan::Plan { table: None },
        free,
    )
}

fn refusal(plan: Result<Plan, Fault>) -> Refusal {
    match plan {
        Err(Fault::Residency(refusal)) => refusal,
        other => panic!("{other:?}"),
    }
}

#[test]
fn planes_are_found_behind_their_routers() {
    let (bands, groups) = found(&layers(), &BTreeMap::new(), &weights().bytes).unwrap();
    let said: Vec<(usize, &str, u32, u64, usize)> = bands
        .iter()
        .map(|b| (b.param, b.name.as_str(), b.experts, b.stride, b.group))
        .collect();
    assert_eq!(
        said,
        vec![
            (1, "l0.up", 4, 100, 0),
            (2, "l0.down", 4, 200, 0),
            (3, "l1.up", 4, 100, 1),
            (4, "l1.down", 4, 200, 1),
        ]
    );
    assert_eq!(groups.len(), 2);
    assert_eq!(groups[0].routes, ValueId(0));
    assert_eq!(groups[0].bands, vec![0, 1]);
    assert_eq!(groups[0].hint, None);
    assert_eq!(groups[1].routes, ValueId(1));
    assert_eq!(groups[1].bands, vec![2, 3]);
    assert_eq!(groups[1].hint, Some(ValueId(6)));
}

#[test]
fn an_attached_plane_follows_its_bank() {
    let mut trace = layers();
    trace.params.push(param("l0.up.scale", vec![4, 2]));
    let planes = BTreeMap::from([(1usize, vec![5usize])]);
    let mut bytes = weights().bytes;
    bytes.push(40);
    let (bands, groups) = found(&trace, &planes, &bytes).unwrap();
    assert_eq!(groups[0].bands.len(), 3);
    let scale = bands.iter().find(|b| b.name == "l0.up.scale").unwrap();
    assert_eq!((scale.param, scale.stride, scale.group), (5, 10, 0));
}

#[test]
fn a_reader_without_a_router_is_refused_by_name() {
    let mut trace = layers();
    trace.nodes.remove(0);
    match found(&trace, &BTreeMap::new(), &weights().bytes) {
        Err(Fault::Residency(refusal)) => {
            assert!(matches!(&refusal, Refusal::NoRouter { value: 0, op } if op == "up0"));
        }
        other => panic!("{other:?}"),
    }
}

#[test]
fn a_bank_that_is_no_weight_is_refused() {
    let mut trace = layers();
    trace.values[2] = Def::Cache(0);
    assert!(matches!(
        found(&trace, &BTreeMap::new(), &weights().bytes),
        Err(Fault::Param { name: Name::Value(2), why: Why::BandNotWeight })
    ));
    assert!(matches!(
        weight_of(&trace, ValueId(2)),
        Err(Fault::Param { name: Name::Value(2), why: Why::BandNotWeight })
    ));
    assert!(matches!(weight_of(&trace, ValueId(3)), Ok(2)));
}

#[test]
fn a_plane_of_another_shape_is_refused() {
    let mut trace = layers();
    trace.params[2].shape = vec![5, 16];
    assert!(matches!(
        found(&trace, &BTreeMap::new(), &weights().bytes),
        Err(Fault::Param { name: Name::Param(name), why: Why::BandShape }) if name == "l0.down"
    ));
    let mut trace = layers();
    trace.params[2].shape = vec![4];
    assert!(matches!(
        found(&trace, &BTreeMap::new(), &weights().bytes),
        Err(Fault::Param { why: Why::BandShape, .. })
    ));
    assert!(matches!(
        found(&layers(), &BTreeMap::new(), &[1000, 401, 800, 400, 800]),
        Err(Fault::Param { name: Name::Param(name), why: Why::BandBytes }) if name == "l0.up"
    ));
    let mut trace = layers();
    trace.nodes[3] =
        node("top1", Linear::MoeHashRoute { routes: ValueId(1), experts: 5, top_k: 2 });
    assert!(matches!(
        found(&trace, &BTreeMap::new(), &weights().bytes),
        Err(Fault::Param { name: Name::Param(name), why: Why::ArityDiffers }) if name == "l1.up"
    ));
}

#[test]
fn the_fan_out_is_the_router_s() {
    assert_eq!(fan_out(&layers(), ValueId(1)), Some(2));
    assert_eq!(fan_out(&layers(), ValueId(6)), None);
}

#[test]
fn a_budget_buys_the_most_seats_it_holds() {
    let plan = under(ringless(Policy::Budget(2528)), None).unwrap();
    assert!(plan.streams());
    assert_eq!(plan.slots(), 5);
    assert_eq!(plan.ring(), 0);
    assert_eq!(plan.per_slot_bytes(), 300);
    assert_eq!(plan.pairs(), 8);
    // 1008 of dense weights, 512 + 1008 of seats, two tables of 16.
    assert_eq!(plan.device_demand(), 2560);
    assert_eq!(plan.seat_table_stride(16), 16);
    assert_eq!(plan.seat_tables(16), 32);
    assert_eq!(plan.source_bytes(), 2400);
    assert_eq!(plan.host_demand(), 0);
    assert_eq!(plan.policy, Word::Budget(2528));
    assert_eq!(plan.resident(1), Some(5));
    assert_eq!(plan.resident(0), None);
    assert_eq!(under(ringless(Policy::Budget(2527)), None).unwrap().slots(), 4);
    assert_eq!(under(ringless(Policy::Budget(2208)), None).unwrap().slots(), 4);
}

#[test]
fn bands_of_one_position_and_stride_share_a_slab() {
    let plan = under(ringless(Policy::Slots(5)), None).unwrap();
    let said: Vec<(usize, u64, usize, Vec<usize>)> = plan
        .regions()
        .iter()
        .map(|r| (r.position, r.stride, r.head, r.bands.clone()))
        .collect();
    assert_eq!(said, vec![(0, 100, 1, vec![0, 2]), (1, 200, 2, vec![1, 3])]);
    assert_eq!(plan.alias(1), None);
    assert_eq!(plan.alias(3), Some(1));
    assert_eq!(plan.alias(4), Some(2));
    assert_eq!(plan.host_at(1), Some(0));
    assert_eq!(plan.host_at(2), Some(400));
    assert_eq!(plan.host_at(3), Some(1200));
    assert_eq!(plan.host_at(4), Some(1600));
    assert_eq!(plan.host_at(0), None);
}

#[test]
fn a_budget_below_the_floor_is_refused() {
    match refusal(Plan::of(&layers(), &BTreeMap::new(), &weights(), Some(2500))) {
        Refusal::BudgetBelowFloor { budget, dense, bands, need, fan, ring, ring_bytes, floor } => {
            assert_eq!((budget, dense, bands, need), (2500, 1008, 4, 4));
            assert_eq!((fan, ring, ring_bytes, floor), (None, 8, 2400, 4608));
        }
        other => panic!("{other:?}"),
    }
    assert!(matches!(
        refusal(under(ringless(Policy::Budget(2207)), None)),
        Refusal::BudgetBelowFloor { floor: 2208, ring: 0, .. }
    ));
}

#[test]
fn a_budget_that_holds_the_plan_streams_nothing() {
    let plan = under(ringless(Policy::Budget(3408)), None).unwrap();
    assert!(!plan.streams());
    assert_eq!(plan.device_demand(), 3408);
    assert_eq!(plan.describe(), "expert cache off (budget holds the plan whole)");
    let plan = under(ringless(Policy::Off), None).unwrap();
    assert!(!plan.streams());
    assert_eq!(plan.describe(), "expert cache off (off: every expert resident)");
    assert!(under(ringless(Policy::Budget(3407)), None).unwrap().streams());
}

#[test]
fn a_trace_without_experts_has_no_cache() {
    let dense = Trace { nodes: Vec::new(), ..layers() };
    let plan = Plan::under(
        &dense,
        &BTreeMap::new(),
        &weights(),
        ringless(Policy::Slots(4)),
        gather::plan::Plan { table: None },
        None,
    )
    .unwrap();
    assert_eq!(plan.describe(), "expert cache off (no routed experts in this plan)");
    match Plan::of(&dense, &BTreeMap::new(), &weights(), Some(3000)) {
        Err(Fault::Residency(Refusal::NothingStreams { budget: 3000, demand: 3408 })) => {}
        other => panic!("{other:?}"),
    }
}

#[test]
fn seats_asked_for_by_number_are_just_that_many() {
    assert!(matches!(
        refusal(under(ringless(Policy::Slots(3)), None)),
        Refusal::SlotsBelowFloor { slots: 3, need: 4, fan: None }
    ));
    let many = under(ringless(Policy::Slots(100)), None).unwrap();
    assert_eq!((many.slots(), many.resident(1), many.resident(2)), (100, Some(100), Some(100)));
    let plan = under(ringless(Policy::Slots(4)), None).unwrap();
    assert_eq!(plan.slots(), 4);
    assert_eq!(
        plan.describe(),
        "expert cache: 4 seats x 0.00 MiB = 0.00 GiB shared by 2 groups over 8 (layer, expert) \
         pairs [PIE_EXPERT_CACHE=4]"
    );
}

#[test]
fn the_ring_is_two_layers_on_top_of_the_pool() {
    let plan = under(Knobs::under(Policy::Slots(4)), None).unwrap();
    assert_eq!((plan.slots(), plan.ring(), plan.prefill_min()), (4, 8, 32));
    assert_eq!(plan.resident(2), Some(12));
    // 1008 + 1200 + 2400 + 32
    assert_eq!(plan.device_demand(), 4640);
    assert_eq!(
        plan.describe(),
        "expert cache: 4 seats x 0.00 MiB = 0.00 GiB shared by 2 groups over 8 (layer, expert) \
         pairs + a prefill ring of 8 seats (0.00 GiB) from 32 rows a lane [PIE_EXPERT_CACHE=4]"
    );
}

#[test]
fn free_ram_sizes_the_pool() {
    let auto = || ringless(Policy::Auto { headroom: 1000 });
    assert!(matches!(refusal(under(auto(), None)), Refusal::NoFreeRam));
    let plan = under(auto(), Some(3528)).unwrap();
    assert_eq!(plan.slots(), 5);
    assert_eq!(plan.policy, Word::Auto { free: 3528, headroom: 1000, dense: 1008 });
    match refusal(under(auto(), Some(3207))) {
        Refusal::RamBelowFloor { free, headroom, dense, usable, need, per_slot, ring, ring_bytes } => {
            assert_eq!((free, headroom, dense, usable), (3207, 1000, 1008, 1199));
            assert_eq!((need, per_slot, ring, ring_bytes), (4, 300, 0, 0));
        }
        other => panic!("{other:?}"),
    }
}

#[test]
fn a_region_is_cut_behind_its_router() {
    let plan = under(ringless(Policy::Slots(5)), None).unwrap();
    let template = vec![
        Region { nodes: vec![0, 1, 2] },
        Region { nodes: vec![1, 2] },
        Region { nodes: vec![3, 4, 5, 99] },
    ];
    assert_eq!(
        cuts(&layers(), &template, &plan).unwrap(),
        vec![Some(ValueId(0)), None, Some(ValueId(1))]
    );
    let both = vec![Region { nodes: vec![] }, Region { nodes: vec![0, 3] }];
    assert!(matches!(
        cuts(&layers(), &both, &plan),
        Err(Fault::Residency(Refusal::TwoRouters { region: 1, first: 0, second: 1 }))
    ));
}

#[test]
fn counted_bytes_are_aligned() {
    assert_eq!(weights().total(&std::collections::BTreeSet::new()), 3408);
    assert_eq!(weights().total(&std::collections::BTreeSet::from([0, 2])), 1600);
}

#[test]
fn a_plane_two_routers_index_stays_dense() {
    let mut trace = layers();
    trace.nodes.push(node("again", Linear::MoeMatmulSelect { bank: ValueId(2), routes: ValueId(1) }));
    let (bands, groups) = found(&trace, &BTreeMap::new(), &weights().bytes).unwrap();
    let params: Vec<usize> = bands.iter().map(|band| band.param).collect();
    assert_eq!(params, vec![2, 3, 4]);
    assert_eq!((groups[0].bands.clone(), groups[1].bands.clone()), (vec![0], vec![1, 2]));
}

#[test]
fn every_band_is_in_one_region_of_its_stride() {
    let plan = under(ringless(Policy::Slots(4)), None).unwrap();
    for (at, band) in plan.bands().iter().enumerate() {
        let mine: Vec<_> = plan.regions().iter().filter(|r| r.bands.contains(&at)).collect();
        assert_eq!(mine.len(), 1);
        assert_eq!(mine[0].stride, band.stride);
        assert!(mine[0].head <= band.param);
    }
}
