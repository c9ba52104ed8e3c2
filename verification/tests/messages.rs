use engine_metal::fault::{Flight, Refusal};

fn name() -> String {
    "l0.up".to_string()
}

#[test]
fn a_pool_without_a_seat_says_who_holds_them() {
    assert_eq!(
        Refusal::PoolFull { slots: 12, name: name() }.text(),
        "one segment of this fire routes to more than 12 distinct experts of `l0.up`, and the \
         shared pool seats 12: every seat is held by a matmul this same segment will run, by a \
         copy landing in it, or by this fire's prefill ring. Every expert one segment reads must \
         be resident at once \u{2014} raise `PIE_EXPERT_CACHE` or `device_weight_budget`, or fire \
         fewer tokens per step."
    );
    assert_eq!(
        Refusal::PoolPinned { slots: 3, name: name() }.text(),
        "one segment of this fire routes to more than 3 distinct experts of `l0.up`, and the \
         shared pool seats 3: every seat is pinned by a matmul this same segment will run, so no \
         seat can be reused. Every expert one segment reads must be resident at once \u{2014} \
         raise `PIE_EXPERT_CACHE` or `device_weight_budget`, or fire fewer tokens per step."
    );
}

#[test]
fn an_expert_that_is_not_there_is_named() {
    assert_eq!(
        Refusal::NotInRing { expert: 9, name: name(), experts: 4 }.text(),
        "a routing vector names expert 9 and `l0.up` declares 4 of them; the prefill ring holds \
         no such expert."
    );
    assert_eq!(
        Refusal::NotInPass { expert: 9, name: name(), experts: 4 }.text(),
        "a routing vector names expert 9 and `l0.up` declares 4 of them; a seat cannot be found \
         for an expert the router does not have."
    );
}

#[test]
fn readers_that_fail_are_told_apart() {
    let panicked = |reader| Refusal::ReaderPanicked { reader }.text();
    assert_eq!(panicked(Flight::Experts), "the route prefetch thread panicked");
    assert_eq!(panicked(Flight::Ring), "the prefill ring's fill thread panicked");
    assert_eq!(panicked(Flight::Rows), "the n-gram row prefetch thread panicked");
    assert_eq!(
        Refusal::RingWantsFile.text(),
        "the prefill ring reads whole layers from a file, and this tier's seat source is not one"
    );
    assert_eq!(
        Refusal::OffsetTooFar { at: 1 << 63 }.text(),
        "a seat source offset 9223372036854775808 does not fit `off_t`"
    );
    assert_eq!(
        Refusal::ReadFailed { want: 5, at: 6, why: "bad sector".to_string() }.text(),
        "a seat source read of 5 bytes at 6 failed: bad sector"
    );
    assert_eq!(
        Refusal::EndOfFile { at: 6, short: 7 }.text(),
        "a seat source read at 6 met the end of the file 7 bytes short"
    );
}

#[test]
fn plans_that_cannot_be_cut_say_where() {
    assert_eq!(
        Refusal::TwoRouters { region: 2, first: 3, second: 4 }.text(),
        "region 2 holds two routers (values 3 and 4), and a streamed load cuts its command buffer \
         after EACH one \u{2014} a single cut behind both would encode the first mixture's matmuls \
         against seats the host had not swapped yet. Raise `device_weight_budget` to hold this \
         plan whole, or bake an artifact whose regions carry one mixture each."
    );
    assert_eq!(
        Refusal::TwoHashers { region: 2, first: 3, second: 4 }.text(),
        "region 2 holds two n-gram hashers landing different id vectors (values 3 and 4), and a \
         gathered load cuts its command buffer after EACH one \u{2014} a single cut behind both \
         would seat the first arm's rows and then read the second arm's raw table ids as seats. \
         Raise `device_weight_budget` to hold the table whole, or bake an artifact whose regions \
         carry one hasher each."
    );
    assert_eq!(
        Refusal::NoRouter { value: 7, op: "up0".to_string() }.text(),
        "value 7 is read as a routing vector by `up0` and no router node of this plan writes it; \
         the expert count a seat is divided out of is the ROUTER's field, so a routed read whose \
         router this plan does not state cannot be seated at less than its declared size"
    );
}

#[test]
fn budgets_that_are_too_small_say_what_is_enough() {
    assert_eq!(
        Refusal::NothingStreams { budget: 10, demand: 20 }.text(),
        "`device_weight_budget` is 10 bytes and this plan's weight table demands 20. Nothing in it \
         is a routed-expert bank, so there is no tier to hold less of: only routed experts stream \
         (their seat is chosen after the router has run); dense planes do not. Raise the budget, \
         or state `None` for uncapped."
    );
    let whole = Refusal::BudgetBelowFloor {
        budget: 10,
        dense: 20,
        bands: 4,
        need: 8,
        fan: None,
        ring: 16,
        ring_bytes: 3 << 29,
        floor: 99,
    };
    assert_eq!(
        whole.text(),
        "`device_weight_budget` is 10 bytes; this plan's DENSE planes demand 20 resident and its 4 \
         routed bands need 8 expert seats in the shared pool on top (one segment seats every \
         expert of a layer at once) and a prefill ring of 16 seats (1.50 GiB; \
         `PIE_EXPERT_CACHE_PREFILL=0` drops it), which is 99. Dense planes do not stream in this \
         build, so the budget cannot be met by holding less. Raise it to at least 99, or state \
         `None`."
    );
    let passes = Refusal::BudgetBelowFloor {
        budget: 10,
        dense: 20,
        bands: 4,
        need: 8,
        fan: Some(4),
        ring: 0,
        ring_bytes: 0,
        floor: 99,
    };
    assert_eq!(
        passes.text(),
        "`device_weight_budget` is 10 bytes; this plan's DENSE planes demand 20 resident and its 4 \
         routed bands need 8 expert seats in the shared pool on top (a row routes to 4 experts and \
         a pass seats half the pool), which is 99. Dense planes do not stream in this build, so \
         the budget cannot be met by holding less. Raise it to at least 99, or state `None`."
    );
    assert_eq!(
        Refusal::SlotsBelowFloor { slots: 3, need: 4, fan: None }.text(),
        "`PIE_EXPERT_CACHE=3` seats fewer experts than one layer has: a segment seats every expert \
         it routes to at once, so the pool needs at least 4 seats"
    );
    assert_eq!(
        Refusal::SlotsBelowFloor { slots: 3, need: 4, fan: Some(2) }.text(),
        "`PIE_EXPERT_CACHE=3` seats fewer experts than one row routes to: a row reads 2 experts \
         and a pass seats half the pool, so the pool needs at least 4 seats"
    );
    assert_eq!(
        Refusal::NoFreeRam.text(),
        "the host's free memory could not be read, so the expert pool cannot be sized from it; \
         state `PIE_EXPERT_CACHE=<seats>` or a `device_weight_budget`"
    );
    let ram = Refusal::RamBelowFloor {
        free: 8 << 30,
        headroom: 4 << 30,
        dense: 3 << 30,
        usable: 1 << 30,
        need: 8,
        per_slot: 3 << 19,
        ring: 0,
        ring_bytes: 0,
    };
    assert_eq!(
        ram.text(),
        "free RAM is 8.00 GiB; less the 4.00 GiB headroom and the 3.00 GiB of dense planes, 1.00 \
         GiB is left, and the pool needs at least 8 seats of 1.50 MiB. Lower \
         `PIE_EXPERT_CACHE_HEADROOM`, or state `PIE_EXPERT_CACHE=<seats>` to size the pool by hand."
    );
}

#[test]
fn slabs_that_are_too_small_say_why() {
    let above = Refusal::SlabAboveBudget {
        budget: 127,
        name: "table".to_string(),
        table: 1600,
        seats: 6,
        slab: 128,
        rows: 100,
    };
    assert_eq!(
        above.text(),
        "`device_weight_budget` is 127 bytes and `table` alone is 1600 of them, so it is held \
         CPU-side and read through a row slab of 6 seats \u{2014} which is 128 bytes, and the \
         budget does not hold even that. The slab is sized by the fire's row ceiling and not by \
         the table's 100 rows, so this number does not shrink: raise the budget past it, or lower \
         `max_tokens`."
    );
    assert_eq!(
        Refusal::SlabFull { seats: 6, name: "table".to_string() }.text(),
        "this fire demands more than 6 distinct rows of `table`, which is every seat the gathered \
         row slab has. The slab is sized `max_tokens x heads` and a fire may not present more \
         token rows than `max_tokens`, so this is a composition wider than the budget it was \
         planned against: raise `device_weight_budget` to hold the table whole, or lower \
         `max_tokens`."
    );
    assert_eq!(
        Refusal::NoBandOffset { name: name(), param: 3 }.text(),
        "the seat source states no offset for band `l0.up` (param 3), which this plan streams \
         \u{2014} the residency plan and the bytes behind it were not built from each other"
    );
}
