//! What a fault says.

use vstd::prelude::*;
use vstd::string::*;

use crate::doubles::{amount_text, GIB, MIB};
use crate::fault::{Flight, Name, Refusal, Step, Unmapped, What, Why};
use crate::line::{joined, num, Line};
use crate::text::trimmed;

verus! {

/// What a refusal adds where the pool has a prefill ring.
pub open spec fn ring_pieces(ring: u32, bytes: u64) -> Seq<Seq<char>> {
    if ring > 0 {
        seq![
            " and a prefill ring of "@,
            num(ring as int),
            " seats ("@,
            amount_text(bytes, GIB, 2),
            " GiB; `PIE_EXPERT_CACHE_PREFILL=0` drops it)"@,
        ]
    } else {
        Seq::empty()
    }
}

fn say_ring(line: &mut Line, ring: u32, bytes: u64)
    requires
        old(line).wf(),
    ensures
        final(line).wf(),
        final(line).pieces@ == old(line).pieces@ + ring_pieces(ring, bytes),
{
    if ring > 0 {
        line.say(" and a prefill ring of ");
        line.number(ring as u64);
        line.say(" seats (");
        line.amount(bytes, GIB, 2);
        line.say(" GiB; `PIE_EXPERT_CACHE_PREFILL=0` drops it)");
    }
    assert(line.pieces@ =~= old(line).pieces@ + ring_pieces(ring, bytes));
}

/// What the refusal of a segment that cannot be seated says, piece by piece.
pub open spec fn seating_pieces(refusal: Refusal) -> Seq<Seq<char>> {
    match refusal {
        Refusal::NoSuchExpert { expert, name, experts } => seq![
            "a routing vector names expert "@,
            num(expert as int),
            " and `"@,
            name@,
            "` declares "@,
            num(experts as int),
            " of them; a seat cannot be found for an expert the router does not have. This is a routing vector read at the wrong instant — the segment cut ran against bytes some other segment wrote."@,
        ],
        Refusal::NotInRing { expert, name, experts } => seq![
            "a routing vector names expert "@,
            num(expert as int),
            " and `"@,
            name@,
            "` declares "@,
            num(experts as int),
            " of them; the prefill ring holds no such expert."@,
        ],
        Refusal::NotInPass { expert, name, experts } => seq![
            "a routing vector names expert "@,
            num(expert as int),
            " and `"@,
            name@,
            "` declares "@,
            num(experts as int),
            " of them; a seat cannot be found for an expert the router does not have."@,
        ],
        Refusal::PoolFull { slots, name } => seq![
            "one segment of this fire routes to more than "@,
            num(slots as int),
            " distinct experts of `"@,
            name@,
            "`, and the shared pool seats "@,
            num(slots as int),
            ": every seat is held by a matmul this same segment will run, by a copy landing in it, or by this fire's prefill ring. Every expert one segment reads must be resident at once — raise `PIE_EXPERT_CACHE` or `device_weight_budget`, or fire fewer tokens per step."@,
        ],
        Refusal::PoolPinned { slots, name } => seq![
            "one segment of this fire routes to more than "@,
            num(slots as int),
            " distinct experts of `"@,
            name@,
            "`, and the shared pool seats "@,
            num(slots as int),
            ": every seat is pinned by a matmul this same segment will run, so no seat can be reused. Every expert one segment reads must be resident at once — raise `PIE_EXPERT_CACHE` or `device_weight_budget`, or fire fewer tokens per step."@,
        ],
        Refusal::RingWantsFile => seq![
            "the prefill ring reads whole layers from a file, and this tier's seat source is not one"@,
        ],
        Refusal::ReaderPanicked { reader } => match reader {
            Flight::Experts => seq!["the route prefetch thread panicked"@],
            Flight::Ring => seq!["the prefill ring's fill thread panicked"@],
            Flight::Rows => seq!["the n-gram row prefetch thread panicked"@],
        },
        _ => Seq::empty(),
    }
}

/// What the refusal of a trace that cannot stream says, piece by piece.
pub open spec fn trace_pieces(refusal: Refusal) -> Seq<Seq<char>> {
    match refusal {
        Refusal::NoRouter { value, op } => seq![
            "value "@,
            num(value as int),
            " is read as a routing vector by `"@,
            op@,
            "` and no router node of this plan writes it; the expert count a seat is divided out of is the ROUTER's field, so a routed read whose router this plan does not state cannot be seated at less than its declared size"@,
        ],
        Refusal::TwoRouters { region, first, second } => seq![
            "region "@,
            num(region as int),
            " holds two routers (values "@,
            num(first as int),
            " and "@,
            num(second as int),
            "), and a streamed load cuts its command buffer after EACH one — a single cut behind both would encode the first mixture's matmuls against seats the host had not swapped yet. Raise `device_weight_budget` to hold this plan whole, or bake an artifact whose regions carry one mixture each."@,
        ],
        Refusal::NothingStreams { budget, demand } => seq![
            "`device_weight_budget` is "@,
            num(budget as int),
            " bytes and this plan's weight table demands "@,
            num(demand as int),
            ". Nothing in it is a routed-expert bank, so there is no tier to hold less of: only routed experts stream (their seat is chosen after the router has run); dense planes do not. Raise the budget, or state `None` for uncapped."@,
        ],
        _ => Seq::empty(),
    }
}

/// What the refusal of a pool that cannot be sized says, piece by piece.
pub open spec fn sizing_pieces(refusal: Refusal) -> Seq<Seq<char>> {
    match refusal {
        Refusal::BudgetBelowFloor { budget, dense, bands, need, fan, ring, ring_bytes, floor } => seq![
            "`device_weight_budget` is "@,
            num(budget as int),
            " bytes; this plan's DENSE planes demand "@,
            num(dense as int),
            " resident and its "@,
            num(bands as int),
            " routed bands need "@,
            num(need as int),
            " expert seats in the shared pool on top ("@,
        ] + (match fan {
            Some(fan) => seq![
                    "a row routes to "@,
                    num(fan as int),
                    " experts and a pass seats half the pool"@,
                ],
            None => seq![
                    "one segment seats every expert of a layer at once"@,
                ],
        }) + seq![
            ")"@,
        ] + ring_pieces(ring, ring_bytes) + seq![
            ", which is "@,
            num(floor as int),
            ". Dense planes do not stream in this build, so the budget cannot be met by holding less. Raise it to at least "@,
            num(floor as int),
            ", or state `None`."@,
        ],
        Refusal::SlotsBelowFloor { slots, need, fan } => seq![
            "`PIE_EXPERT_CACHE="@,
            num(slots as int),
            "` seats fewer experts than one "@,
        ] + (match fan {
            Some(fan) => seq![
                    "row routes to: a row reads "@,
                    num(fan as int),
                    " experts and a pass seats half the pool"@,
                ],
            None => seq![
                    "layer has: a segment seats every expert it routes to at once"@,
                ],
        }) + seq![
            ", so the pool needs at least "@,
            num(need as int),
            " seats"@,
        ],
        Refusal::NoFreeRam => seq![
            "the host's free memory could not be read, so the expert pool cannot be sized from it; state `PIE_EXPERT_CACHE=<seats>` or a `device_weight_budget`"@,
        ],
        Refusal::RamBelowFloor { free, headroom, dense, usable, need, per_slot, ring, ring_bytes } => seq![
            "free RAM is "@,
            amount_text(free, GIB, 2),
            " GiB; less the "@,
            amount_text(headroom, GIB, 2),
            " GiB headroom and the "@,
            amount_text(dense, GIB, 2),
            " GiB of dense planes, "@,
            amount_text(usable, GIB, 2),
            " GiB is left, and the pool needs at least "@,
            num(need as int),
            " seats of "@,
            amount_text(per_slot, MIB, 2),
            " MiB"@,
        ] + ring_pieces(ring, ring_bytes) + seq![
            ". Lower `PIE_EXPERT_CACHE_HEADROOM`, or state `PIE_EXPERT_CACHE=<seats>` to size the pool by hand."@,
        ],
        _ => Seq::empty(),
    }
}

/// What the refusal of a table that cannot be gathered says, piece by piece.
pub open spec fn rows_pieces(refusal: Refusal) -> Seq<Seq<char>> {
    match refusal {
        Refusal::SlabAboveBudget { budget, name, table, seats, slab, rows } => seq![
            "`device_weight_budget` is "@,
            num(budget as int),
            " bytes and `"@,
            name@,
            "` alone is "@,
            num(table as int),
            " of them, so it is held CPU-side and read through a row slab of "@,
            num(seats as int),
            " seats — which is "@,
            num(slab as int),
            " bytes, and the budget does not hold even that. The slab is sized by the fire's row ceiling and not by the table's "@,
            num(rows as int),
            " rows, so this number does not shrink: raise the budget past it, or lower `max_tokens`."@,
        ],
        Refusal::TwoHashers { region, first, second } => seq![
            "region "@,
            num(region as int),
            " holds two n-gram hashers landing different id vectors (values "@,
            num(first as int),
            " and "@,
            num(second as int),
            "), and a gathered load cuts its command buffer after EACH one — a single cut behind both would seat the first arm's rows and then read the second arm's raw table ids as seats. Raise `device_weight_budget` to hold the table whole, or bake an artifact whose regions carry one hasher each."@,
        ],
        Refusal::SlabFull { seats, name } => seq![
            "this fire demands more than "@,
            num(seats as int),
            " distinct rows of `"@,
            name@,
            "`, which is every seat the gathered row slab has. The slab is sized `max_tokens x heads` and a fire may not present more token rows than `max_tokens`, so this is a composition wider than the budget it was planned against: raise `device_weight_budget` to hold the table whole, or lower `max_tokens`."@,
        ],
        _ => Seq::empty(),
    }
}

/// What the refusal of a word or a source that cannot be read says, piece by piece.
pub open spec fn source_pieces(refusal: Refusal) -> Seq<Seq<char>> {
    match refusal {
        Refusal::NotByteCount { word } => seq![
            "`PIE_EXPERT_CACHE_HEADROOM="@,
            word@,
            "` is not a byte count; write `4GiB`, `512MiB`, or a plain number of bytes"@,
        ],
        Refusal::NotSeatCount { word } => seq![
            "`PIE_EXPERT_CACHE="@,
            trimmed(word@),
            "` is neither `off`, `auto`, nor a seat count"@,
        ],
        Refusal::NoBandOffset { name, param } => seq![
            "the seat source states no offset for band `"@,
            name@,
            "` (param "@,
            num(param as int),
            "), which this plan streams — the residency plan and the bytes behind it were not built from each other"@,
        ],
        Refusal::OffsetTooFar { at } => seq![
            "a seat source offset "@,
            num(at as int),
            " does not fit `off_t`"@,
        ],
        Refusal::ReadFailed { want, at, why } => seq![
            "a seat source read of "@,
            num(want as int),
            " bytes at "@,
            num(at as int),
            " failed: "@,
            why@,
        ],
        Refusal::EndOfFile { at, short } => seq![
            "a seat source read at "@,
            num(at as int),
            " met the end of the file "@,
            num(short as int),
            " bytes short"@,
        ],
        _ => Seq::empty(),
    }
}

/// What a refusal says, piece by piece.
pub open spec fn refusal_pieces(refusal: Refusal) -> Seq<Seq<char>> {
    seating_pieces(refusal) + trace_pieces(refusal) + sizing_pieces(refusal) + rows_pieces(refusal) + source_pieces(refusal)
}

fn say_seating(refusal: &Refusal) -> (line: Line)
    ensures
        line.wf(),
        line.pieces@ == seating_pieces(*refusal),
{
    let mut line = Line::new();
    match refusal {
        Refusal::NoSuchExpert { expert, name, experts } => {
            line.say("a routing vector names expert ");
            line.number(*expert as u64);
            line.say(" and `");
            line.say(name.as_str());
            line.say("` declares ");
            line.number(*experts as u64);
            line.say(" of them; a seat cannot be found for an expert the router does not have. This is a routing vector read at the wrong instant — the segment cut ran against bytes some other segment wrote.");
        },
        Refusal::NotInRing { expert, name, experts } => {
            line.say("a routing vector names expert ");
            line.number(*expert as u64);
            line.say(" and `");
            line.say(name.as_str());
            line.say("` declares ");
            line.number(*experts as u64);
            line.say(" of them; the prefill ring holds no such expert.");
        },
        Refusal::NotInPass { expert, name, experts } => {
            line.say("a routing vector names expert ");
            line.number(*expert as u64);
            line.say(" and `");
            line.say(name.as_str());
            line.say("` declares ");
            line.number(*experts as u64);
            line.say(" of them; a seat cannot be found for an expert the router does not have.");
        },
        Refusal::PoolFull { slots, name } => {
            line.say("one segment of this fire routes to more than ");
            line.number(*slots as u64);
            line.say(" distinct experts of `");
            line.say(name.as_str());
            line.say("`, and the shared pool seats ");
            line.number(*slots as u64);
            line.say(": every seat is held by a matmul this same segment will run, by a copy landing in it, or by this fire's prefill ring. Every expert one segment reads must be resident at once — raise `PIE_EXPERT_CACHE` or `device_weight_budget`, or fire fewer tokens per step.");
        },
        Refusal::PoolPinned { slots, name } => {
            line.say("one segment of this fire routes to more than ");
            line.number(*slots as u64);
            line.say(" distinct experts of `");
            line.say(name.as_str());
            line.say("`, and the shared pool seats ");
            line.number(*slots as u64);
            line.say(": every seat is pinned by a matmul this same segment will run, so no seat can be reused. Every expert one segment reads must be resident at once — raise `PIE_EXPERT_CACHE` or `device_weight_budget`, or fire fewer tokens per step.");
        },
        Refusal::RingWantsFile => {
            line.say("the prefill ring reads whole layers from a file, and this tier's seat source is not one");
        },
        Refusal::ReaderPanicked { reader } => {
            line.say(
                match reader {
                    Flight::Experts => "the route prefetch thread panicked",
                    Flight::Ring => "the prefill ring's fill thread panicked",
                    Flight::Rows => "the n-gram row prefetch thread panicked",
                },
            );
        },
        _ => {},
    }
    assert(line.pieces@ =~= seating_pieces(*refusal));
    line
}

fn say_trace(refusal: &Refusal) -> (line: Line)
    ensures
        line.wf(),
        line.pieces@ == trace_pieces(*refusal),
{
    let mut line = Line::new();
    match refusal {
        Refusal::NoRouter { value, op } => {
            line.say("value ");
            line.number(*value as u64);
            line.say(" is read as a routing vector by `");
            line.say(op.as_str());
            line.say("` and no router node of this plan writes it; the expert count a seat is divided out of is the ROUTER's field, so a routed read whose router this plan does not state cannot be seated at less than its declared size");
        },
        Refusal::TwoRouters { region, first, second } => {
            line.say("region ");
            line.number(*region as u64);
            line.say(" holds two routers (values ");
            line.number(*first as u64);
            line.say(" and ");
            line.number(*second as u64);
            line.say("), and a streamed load cuts its command buffer after EACH one — a single cut behind both would encode the first mixture's matmuls against seats the host had not swapped yet. Raise `device_weight_budget` to hold this plan whole, or bake an artifact whose regions carry one mixture each.");
        },
        Refusal::NothingStreams { budget, demand } => {
            line.say("`device_weight_budget` is ");
            line.number(*budget as u64);
            line.say(" bytes and this plan's weight table demands ");
            line.number(*demand as u64);
            line.say(". Nothing in it is a routed-expert bank, so there is no tier to hold less of: only routed experts stream (their seat is chosen after the router has run); dense planes do not. Raise the budget, or state `None` for uncapped.");
        },
        _ => {},
    }
    assert(line.pieces@ =~= trace_pieces(*refusal));
    line
}

fn say_sizing(refusal: &Refusal) -> (line: Line)
    ensures
        line.wf(),
        line.pieces@ == sizing_pieces(*refusal),
{
    let mut line = Line::new();
    match refusal {
        Refusal::BudgetBelowFloor { budget, dense, bands, need, fan, ring, ring_bytes, floor } => {
            line.say("`device_weight_budget` is ");
            line.number(*budget as u64);
            line.say(" bytes; this plan's DENSE planes demand ");
            line.number(*dense as u64);
            line.say(" resident and its ");
            line.number(*bands as u64);
            line.say(" routed bands need ");
            line.number(*need as u64);
            line.say(" expert seats in the shared pool on top (");
            match fan {
                Some(fan) => {
                    line.say("a row routes to ");
                    line.number(*fan as u64);
                    line.say(" experts and a pass seats half the pool");
                },
                None => {
                    line.say("one segment seats every expert of a layer at once");
                },
            }
            line.say(")");
            say_ring(&mut line, *ring, *ring_bytes);
            line.say(", which is ");
            line.number(*floor as u64);
            line.say(". Dense planes do not stream in this build, so the budget cannot be met by holding less. Raise it to at least ");
            line.number(*floor as u64);
            line.say(", or state `None`.");
        },
        Refusal::SlotsBelowFloor { slots, need, fan } => {
            line.say("`PIE_EXPERT_CACHE=");
            line.number(*slots as u64);
            line.say("` seats fewer experts than one ");
            match fan {
                Some(fan) => {
                    line.say("row routes to: a row reads ");
                    line.number(*fan as u64);
                    line.say(" experts and a pass seats half the pool");
                },
                None => {
                    line.say("layer has: a segment seats every expert it routes to at once");
                },
            }
            line.say(", so the pool needs at least ");
            line.number(*need as u64);
            line.say(" seats");
        },
        Refusal::NoFreeRam => {
            line.say("the host's free memory could not be read, so the expert pool cannot be sized from it; state `PIE_EXPERT_CACHE=<seats>` or a `device_weight_budget`");
        },
        Refusal::RamBelowFloor { free, headroom, dense, usable, need, per_slot, ring, ring_bytes } => {
            line.say("free RAM is ");
            line.amount(*free, GIB, 2);
            line.say(" GiB; less the ");
            line.amount(*headroom, GIB, 2);
            line.say(" GiB headroom and the ");
            line.amount(*dense, GIB, 2);
            line.say(" GiB of dense planes, ");
            line.amount(*usable, GIB, 2);
            line.say(" GiB is left, and the pool needs at least ");
            line.number(*need as u64);
            line.say(" seats of ");
            line.amount(*per_slot, MIB, 2);
            line.say(" MiB");
            say_ring(&mut line, *ring, *ring_bytes);
            line.say(". Lower `PIE_EXPERT_CACHE_HEADROOM`, or state `PIE_EXPERT_CACHE=<seats>` to size the pool by hand.");
        },
        _ => {},
    }
    assert(line.pieces@ =~= sizing_pieces(*refusal));
    line
}

fn say_rows(refusal: &Refusal) -> (line: Line)
    ensures
        line.wf(),
        line.pieces@ == rows_pieces(*refusal),
{
    let mut line = Line::new();
    match refusal {
        Refusal::SlabAboveBudget { budget, name, table, seats, slab, rows } => {
            line.say("`device_weight_budget` is ");
            line.number(*budget as u64);
            line.say(" bytes and `");
            line.say(name.as_str());
            line.say("` alone is ");
            line.number(*table as u64);
            line.say(" of them, so it is held CPU-side and read through a row slab of ");
            line.number(*seats as u64);
            line.say(" seats — which is ");
            line.number(*slab as u64);
            line.say(" bytes, and the budget does not hold even that. The slab is sized by the fire's row ceiling and not by the table's ");
            line.number(*rows as u64);
            line.say(" rows, so this number does not shrink: raise the budget past it, or lower `max_tokens`.");
        },
        Refusal::TwoHashers { region, first, second } => {
            line.say("region ");
            line.number(*region as u64);
            line.say(" holds two n-gram hashers landing different id vectors (values ");
            line.number(*first as u64);
            line.say(" and ");
            line.number(*second as u64);
            line.say("), and a gathered load cuts its command buffer after EACH one — a single cut behind both would seat the first arm's rows and then read the second arm's raw table ids as seats. Raise `device_weight_budget` to hold the table whole, or bake an artifact whose regions carry one hasher each.");
        },
        Refusal::SlabFull { seats, name } => {
            line.say("this fire demands more than ");
            line.number(*seats as u64);
            line.say(" distinct rows of `");
            line.say(name.as_str());
            line.say("`, which is every seat the gathered row slab has. The slab is sized `max_tokens x heads` and a fire may not present more token rows than `max_tokens`, so this is a composition wider than the budget it was planned against: raise `device_weight_budget` to hold the table whole, or lower `max_tokens`.");
        },
        _ => {},
    }
    assert(line.pieces@ =~= rows_pieces(*refusal));
    line
}

fn say_source(refusal: &Refusal) -> (line: Line)
    ensures
        line.wf(),
        line.pieces@ == source_pieces(*refusal),
{
    let mut line = Line::new();
    match refusal {
        Refusal::NotByteCount { word } => {
            line.say("`PIE_EXPERT_CACHE_HEADROOM=");
            line.say(word.as_str());
            line.say("` is not a byte count; write `4GiB`, `512MiB`, or a plain number of bytes");
        },
        Refusal::NotSeatCount { word } => {
            line.say("`PIE_EXPERT_CACHE=");
            line.word(word);
            line.say("` is neither `off`, `auto`, nor a seat count");
        },
        Refusal::NoBandOffset { name, param } => {
            line.say("the seat source states no offset for band `");
            line.say(name.as_str());
            line.say("` (param ");
            line.number(*param as u64);
            line.say("), which this plan streams — the residency plan and the bytes behind it were not built from each other");
        },
        Refusal::OffsetTooFar { at } => {
            line.say("a seat source offset ");
            line.number(*at as u64);
            line.say(" does not fit `off_t`");
        },
        Refusal::ReadFailed { want, at, why } => {
            line.say("a seat source read of ");
            line.number(*want as u64);
            line.say(" bytes at ");
            line.number(*at as u64);
            line.say(" failed: ");
            line.say(why.as_str());
        },
        Refusal::EndOfFile { at, short } => {
            line.say("a seat source read at ");
            line.number(*at as u64);
            line.say(" met the end of the file ");
            line.number(*short as u64);
            line.say(" bytes short");
        },
        _ => {},
    }
    assert(line.pieces@ =~= source_pieces(*refusal));
    line
}

/// Nothing said after what is said leaves it as it is.
proof fn lemma_joined_parts(a: Seq<Seq<char>>, b: Seq<Seq<char>>)
    ensures
        joined(a + b) == joined(a) + joined(b),
    decreases b.len(),
{
    if b.len() == 0 {
        assert(a + b =~= a);
        assert(joined(a) + joined(b) =~= joined(a));
    } else {
        lemma_joined_parts(a, b.drop_last());
        assert((a + b).drop_last() =~= a + b.drop_last());
        assert(joined(a + b) =~= joined(a) + joined(b));
    }
}

impl Refusal {
    /// What is said to whoever asked for the load or the fire.
    pub fn text(&self) -> (text: String)
        ensures
            text@ == joined(refusal_pieces(*self)),
    {
        let mut text: String = String::new();
        let seating: Line = say_seating(self);
        text.append(seating.text.as_str());
        let trace: Line = say_trace(self);
        text.append(trace.text.as_str());
        let sizing: Line = say_sizing(self);
        text.append(sizing.text.as_str());
        let rows: Line = say_rows(self);
        text.append(rows.text.as_str());
        let source: Line = say_source(self);
        text.append(source.text.as_str());
        proof {
            lemma_joined_parts(seating_pieces(*self), trace_pieces(*self));
            lemma_joined_parts(seating_pieces(*self) + trace_pieces(*self), sizing_pieces(*self));
            lemma_joined_parts(seating_pieces(*self) + trace_pieces(*self) + sizing_pieces(*self), rows_pieces(*self));
            lemma_joined_parts(seating_pieces(*self) + trace_pieces(*self) + sizing_pieces(*self) + rows_pieces(*self), source_pieces(*self));
            assert(text@ =~= joined(refusal_pieces(*self)));
        }
        text
    }
}

/// What is wrong with a plane.
pub open spec fn why_text(said: Why) -> Seq<char> {
    match said {
        Why::BandNotWeight => "is read at a routed matmul's expert-indexed port and is not a weight; a band is a `Def::Weight` row and nothing else resolves there"@,
        Why::ArityDiffers => "is a routed band whose expert count differs from an earlier group of the same plan; one residency decision covers the plan, and two arities would make it two decisions"@,
        Why::BandShape => "is read as a routed expert band and does not declare `[experts, ...]` at the router's own expert count; a seat stride cannot be divided out of it"@,
        Why::BandBytes => "is a routed expert band whose bytes do not divide by its expert count — the experts of one band are not equal, and the seat arithmetic the tier does would be wrong rather than refused"@,
        Why::TableNotWeight => "is read as a concatenating gather's table and is not a weight; a gathered plane is a `Def::Weight` row and nothing else resolves there"@,
        Why::SecondTable => "is a second gathered table in one plan; this class holds one, because one is what exists — a second wants the group vocabulary the routed tier has and this one deliberately does not"@,
        Why::NoHasher => "is read by a concatenating gather in a plan that carries no PLE hasher; the gathered class is the hasher's demand shape and there is no static demand to serve without one"@,
        Why::NoRows => "declares no rows, and a row slab over a table with no rows has no stride to seat"@,
        Why::CompanionRows => "is a companion plane of a gathered table whose leading axis is not the table's; a seat is one row of every plane at the same index, and two row counts make that untrue"@,
        Why::GathersNothing => "is opened over a plan that gathers nothing"@,
        Why::NoSeatOffset => "is a gathered plane the store laid down no offset for"@,
        Why::NoSourceOffset => "is a gathered plane the CPU-side source states no row-0 offset for"@,
    }
}

impl Why {
    pub fn text(&self) -> (text: &'static str)
        ensures
            text@ == why_text(*self),
    {
        match self {
            Why::BandNotWeight => "is read at a routed matmul's expert-indexed port and is not a weight; a band is a `Def::Weight` row and nothing else resolves there",
            Why::ArityDiffers => "is a routed band whose expert count differs from an earlier group of the same plan; one residency decision covers the plan, and two arities would make it two decisions",
            Why::BandShape => "is read as a routed expert band and does not declare `[experts, ...]` at the router's own expert count; a seat stride cannot be divided out of it",
            Why::BandBytes => "is a routed expert band whose bytes do not divide by its expert count — the experts of one band are not equal, and the seat arithmetic the tier does would be wrong rather than refused",
            Why::TableNotWeight => "is read as a concatenating gather's table and is not a weight; a gathered plane is a `Def::Weight` row and nothing else resolves there",
            Why::SecondTable => "is a second gathered table in one plan; this class holds one, because one is what exists — a second wants the group vocabulary the routed tier has and this one deliberately does not",
            Why::NoHasher => "is read by a concatenating gather in a plan that carries no PLE hasher; the gathered class is the hasher's demand shape and there is no static demand to serve without one",
            Why::NoRows => "declares no rows, and a row slab over a table with no rows has no stride to seat",
            Why::CompanionRows => "is a companion plane of a gathered table whose leading axis is not the table's; a seat is one row of every plane at the same index, and two row counts make that untrue",
            Why::GathersNothing => "is opened over a plan that gathers nothing",
            Why::NoSeatOffset => "is a gathered plane the store laid down no offset for",
            Why::NoSourceOffset => "is a gathered plane the CPU-side source states no row-0 offset for",
        }
    }
}

/// What there is not enough of.
pub open spec fn what_text(said: What) -> Seq<char> {
    match said {
        What::SeatSource => "bytes of the seat source"@,
        What::RowSource => "bytes of the gathered row source"@,
        What::Reservation => "bytes of a device reservation"@,
    }
}

impl What {
    pub fn text(&self) -> (text: &'static str)
        ensures
            text@ == what_text(*self),
    {
        match self {
            What::SeatSource => "bytes of the seat source",
            What::RowSource => "bytes of the gathered row source",
            What::Reservation => "bytes of a device reservation",
        }
    }
}

/// The step a mapping was refused at.
pub open spec fn step_text(said: Step) -> Seq<char> {
    match said {
        Step::Open => "open"@,
        Step::Stat => "stat"@,
        Step::Size => "size"@,
        Step::Place => "map"@,
    }
}

impl Step {
    pub fn text(&self) -> (text: &'static str)
        ensures
            text@ == step_text(*self),
    {
        match self {
            Step::Open => "open",
            Step::Stat => "stat",
            Step::Size => "size",
            Step::Place => "map",
        }
    }
}

/// What a plane is called, piece by piece.
pub open spec fn name_pieces(name: Name) -> Seq<Seq<char>> {
    match name {
        Name::Param(name) => seq![name@],
        Name::Value(value) => seq!["value "@, num(value as int)],
        Name::Index(param) => seq!["param "@, num(param as int)],
        Name::Table => seq!["the gathered table"@],
    }
}

impl Name {
    pub fn text(&self) -> (text: String)
        ensures
            text@ == joined(name_pieces(*self)),
    {
        let mut line = Line::new();
        match self {
            Name::Param(name) => {
                line.say(name.as_str());
            },
            Name::Value(value) => {
                line.say("value ");
                line.number(*value as u64);
            },
            Name::Index(param) => {
                line.say("param ");
                line.number(*param as u64);
            },
            Name::Table => {
                line.say("the gathered table");
            },
        }
        assert(line.pieces@ =~= name_pieces(*self));
        line.text
    }
}

/// Why a file is not mapped, piece by piece.
pub open spec fn unmapped_pieces(reason: Unmapped) -> Seq<Seq<char>> {
    match reason {
        Unmapped::Said(why) => seq![why@],
        Unmapped::Empty => seq!["the artifact holds no bytes"@],
        Unmapped::TooLong(len) => seq![
            num(len as int),
            " bytes does not fit this process's address space"@,
        ],
        Unmapped::Null => seq!["the kernel answered a null mapping"@],
    }
}

impl Unmapped {
    pub fn text(&self) -> (text: String)
        ensures
            text@ == joined(unmapped_pieces(*self)),
    {
        let mut line = Line::new();
        match self {
            Unmapped::Said(why) => {
                line.say(why.as_str());
            },
            Unmapped::Empty => {
                line.say("the artifact holds no bytes");
            },
            Unmapped::TooLong(len) => {
                line.number(*len);
                line.say(" bytes does not fit this process's address space");
            },
            Unmapped::Null => {
                line.say("the kernel answered a null mapping");
            },
        }
        assert(line.pieces@ =~= unmapped_pieces(*self));
        line.text
    }
}

} // verus!
