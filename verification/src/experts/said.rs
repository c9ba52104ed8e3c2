//! What a plan and a pool say of themselves, for the log.

use vstd::prelude::*;
use vstd::string::*;

use crate::doubles::{amount_text, percent_text, span_text, GIB, MIB, MS};
use crate::experts::fire::CacheReport;
use crate::experts::plan::{Plan, Word};
use crate::experts::tally::{CutRecord, FireRecord, Tally};
use crate::line::{joined, num, Line};

verus! {

/// What sized a plan, piece by piece.
pub open spec fn word_pieces(word: Word) -> Seq<Seq<char>> {
    match word {
        Word::Off => seq!["off: every expert resident"@],
        Word::Whole => seq!["budget holds the plan whole"@],
        Word::Dense => seq!["no routed experts in this plan"@],
        Word::Budget(budget) => seq!["budget "@, amount_text(budget, GIB, 2), " GiB"@],
        Word::Slots(slots) => seq!["PIE_EXPERT_CACHE="@, num(slots as int)],
        Word::Auto { free, headroom, dense } => seq![
            "auto: free "@,
            amount_text(free, GIB, 2),
            " GiB - headroom "@,
            amount_text(headroom, GIB, 2),
            " GiB - dense "@,
            amount_text(dense, GIB, 2),
            " GiB"@,
        ],
    }
}

fn say_word(line: &mut Line, word: Word)
    requires
        old(line).wf(),
    ensures
        final(line).wf(),
        final(line).pieces@ == old(line).pieces@ + word_pieces(word),
{
    match word {
        Word::Off => {
            line.say("off: every expert resident");
        },
        Word::Whole => {
            line.say("budget holds the plan whole");
        },
        Word::Dense => {
            line.say("no routed experts in this plan");
        },
        Word::Budget(budget) => {
            line.say("budget ");
            line.amount(budget, GIB, 2);
            line.say(" GiB");
        },
        Word::Slots(slots) => {
            line.say("PIE_EXPERT_CACHE=");
            line.number(slots as u64);
        },
        Word::Auto { free, headroom, dense } => {
            line.say("auto: free ");
            line.amount(free, GIB, 2);
            line.say(" GiB - headroom ");
            line.amount(headroom, GIB, 2);
            line.say(" GiB - dense ");
            line.amount(dense, GIB, 2);
            line.say(" GiB");
        },
    }
    assert(line.pieces@ =~= old(line).pieces@ + word_pieces(word));
}

impl Word {
    /// What sized a plan, in words.
    pub fn text(&self) -> (text: String)
        ensures
            text@ == joined(word_pieces(*self)),
    {
        let mut line = Line::new();
        say_word(&mut line, *self);
        assert(line.pieces@ =~= word_pieces(*self));
        line.text
    }
}

/// One line for the load log, piece by piece.
pub open spec fn plan_pieces(plan: Plan) -> Seq<Seq<char>> {
    if plan.bands@.len() == 0 {
        seq!["expert cache off ("@] + word_pieces(plan.policy) + seq![")"@]
    } else {
        seq![
            "expert cache: "@,
            num(plan.slots as int),
            " seats x "@,
            amount_text(plan.per_slot, MIB, 2),
            " MiB = "@,
            amount_text((plan.slots * plan.per_slot) as u64, GIB, 2),
            " GiB shared by "@,
            num(plan.groups@.len() as int),
            " groups over "@,
            num(plan.pairs as int),
            " (layer, expert) pairs"@,
        ] + (if plan.ring > 0 {
            seq![
                " + a prefill ring of "@,
                num(plan.ring as int),
                " seats ("@,
                amount_text((plan.ring * plan.per_slot) as u64, GIB, 2),
                " GiB) from "@,
                num(plan.prefill_min as int),
                " rows a lane"@,
            ]
        } else {
            Seq::empty()
        }) + seq![" ["@] + word_pieces(plan.policy) + seq!["]"@]
    }
}

impl Plan {
    /// One line for the load log.
    pub fn describe(&self) -> (text: String)
        requires
            self.slots * self.per_slot <= u64::MAX,
            self.ring * self.per_slot <= u64::MAX,
        ensures
            text@ == joined(plan_pieces(*self)),
    {
        let mut line = Line::new();
        if self.bands.len() == 0 {
            line.say("expert cache off (");
            say_word(&mut line, self.policy);
            line.say(")");
            assert(line.pieces@ =~= plan_pieces(*self));
            return line.text;
        }
        assert(0 <= self.slots * self.per_slot && 0 <= self.ring * self.per_slot) by (nonlinear_arith)
            requires
                self.slots >= 0,
                self.ring >= 0,
                self.per_slot >= 0,
        ;
        line.say("expert cache: ");
        line.number(self.slots as u64);
        line.say(" seats x ");
        line.amount(self.per_slot, MIB, 2);
        line.say(" MiB = ");
        line.amount(self.slots as u64 * self.per_slot, GIB, 2);
        line.say(" GiB shared by ");
        line.number(self.groups.len() as u64);
        line.say(" groups over ");
        line.number(self.pairs as u64);
        line.say(" (layer, expert) pairs");
        if self.ring > 0 {
            line.say(" + a prefill ring of ");
            line.number(self.ring as u64);
            line.say(" seats (");
            line.amount(self.ring as u64 * self.per_slot, GIB, 2);
            line.say(" GiB) from ");
            line.number(self.prefill_min as u64);
            line.say(" rows a lane");
        }
        line.say(" [");
        say_word(&mut line, self.policy);
        line.say("]");
        assert(line.pieces@ =~= plan_pieces(*self));
        line.text
    }
}

/// What the pool is, piece by piece.
pub open spec fn pool_pieces(r: CacheReport) -> Seq<Seq<char>> {
    seq![
        "expert-cache: "@,
        num(r.slots as int),
        " seats x "@,
        amount_text(r.per_slot, MIB, 2),
        " MiB ("@,
        amount_text((r.slots * r.per_slot) as u64, GIB, 2),
        " GiB) over "@,
        num(r.pairs as int),
        " (layer, expert) pairs ["@,
    ] + word_pieces(r.policy)
}

/// What was looked up in it.
pub open spec fn lookup_pieces(r: CacheReport) -> Seq<Seq<char>> {
    seq![
        "]; "@,
        num(r.resident as int),
        " resident, "@,
        num(r.distinct as int),
        " distinct ever seated; "@,
        num(r.hits as int),
        " hits / "@,
        num(r.misses as int),
        " misses ("@,
        percent_text(r.hits, (r.hits + r.misses) as u64),
        "% hit) across "@,
        num(r.segments as int),
        " segments; "@,
    ]
}

/// What was read into it, and what that took.
pub open spec fn read_pieces(r: CacheReport) -> Seq<Seq<char>> {
    seq![
        amount_text(r.bytes_read, GIB, 3),
        " GiB read from disk ("@,
        amount_text(r.copy_ns, MS, 1),
        " ms copying, "@,
        amount_text(r.wait_ns, MS, 1),
        " ms waiting on the device, "@,
        amount_text(r.gpu_ns, MS, 1),
        " ms of device time in the cut frames)"@,
    ]
}

/// What its prefill ring did, if it was ever filled.
pub open spec fn fill_pieces(r: CacheReport) -> Seq<Seq<char>> {
    if r.ring_fills > 0 {
        seq![
            "; prefill ring: "@,
            num(r.ring_fills as int),
            " fills, "@,
            num(r.ring_copied as int),
            " experts copied from seats, "@,
            num(r.ring_read as int),
            " read ("@,
            amount_text(r.ring_bytes, GIB, 3),
            " GiB), "@,
            amount_text(r.ring_wait_ns, MS, 1),
            " ms waited for a fill"@,
        ]
    } else {
        Seq::empty()
    }
}

/// What the pool has done, piece by piece.
pub open spec fn report_pieces(r: CacheReport) -> Seq<Seq<char>> {
    pool_pieces(r) + lookup_pieces(r) + read_pieces(r) + fill_pieces(r)
}

impl CacheReport {
    /// What the pool can count and say.
    pub open spec fn sayable(self) -> bool {
        &&& self.slots * self.per_slot <= u64::MAX
        &&& self.hits + self.misses <= u64::MAX
    }

    fn say_pool(&self, line: &mut Line)
        requires
            self.sayable(),
            old(line).wf(),
        ensures
            final(line).wf(),
            final(line).pieces@ == old(line).pieces@ + pool_pieces(*self),
    {
        assert(0 <= self.slots * self.per_slot) by (nonlinear_arith)
            requires
                self.slots >= 0,
                self.per_slot >= 0,
        ;
        line.say("expert-cache: ");
        line.number(self.slots as u64);
        line.say(" seats x ");
        line.amount(self.per_slot, MIB, 2);
        line.say(" MiB (");
        line.amount(self.slots as u64 * self.per_slot, GIB, 2);
        line.say(" GiB) over ");
        line.number(self.pairs as u64);
        line.say(" (layer, expert) pairs [");
        say_word(line, self.policy);
        assert(line.pieces@ =~= old(line).pieces@ + pool_pieces(*self));
    }

    fn say_lookup(&self, line: &mut Line)
        requires
            self.sayable(),
            old(line).wf(),
        ensures
            final(line).wf(),
            final(line).pieces@ == old(line).pieces@ + lookup_pieces(*self),
    {
        line.say("]; ");
        line.number(self.resident as u64);
        line.say(" resident, ");
        line.number(self.distinct as u64);
        line.say(" distinct ever seated; ");
        line.number(self.hits as u64);
        line.say(" hits / ");
        line.number(self.misses as u64);
        line.say(" misses (");
        line.percent(self.hits, self.hits + self.misses);
        line.say("% hit) across ");
        line.number(self.segments as u64);
        line.say(" segments; ");
        assert(line.pieces@ =~= old(line).pieces@ + lookup_pieces(*self));
    }

    fn say_read(&self, line: &mut Line)
        requires
            self.sayable(),
            old(line).wf(),
        ensures
            final(line).wf(),
            final(line).pieces@ == old(line).pieces@ + read_pieces(*self),
    {
        line.amount(self.bytes_read, GIB, 3);
        line.say(" GiB read from disk (");
        line.amount(self.copy_ns, MS, 1);
        line.say(" ms copying, ");
        line.amount(self.wait_ns, MS, 1);
        line.say(" ms waiting on the device, ");
        line.amount(self.gpu_ns, MS, 1);
        line.say(" ms of device time in the cut frames)");
        assert(line.pieces@ =~= old(line).pieces@ + read_pieces(*self));
    }

    fn say_fill(&self, line: &mut Line)
        requires
            self.sayable(),
            old(line).wf(),
        ensures
            final(line).wf(),
            final(line).pieces@ == old(line).pieces@ + fill_pieces(*self),
    {
        if self.ring_fills > 0 {
            line.say("; prefill ring: ");
            line.number(self.ring_fills as u64);
            line.say(" fills, ");
            line.number(self.ring_copied as u64);
            line.say(" experts copied from seats, ");
            line.number(self.ring_read as u64);
            line.say(" read (");
            line.amount(self.ring_bytes, GIB, 3);
            line.say(" GiB), ");
            line.amount(self.ring_wait_ns, MS, 1);
            line.say(" ms waited for a fill");
        }
        assert(line.pieces@ =~= old(line).pieces@ + fill_pieces(*self));
    }

    fn say(&self) -> (line: Line)
        requires
            self.sayable(),
        ensures
            line.wf(),
            line.pieces@ == report_pieces(*self),
    {
        let mut line = Line::new();
        self.say_pool(&mut line);
        self.say_lookup(&mut line);
        self.say_read(&mut line);
        self.say_fill(&mut line);
        assert(line.pieces@ =~= report_pieces(*self));
        line
    }

    /// What the pool has done, in one line.
    pub fn text(&self) -> (text: String)
        requires
            self.sayable(),
        ensures
            text@ == joined(report_pieces(*self)),
    {
        self.say().text
    }

    /// The same, and how many fires it took: what the pool says every so
    /// many of them.
    pub fn text_due(&self, tally: &Tally) -> (text: String)
        requires
            self.sayable(),
        ensures
            text@ == joined(
                report_pieces(*self) + seq![
                    "; "@,
                    num(tally.fires as int),
                    " fires, final frames "@,
                    amount_text(tally.tail_ns, MS, 1),
                    " ms on the device"@,
                ],
            ),
    {
        let mut line = self.say();
        line.say("; ");
        line.number(tally.fires);
        line.say(" fires, final frames ");
        line.amount(tally.tail_ns, MS, 1);
        line.say(" ms on the device");
        assert(line.pieces@ =~= report_pieces(*self) + seq![
            "; "@,
            num(tally.fires as int),
            " fires, final frames "@,
            amount_text(tally.tail_ns, MS, 1),
            " ms on the device"@,
        ]);
        line.text
    }
}

/// The first line of the fires' log.
pub const FIRE_HEADER: &'static str = "seq,rows,cuts,copies,hits,misses,bytes_read,cut_ms,copy_ms,wait_ms,walk_ms,gpu_cut_ms,gpu_tail_ms,t_ms,ple_ms,ple_reads,ple_prefetch_misses";

/// The first line of the cuts' log.
pub const CUT_HEADER: &'static str = "fire,group,rows,misses,hits,copies,bytes_read,copy_ms,wait_ms,gpu_ms,cut_ms";

/// A fire's line of the log, piece by piece.
pub open spec fn fire_pieces(seq: u64, r: FireRecord) -> Seq<Seq<char>> {
    seq![
        num(seq as int),
        ","@,
        num(r.rows as int),
        ","@,
        num(r.cuts as int),
        ","@,
        num(r.copies as int),
        ","@,
        num(r.hits as int),
        ","@,
        num(r.misses as int),
        ","@,
        num(r.bytes_read as int),
        ","@,
        amount_text(r.cut_ns, MS, 3),
        ","@,
        amount_text(r.copy_ns, MS, 3),
        ","@,
        amount_text(r.wait_ns, MS, 3),
        ","@,
        span_text(r.walk_ns, 3),
        ","@,
        amount_text(r.gpu_cut_ns, MS, 3),
        ","@,
        amount_text(r.gpu_tail_ns, MS, 3),
        ","@,
        span_text(r.t_ns, 3),
        ","@,
        amount_text(r.ple_ns, MS, 3),
        ","@,
        num(r.ple_reads as int),
        ","@,
        num(r.ple_prefetch_misses as int),
    ]
}

/// A fire's line of the trace, piece by piece.
pub open spec fn trace_pieces(r: FireRecord) -> Seq<Seq<char>> {
    seq![
        "tier: fire of "@,
        num(r.rows as int),
        " row(s): "@,
        num(r.copies as int),
        " seat copies over "@,
        num(r.cuts as int),
        " cuts, "@,
        num(r.hits as int),
        " hits / "@,
        num(r.misses as int),
        " misses, "@,
        amount_text(r.bytes_read, MIB, 1),
        " MiB read; cuts "@,
        amount_text(r.cut_ns, MS, 1),
        " ms (copies "@,
        amount_text(r.copy_ns, MS, 1),
        " ms, waiting on the device "@,
        amount_text(r.wait_ns, MS, 1),
        " ms, "@,
        amount_text(r.gpu_cut_ns, MS, 1),
        " ms of device time); walk "@,
        span_text(r.walk_ns, 1),
        " ms"@,
    ]
}

/// A cut's line of the log, piece by piece.
pub open spec fn cut_pieces(r: CutRecord) -> Seq<Seq<char>> {
    seq![
        num(r.fire as int),
        ","@,
        num(r.group as int),
        ","@,
        num(r.rows as int),
        ","@,
        num(r.misses as int),
        ","@,
        num(r.hits as int),
        ","@,
        num(r.copies as int),
        ","@,
        num(r.bytes_read as int),
        ","@,
        amount_text(r.copy_ns, MS, 3),
        ","@,
        amount_text(r.wait_ns, MS, 3),
        ","@,
        amount_text(r.gpu_ns, MS, 3),
        ","@,
        amount_text(r.cut_ns, MS, 3),
    ]
}

impl FireRecord {
    /// This fire's line of the log, the `seq`th.
    pub fn line(&self, seq: u64) -> (text: String)
        ensures
            text@ == joined(fire_pieces(seq, *self)),
    {
        let mut line = Line::new();
        line.number(seq as u64);
        line.say(",");
        line.number(self.rows as u64);
        line.say(",");
        line.number(self.cuts as u64);
        line.say(",");
        line.number(self.copies as u64);
        line.say(",");
        line.number(self.hits as u64);
        line.say(",");
        line.number(self.misses as u64);
        line.say(",");
        line.number(self.bytes_read as u64);
        line.say(",");
        line.amount(self.cut_ns, MS, 3);
        line.say(",");
        line.amount(self.copy_ns, MS, 3);
        line.say(",");
        line.amount(self.wait_ns, MS, 3);
        line.say(",");
        line.span(self.walk_ns, 3);
        line.say(",");
        line.amount(self.gpu_cut_ns, MS, 3);
        line.say(",");
        line.amount(self.gpu_tail_ns, MS, 3);
        line.say(",");
        line.span(self.t_ns, 3);
        line.say(",");
        line.amount(self.ple_ns, MS, 3);
        line.say(",");
        line.number(self.ple_reads as u64);
        line.say(",");
        line.number(self.ple_prefetch_misses as u64);
        assert(line.pieces@ =~= fire_pieces(seq, *self));
        line.text
    }

    /// This fire's line of the trace.
    pub fn trace(&self) -> (text: String)
        ensures
            text@ == joined(trace_pieces(*self)),
    {
        let mut line = Line::new();
        line.say("tier: fire of ");
        line.number(self.rows as u64);
        line.say(" row(s): ");
        line.number(self.copies as u64);
        line.say(" seat copies over ");
        line.number(self.cuts as u64);
        line.say(" cuts, ");
        line.number(self.hits as u64);
        line.say(" hits / ");
        line.number(self.misses as u64);
        line.say(" misses, ");
        line.amount(self.bytes_read, MIB, 1);
        line.say(" MiB read; cuts ");
        line.amount(self.cut_ns, MS, 1);
        line.say(" ms (copies ");
        line.amount(self.copy_ns, MS, 1);
        line.say(" ms, waiting on the device ");
        line.amount(self.wait_ns, MS, 1);
        line.say(" ms, ");
        line.amount(self.gpu_cut_ns, MS, 1);
        line.say(" ms of device time); walk ");
        line.span(self.walk_ns, 1);
        line.say(" ms");
        assert(line.pieces@ =~= trace_pieces(*self));
        line.text
    }
}

impl CutRecord {
    /// This cut's line of the log.
    pub fn line(&self) -> (text: String)
        ensures
            text@ == joined(cut_pieces(*self)),
    {
        let mut line = Line::new();
        line.number(self.fire as u64);
        line.say(",");
        line.number(self.group as u64);
        line.say(",");
        line.number(self.rows as u64);
        line.say(",");
        line.number(self.misses as u64);
        line.say(",");
        line.number(self.hits as u64);
        line.say(",");
        line.number(self.copies as u64);
        line.say(",");
        line.number(self.bytes_read as u64);
        line.say(",");
        line.amount(self.copy_ns, MS, 3);
        line.say(",");
        line.amount(self.wait_ns, MS, 3);
        line.say(",");
        line.amount(self.gpu_ns, MS, 3);
        line.say(",");
        line.amount(self.cut_ns, MS, 3);
        assert(line.pieces@ =~= cut_pieces(*self));
        line.text
    }
}

} // verus!
