//! The words the expert pool is configured with.

use vstd::prelude::*;
use vstd::string::*;

use crate::bytes::{byte_count, parse_bytes};
use crate::device::heater::Config;
use crate::experts::plan::{
    countable, drawn, Knobs, Plan, PlanView, Policy, DEFAULT_REPORT_EVERY,
};
use crate::experts::trace::{planes_wf, Attachments};
use crate::fault::{Fault, Refusal};
use crate::gather;
use crate::text::{chars_of, is_word, lower_case, lowered, number, parse_number, trim, trimmed};
use crate::trace::Trace;
use crate::weights::Weights;

verus! {

pub const CACHE_ENV: &'static str = "PIE_EXPERT_CACHE";

pub const HEADROOM_ENV: &'static str = "PIE_EXPERT_CACHE_HEADROOM";

pub const LOG_ENV: &'static str = "PIE_EXPERT_CACHE_LOG";

pub const NOCACHE_ENV: &'static str = "PIE_EXPERT_CACHE_NOCACHE";

pub const PREFILL_ENV: &'static str = "PIE_EXPERT_CACHE_PREFILL";

pub const REPORT_ENV: &'static str = "PIE_EXPERT_CACHE_REPORT";

/// Four gibibytes.
pub const DEFAULT_HEADROOM: u64 = 0x1_0000_0000;

/// What the environment says, word by word; `None` where it says nothing.
#[derive(Debug)]
pub struct Words {
    pub cache: Option<String>,
    pub headroom: Option<String>,
    pub prefill: Option<String>,
    pub nocache: Option<String>,
    pub report: Option<String>,
    pub log: Option<Vec<u8>>,
}

/// The headroom a word says, and the default one where none is said.
pub open spec fn headroom_said(word: Option<String>) -> Result<u64, Fault> {
    match word {
        None => Ok(DEFAULT_HEADROOM),
        Some(word) => match byte_count(word@) {
            Some(bytes) => Ok(bytes),
            None => Err(Fault::Residency(Refusal::NotByteCount { word })),
        },
    }
}

/// The policy a load runs under: the environment first, then the configured
/// budget, then automatic.
pub open spec fn policy_said(
    cache: Option<String>,
    headroom: Option<String>,
    budget: Option<u64>,
) -> Result<Policy, Fault> {
    match headroom_said(headroom) {
        Err(fault) => Err(fault),
        Ok(headroom) => match cache {
            None => match budget {
                Some(budget) => Ok(Policy::Budget(budget)),
                None => Ok(Policy::Auto { headroom }),
            },
            Some(word) => {
                let w = lowered(trimmed(word@));
                if w == "off"@ || w == "false"@ || w == "no"@ || w == "full"@ {
                    Ok(Policy::Off)
                } else if w == ""@ || w == "auto"@ || w == "on"@ || w == "true"@ || w == "yes"@ {
                    Ok(Policy::Auto { headroom })
                } else {
                    match number(trimmed(word@), u32::MAX as nat) {
                        Some(n) => Ok(Policy::Slots(n as u32)),
                        None => Err(Fault::Residency(Refusal::NotSeatCount { word })),
                    }
                }
            },
        },
    }
}

/// The policy a load runs under: the environment first, then the configured
/// budget, then automatic.
pub fn policy(cache: &Option<String>, headroom: &Option<String>, budget: Option<u64>) -> (said: Result<
    Policy,
    Fault,
>)
    ensures
        said == policy_said(*cache, *headroom, budget),
{
    let room: u64 = match headroom {
        None => DEFAULT_HEADROOM,
        Some(word) => match parse_bytes(word.as_str()) {
            Some(bytes) => bytes,
            None => {
                return Err(Fault::Residency(Refusal::NotByteCount { word: word.clone() }));
            },
        },
    };
    match cache {
        None => match budget {
            Some(budget) => Ok(Policy::Budget(budget)),
            None => Ok(Policy::Auto { headroom: room }),
        },
        Some(word) => {
            let t: Vec<char> = trim(&chars_of(word.as_str()));
            let w: Vec<char> = lower_case(&t);
            if is_word(&w, "off") || is_word(&w, "false") || is_word(&w, "no") || is_word(
                &w,
                "full",
            ) {
                Ok(Policy::Off)
            } else if is_word(&w, "") || is_word(&w, "auto") || is_word(&w, "on") || is_word(
                &w,
                "true",
            ) || is_word(&w, "yes") {
                Ok(Policy::Auto { headroom: room })
            } else {
                match parse_number(&t, 0xffff_ffff) {
                    Some(n) => Ok(Policy::Slots(n as u32)),
                    None => Err(
                        Fault::Residency(Refusal::NotSeatCount { word: word.clone() }),
                    ),
                }
            }
        },
    }
}

/// The row count a word says, if it says one; a word that is not a row count
/// derives it, as silence does.
pub open spec fn prefill_said(word: Option<String>) -> Option<u32> {
    match word {
        None => None,
        Some(word) => {
            let w = lowered(trimmed(word@));
            if w == "0"@ || w == "off"@ || w == "false"@ || w == "no"@ {
                Some(0)
            } else {
                match number(w, u32::MAX as nat) {
                    Some(n) => Some(n as u32),
                    None => None,
                }
            }
        },
    }
}

/// Whether a word turns bypassing the page cache off.
pub open spec fn caches(word: Option<String>) -> bool {
    match word {
        None => false,
        Some(word) => {
            let w = trimmed(word@);
            w == "0"@ || w == "off"@ || w == "false"@ || w == "no"@
        },
    }
}

pub open spec fn report_said(word: Option<String>) -> u64 {
    match word {
        None => DEFAULT_REPORT_EVERY,
        Some(word) => match number(trimmed(word@), u64::MAX as nat) {
            Some(n) => n as u64,
            None => DEFAULT_REPORT_EVERY,
        },
    }
}

/// The same bytes, where there are any.
pub open spec fn same_bytes(a: Option<Vec<u8>>, b: Option<Vec<u8>>) -> bool {
    match (a, b) {
        (Some(a), Some(b)) => a@ == b@,
        (None, None) => true,
        _ => false,
    }
}

/// Whether the load's reads bypass the page cache: the planes landed at load
/// and every seat copy after. They do unless the word turns that off.
#[must_use]
pub fn nocache(word: &Option<String>) -> (nocache: bool)
    ensures
        nocache == !caches(*word),
{
    match word {
        None => true,
        Some(word) => {
            let w: Vec<char> = trim(&chars_of(word.as_str()));
            !(is_word(&w, "0") || is_word(&w, "off") || is_word(&w, "false") || is_word(&w, "no"))
        },
    }
}

/// Host memory the kernel would hand out without swapping: its free,
/// inactive and speculative pages, where it counts them (`pages`), of `page`
/// bytes each.
#[must_use]
pub fn free_ram(page: i64, pages: Option<(u32, u32, u32)>) -> (free: Option<u64>)
    ensures
        free == match pages {
            Some((free, inactive, speculative)) if page > 0 => {
                let bytes = (free + inactive + speculative) * page;
                Some(if bytes > u64::MAX { u64::MAX } else { bytes as u64 })
            },
            _ => None,
        },
{
    if page <= 0 {
        return None;
    }
    match pages {
        None => None,
        Some((free, inactive, speculative)) => {
            let all: u64 = free as u64 + inactive as u64 + speculative as u64;
            match all.checked_mul(page as u64) {
                Some(bytes) => Some(bytes),
                None => Some(u64::MAX),
            }
        },
    }
}

impl Knobs {
    /// The environment's answer for every knob, over the configured budget,
    /// beside the heater it asks for.
    pub fn of(words: &Words, budget: Option<u64>, heater: Option<Config>) -> (knobs: Result<
        Knobs,
        Fault,
    >)
        ensures
            match knobs {
                Ok(knobs) => {
                    &&& policy_said(words.cache, words.headroom, budget) == Ok::<Policy, Fault>(
                        knobs.policy,
                    )
                    &&& knobs.prefill == prefill_said(words.prefill)
                    &&& knobs.nocache == !caches(words.nocache)
                    &&& knobs.report_every == report_said(words.report)
                    &&& same_bytes(knobs.log, words.log)
                    &&& knobs.heater == heater
                },
                Err(fault) => policy_said(words.cache, words.headroom, budget) == Err::<
                    Policy,
                    Fault,
                >(fault),
            },
    {
        let policy: Policy = match policy(&words.cache, &words.headroom, budget) {
            Ok(policy) => policy,
            Err(why) => {
                return Err(why);
            },
        };
        let prefill: Option<u32> = match &words.prefill {
            None => None,
            Some(word) => {
                let w: Vec<char> = lower_case(&trim(&chars_of(word.as_str())));
                if is_word(&w, "0") || is_word(&w, "off") || is_word(&w, "false") || is_word(
                    &w,
                    "no",
                ) {
                    Some(0)
                } else {
                    match parse_number(&w, 0xffff_ffff) {
                        Some(n) => Some(n as u32),
                        None => None,
                    }
                }
            },
        };
        let nocache: bool = nocache(&words.nocache);
        let report_every: u64 = match &words.report {
            None => DEFAULT_REPORT_EVERY,
            Some(word) => match parse_number(&trim(&chars_of(word.as_str())), u64::MAX) {
                Some(n) => n,
                None => DEFAULT_REPORT_EVERY,
            },
        };
        let log: Option<Vec<u8>> = match &words.log {
            Some(said) => {
                let log: Vec<u8> = said.clone();
                assert(log@ =~= said@);
                Some(log)
            },
            None => None,
        };
        Ok(Knobs { policy, prefill, nocache, report_every, log, heater })
    }
}

impl Plan {
    /// A plan under an explicit budget, or full residency when there is
    /// none. Nothing but its arguments says what it comes to.
    pub fn of(trace: &Trace, planes: &Attachments, weights: &Weights, budget: Option<u64>) -> (plan: Result<
        Plan,
        Fault,
    >)
        requires
            trace.wf(),
            planes_wf(*trace, planes@),
            weights.align > 0,
            weights.bytes@.len() == trace.params@.len(),
            countable(
                *trace,
                planes@,
                *weights,
                match budget {
                    Some(budget) => Policy::Budget(budget),
                    None => Policy::Off,
                },
                None,
                None,
                Set::empty(),
                None,
            ),
        ensures
            ({
                let policy = match budget {
                    Some(budget) => Policy::Budget(budget),
                    None => Policy::Off,
                };
                let said = drawn(*trace, planes@, *weights, policy, None, None, Set::empty(), None);
                match plan {
                    Ok(plan) => {
                        &&& said == Ok::<PlanView, Fault>(plan@)
                        &&& plan@.wf()
                        &&& plan.knobs.policy == policy
                        &&& plan.gathered.table is None
                    },
                    Err(fault) => said == Err::<PlanView, Fault>(fault),
                }
            }),
    {
        let policy: Policy = match budget {
            Some(budget) => Policy::Budget(budget),
            None => Policy::Off,
        };
        Plan::under(
            trace,
            planes,
            weights,
            Knobs::under(policy),
            gather::plan::Plan { table: None },
            None,
        )
    }

    /// The plan a load runs under: the environment's policy over the
    /// configured budget.
    pub fn beside(
        trace: &Trace,
        planes: &Attachments,
        weights: &Weights,
        words: &Words,
        budget: Option<u64>,
        heater: Option<Config>,
        gathered: gather::plan::Plan,
        free: Option<u64>,
    ) -> (plan: Result<Plan, Fault>)
        requires
            trace.wf(),
            planes_wf(*trace, planes@),
            weights.align > 0,
            weights.bytes@.len() == trace.params@.len(),
            policy_said(words.cache, words.headroom, budget) matches Ok(policy) ==> countable(
                *trace,
                planes@,
                *weights,
                policy,
                prefill_said(words.prefill),
                None,
                gathered.held(),
                free,
            ),
        ensures
            match policy_said(words.cache, words.headroom, budget) {
                Err(fault) => plan == Err::<Plan, Fault>(fault),
                Ok(policy) => {
                    let said = drawn(
                        *trace,
                        planes@,
                        *weights,
                        policy,
                        prefill_said(words.prefill),
                        None,
                        gathered.held(),
                        free,
                    );
                    match plan {
                        Ok(plan) => {
                            &&& said == Ok::<PlanView, Fault>(plan@)
                            &&& plan@.wf()
                            &&& plan.gathered == gathered
                            &&& plan.knobs.policy == policy
                            &&& plan.knobs.nocache == !caches(words.nocache)
                            &&& plan.knobs.report_every == report_said(words.report)
                            &&& same_bytes(plan.knobs.log, words.log)
                            &&& plan.knobs.heater == heater
                        },
                        Err(fault) => said == Err::<PlanView, Fault>(fault),
                    }
                },
            },
    {
        let knobs: Knobs = match Knobs::of(words, budget, heater) {
            Ok(knobs) => knobs,
            Err(why) => {
                return Err(why);
            },
        };
        Plan::under(trace, planes, weights, knobs, gathered, free)
    }
}

} // verus!
