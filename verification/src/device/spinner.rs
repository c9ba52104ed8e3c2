//! A thread that does nothing but keep one CPU core busy, so the host side
//! of a streamed decode does not pay to wake up: what a read costs depends
//! on how long the host has been idle, and one thread spinning on a core
//! flattens that. Off by default: it costs a core.

use vstd::prelude::*;
use vstd::string::*;

use crate::text::{chars_of, is_word, trim, trimmed};

verus! {

pub const ENV: &'static str = "PIE_METAL_CPU_HEATER";

/// Whether a word asks for it.
pub open spec fn asks(word: Seq<char>) -> bool {
    let w = trimmed(word);
    w == "1"@ || w == "on"@ || w == "true"@ || w == "yes"@
}

/// Whether the environment asks for it; silence does not.
pub fn wanted(word: &Option<String>) -> (wanted: bool)
    ensures
        wanted == match *word {
            Some(word) => asks(word@),
            None => false,
        },
{
    match word {
        Some(word) => {
            let w: Vec<char> = trim(&chars_of(word.as_str()));
            is_word(&w, "1") || is_word(&w, "on") || is_word(&w, "true") || is_word(&w, "yes")
        },
        None => false,
    }
}

/// What starting the thread came to.
#[derive(Debug)]
pub enum Started {
    Off,
    Already,
    Refused(String),
    On,
}

/// Whether the thread is to be started now: asked for, and not running.
/// `None` when it is, and otherwise what starting it came to.
pub fn start(wanted: bool, running: bool) -> (refused: Option<Started>)
    ensures
        match refused {
            None => wanted && !running,
            Some(Started::Off) => !wanted,
            Some(Started::Already) => wanted && running,
            Some(_) => false,
        },
{
    if !wanted {
        Some(Started::Off)
    } else if running {
        Some(Started::Already)
    } else {
        None
    }
}

pub open spec fn started_text(started: Started) -> Seq<char> {
    match started {
        Started::Off => "cpu heater off (`PIE_METAL_CPU_HEATER=1` keeps the host awake between reads)"@,
        Started::Already => "cpu heater already running"@,
        Started::Refused(why) => "cpu heater not started: "@ + why@,
        Started::On => "cpu heater on: one thread spinning for the load's life"@,
    }
}

impl Started {
    /// What starting the thread came to, in one line.
    pub fn text(&self) -> (text: String)
        ensures
            text@ == started_text(*self),
    {
        let mut text = String::new();
        match self {
            Started::Off => {
                text.append(
                    "cpu heater off (`PIE_METAL_CPU_HEATER=1` keeps the host awake between reads)",
                );
            },
            Started::Already => {
                text.append("cpu heater already running");
            },
            Started::Refused(why) => {
                text.append("cpu heater not started: ");
                text.append(why.as_str());
            },
            Started::On => {
                text.append("cpu heater on: one thread spinning for the load's life");
            },
        }
        assert(text@ =~= started_text(*self));
        text
    }
}

} // verus!
