//! A small kernel that keeps the GPU clocked up while the host reads experts
//! from disk.
//!
//! The SoC lowers the GPU clock when the GPU idles between short bursts of
//! work, and a streamed decode is exactly that pattern: dozens of cuts a
//! step, each a wait on the host while it seats a layer's experts. A kernel
//! kept in flight on a queue of its own during the gaps holds the clock up.
//! The tier says when: it arms this as a cut's wait returns and as a fire's
//! last frame lands. A frame pauses it as it commits, because real work
//! reaching the queue is the device's business.
//!
//! With a pool that misses nothing the gaps are so short that its kernels
//! are simply in the way, so it is off unless asked for.

use vstd::prelude::*;

use vstd::string::*;

use crate::text::{
    chars_of, decimal, decimal_text, decimal_text_reads_back, is_digit, is_word, lower_case, lowered, number, parse_number, say_number, trim,
    trimmed, unsigned,
};

verus! {

pub const ENV: &'static str = "PIE_METAL_HEATER";

pub const INFLIGHT_ENV: &'static str = "PIE_METAL_HEATER_INFLIGHT";

pub const ARM_ENV: &'static str = "PIE_METAL_HEATER_ARM";

pub const KERNEL_ENV: &'static str = "PIE_METAL_HEATER_KERNEL";

pub const ALU_THREADS_ENV: &'static str = "PIE_METAL_HEATER_ALU_THREADS";

pub const ALU_ITERS_ENV: &'static str = "PIE_METAL_HEATER_ALU_ITERS";

pub const LOG_ENV: &'static str = "PIE_METAL_HEATER_LOG";

pub const DEFAULT_MIB: u64 = 16;

pub const DEFAULT_INFLIGHT: u64 = 2;

pub const DEFAULT_ALU_THREADS: u64 = 1024;

pub const DEFAULT_ALU_ITERS: u32 = 8192;

/// What the heater kernel does.
#[derive(Debug, Clone, Copy, PartialEq, Eq, Structural)]
pub enum Kernel {
    /// Scale a buffer of this many MiB: wide and bandwidth-bound.
    Mem { mib: u64 },
    /// This many threads, each through this many dependent multiply-adds:
    /// narrow and compute-bound.
    Alu { threads: u64, iters: u32 },
    /// This many threads spinning until the host clears a flag or `iters`
    /// chunks of 256 have passed: one dispatch an armed window, so the host
    /// commits almost nothing and a frame waits on nothing longer than one
    /// chunk.
    Spin { threads: u64, iters: u32 },
}

/// Everything a load says about the heater.
#[derive(Debug, Clone, PartialEq, Eq)]
pub struct Config {
    pub kernel: Kernel,
    pub inflight: usize,
    /// Arm at every cut wait and fire tail, not only after a disk read.
    pub always: bool,
    /// Where armed windows are logged: the bytes of the path.
    pub log: Option<Vec<u8>>,
}

/// What the environment says, word by word; `None` where it says nothing.
#[derive(Debug)]
pub struct Words {
    pub on: Option<String>,
    pub inflight: Option<String>,
    pub arm: Option<String>,
    pub kernel: Option<String>,
    pub alu_threads: Option<String>,
    pub alu_iters: Option<String>,
    pub log: Option<Vec<u8>>,
}

/// A word as it is told apart: without the space around it, in lower case.
pub open spec fn plain(word: Option<String>) -> Option<Seq<char>> {
    match word {
        Some(word) => Some(lowered(trimmed(word@))),
        None => None,
    }
}

/// A count: a whole number past zero.
pub open spec fn counted(word: Option<String>) -> Option<nat> {
    match word {
        Some(word) => match number(trimmed(word@), u64::MAX as nat) {
            Some(n) => if n > 0 {
                Some(n)
            } else {
                None
            },
            None => None,
        },
        None => None,
    }
}

/// Whether the heater is asked for: the size of its buffer, and whether by
/// the word `on` rather than by that size.
pub open spec fn asked(word: Option<String>) -> Option<(nat, bool)> {
    match plain(word) {
        None => None,
        Some(w) => if w == "0"@ || w == "off"@ || w == "false"@ || w == "no"@ {
            None
        } else if w == "on"@ || w == "auto"@ {
            Some((DEFAULT_MIB as nat, true))
        } else {
            match number(w, u64::MAX as nat) {
                Some(n) => if n > 0 {
                    Some((n, false))
                } else {
                    None
                },
                None => None,
            }
        },
    }
}

pub open spec fn or(n: Option<nat>, otherwise: nat) -> nat {
    match n {
        Some(n) => n,
        None => otherwise,
    }
}

fn plain_of(word: &Option<String>) -> (plain: Option<Vec<char>>)
    ensures
        match plain {
            Some(p) => self::plain(*word) == Some(p@),
            None => self::plain(*word) is None,
        },
{
    match word {
        Some(word) => Some(lower_case(&trim(&chars_of(word.as_str())))),
        None => None,
    }
}

fn count_of(word: &Option<String>) -> (n: Option<u64>)
    ensures
        match n {
            Some(n) => counted(*word) == Some(n as nat) && n > 0,
            None => counted(*word) is None,
        },
{
    match word {
        Some(word) => match parse_number(&trim(&chars_of(word.as_str())), u64::MAX) {
            Some(n) => if n > 0 {
                Some(n)
            } else {
                None
            },
            None => None,
        },
        None => None,
    }
}

fn asked_of(word: &Option<String>) -> (asked: Option<(u64, bool)>)
    ensures
        match asked {
            Some((mib, on)) => self::asked(*word) == Some((mib as nat, on)),
            None => self::asked(*word) is None,
        },
{
    match plain_of(word) {
        None => None,
        Some(w) => {
            if is_word(&w, "0") || is_word(&w, "off") || is_word(&w, "false") || is_word(&w, "no") {
                None
            } else if is_word(&w, "on") || is_word(&w, "auto") {
                Some((DEFAULT_MIB, true))
            } else {
                match parse_number(&w, u64::MAX) {
                    Some(n) => if n > 0 {
                        Some((n, false))
                    } else {
                        None
                    },
                    None => None,
                }
            }
        },
    }
}

/// The kernel asked for: by its own word, or the narrow one for `on` and the
/// wide one for a size.
pub open spec fn kernel_asked(words: Words) -> Kernel {
    let (mib, on) = asked(words.on)->0;
    let threads = or(counted(words.alu_threads), DEFAULT_ALU_THREADS as nat) as u64;
    let most = or(counted(words.alu_iters), DEFAULT_ALU_ITERS as nat);
    let iters = if most > u32::MAX { u32::MAX } else { most as u32 };
    if plain(words.kernel) == Some("alu"@) {
        Kernel::Alu { threads, iters }
    } else if plain(words.kernel) == Some("spin"@) {
        Kernel::Spin { threads, iters }
    } else if plain(words.kernel) == Some("mem"@) {
        Kernel::Mem { mib: mib as u64 }
    } else if on {
        Kernel::Alu { threads, iters }
    } else {
        Kernel::Mem { mib: mib as u64 }
    }
}

/// What the environment asks for, or `None` for off, which is what silence
/// means.
pub fn wanted(words: &Words) -> (config: Option<Config>)
    ensures
        match config {
            None => asked(words.on) is None,
            Some(config) => {
                &&& asked(words.on) is Some
                &&& config.kernel == kernel_asked(*words)
                &&& config.inflight == or(
                    counted(words.inflight),
                    DEFAULT_INFLIGHT as nat,
                ) as u64 as usize
                &&& config.always == if plain(words.arm) == Some("always"@) {
                    true
                } else if plain(words.arm) == Some("reads"@) {
                    false
                } else {
                    (asked(words.on)->0).1
                }
                &&& match (config.log, words.log) {
                    (Some(log), Some(said)) => log@ == said@,
                    (None, None) => true,
                    _ => false,
                }
            },
        },
{
    let (mib, on): (u64, bool) = match asked_of(&words.on) {
        Some(asked) => asked,
        None => {
            return None;
        },
    };
    let inflight: u64 = match count_of(&words.inflight) {
        Some(n) => n,
        None => DEFAULT_INFLIGHT,
    };
    let threads: u64 = match count_of(&words.alu_threads) {
        Some(n) => n,
        None => DEFAULT_ALU_THREADS,
    };
    let iters: u32 = match count_of(&words.alu_iters) {
        Some(n) => if n > 0xffff_ffff {
            0xffff_ffff
        } else {
            n as u32
        },
        None => DEFAULT_ALU_ITERS,
    };
    let unsaid: Kernel = if on { Kernel::Alu { threads, iters } } else { Kernel::Mem { mib } };
    let kernel: Kernel = match plain_of(&words.kernel) {
        Some(w) => if is_word(&w, "alu") {
            Kernel::Alu { threads, iters }
        } else if is_word(&w, "spin") {
            Kernel::Spin { threads, iters }
        } else if is_word(&w, "mem") {
            Kernel::Mem { mib }
        } else {
            unsaid
        },
        None => unsaid,
    };
    let always: bool = match plain_of(&words.arm) {
        Some(w) => if is_word(&w, "always") {
            true
        } else if is_word(&w, "reads") {
            false
        } else {
            on
        },
        None => on,
    };
    let log: Option<Vec<u8>> = match &words.log {
        Some(said) => {
            let log: Vec<u8> = said.clone();
            assert(log@ =~= said@);
            Some(log)
        },
        None => None,
    };
    Some(Config { kernel, inflight: inflight as usize, always, log })
}

/// What the heater's own thread and everyone else share. There is none
/// until the heater has started.
#[derive(Debug, Clone, Copy, PartialEq, Eq, Structural)]
pub struct Shared {
    pub armed: bool,
    pub stop: bool,
    pub always: bool,
    /// The spin kernel's flag: 1 while it should keep spinning, 0 to make it
    /// return. The other kernels have none.
    pub flag: Option<u32>,
}

impl Shared {
    /// What the heater starts with: nothing armed.
    pub fn new(config: &Config) -> (shared: Shared)
        ensures
            shared == (Shared {
                armed: false,
                stop: false,
                always: config.always,
                flag: if config.kernel is Spin { Some(0u32) } else { None },
            }),
    {
        Shared {
            armed: false,
            stop: false,
            always: config.always,
            flag: match config.kernel {
                Kernel::Spin { .. } => Some(0),
                _ => None,
            },
        }
    }

    pub open spec fn flagged(self, value: u32) -> Option<u32> {
        match self.flag {
            Some(_) => Some(value),
            None => None,
        }
    }
}

/// An armed heater once a frame has committed: the flag a spinning kernel
/// runs by is clear.
pub open spec fn paused(s: Shared) -> Shared {
    Shared { armed: false, flag: s.flagged(0), ..s }
}

/// A heater once it is armed.
pub open spec fn armed(s: Shared) -> Shared {
    if s.armed {
        s
    } else {
        Shared { armed: true, flag: s.flagged(1), ..s }
    }
}

/// Let the heater run until the next commit. Says whether its thread is to
/// be woken: not when it was armed already.
pub fn arm(shared: &mut Option<Shared>) -> (wake: bool)
    ensures
        match *old(shared) {
            None => *final(shared) is None && !wake,
            Some(s) => *final(shared) == Some(armed(s)) && wake == !s.armed,
        },
{
    match *shared {
        None => false,
        Some(s) => {
            if s.armed {
                return false;
            }
            let flag: Option<u32> = match s.flag {
                Some(_) => Some(1),
                None => None,
            };
            *shared = Some(Shared { armed: true, flag, ..s });
            true
        },
    }
}

/// Real work is about to be committed: stop queueing kernels.
pub fn pause(shared: &mut Option<Shared>)
    ensures
        *final(shared) == match *old(shared) {
            None => None,
            Some(s) => Some(paused(s)),
        },
{
    if let Some(s) = *shared {
        let flag: Option<u32> = match s.flag {
            Some(_) => Some(0),
            None => None,
        };
        *shared = Some(Shared { armed: false, flag, ..s });
    }
}

/// Whether the heater has started.
pub fn running(shared: &Option<Shared>) -> (running: bool)
    ensures
        running == (*shared is Some),
{
    shared.is_some()
}

/// Whether the tier should arm this at every gap, not only after a read.
pub fn always(shared: &Option<Shared>) -> (always: bool)
    ensures
        always == (*shared matches Some(s) && s.always),
{
    match shared {
        Some(s) => s.always,
        None => false,
    }
}

/// Where the heater's thread stands.
#[derive(Debug, Clone, Copy, PartialEq, Eq, Structural)]
pub enum Phase {
    /// Between windows: asleep until armed.
    Idle,
    /// In a window, about to see whether it is still open.
    Open,
    /// Queueing kernels up to the depth asked for.
    Filling,
    /// About to wait on the oldest kernel.
    Waiting,
    /// The window is over: what is queued is waited out.
    Draining,
}

/// What the thread is to do next.
#[derive(Debug, Clone, Copy, PartialEq, Eq, Structural)]
pub enum Action {
    /// Sleep until woken, then ask again.
    Sleep,
    /// Return: the heater is over.
    Leave,
    /// Note the time: a window opens.
    Begin,
    /// Commit one kernel, and say whether the device took it.
    Fire,
    /// Wait for the oldest kernel, and say it has landed.
    Await,
    /// Nothing to do this round: ask again.
    Again,
    /// The window is over after this many kernels; log it if there were any.
    Close(u64),
}

/// The heater's thread: one window after another, each keeping up to
/// `inflight` kernels queued for as long as it is armed.
#[derive(Debug, Clone, Copy, PartialEq, Eq, Structural)]
pub struct Burner {
    pub inflight: usize,
    pub phase: Phase,
    pub queued: usize,
    /// Kernels of this window that have landed.
    pub kernels: u64,
    /// Kernels of this window that were committed.
    pub fired: u64,
}

impl Burner {
    /// No more is queued than was asked for, and what was committed has
    /// landed or is queued.
    pub open spec fn wf(self) -> bool {
        &&& self.queued <= self.inflight
        &&& self.fired == self.kernels + self.queued
        &&& self.phase == Phase::Idle ==> self.queued == 0
    }

    pub fn new(inflight: usize) -> (burner: Burner)
        ensures
            burner.wf(),
            burner == (Burner { inflight, phase: Phase::Idle, queued: 0, kernels: 0, fired: 0 }),
    {
        Burner { inflight, phase: Phase::Idle, queued: 0, kernels: 0, fired: 0 }
    }

    /// The next thing to do, and where that leaves the thread. Whether it is
    /// armed and whether it is to stop are looked at between windows and
    /// before each round of a window, and at no other time.
    pub open spec fn stepped(self, armed: bool, stop: bool) -> (Burner, Action) {
        match self.phase {
            Phase::Idle => if stop {
                (self, Action::Leave)
            } else if !armed {
                (self, Action::Sleep)
            } else {
                (Burner { phase: Phase::Open, kernels: 0, fired: 0, ..self }, Action::Begin)
            },
            Phase::Open => if armed && !stop {
                self.filled()
            } else {
                self.drained()
            },
            Phase::Filling => self.filled(),
            Phase::Waiting => self.waited(),
            Phase::Draining => self.drained(),
        }
    }

    pub open spec fn filled(self) -> (Burner, Action) {
        if self.queued < self.inflight {
            (Burner { phase: Phase::Filling, ..self }, Action::Fire)
        } else {
            self.waited()
        }
    }

    pub open spec fn waited(self) -> (Burner, Action) {
        if self.queued > 0 {
            (Burner { phase: Phase::Waiting, ..self }, Action::Await)
        } else {
            (Burner { phase: Phase::Open, ..self }, Action::Again)
        }
    }

    pub open spec fn drained(self) -> (Burner, Action) {
        if self.queued > 0 {
            (Burner { phase: Phase::Draining, ..self }, Action::Await)
        } else {
            (Burner { phase: Phase::Idle, ..self }, Action::Close(self.kernels))
        }
    }

    /// The next thing to do.
    pub fn step(&mut self, armed: bool, stop: bool) -> (action: Action)
        requires
            old(self).wf(),
        ensures
            final(self).wf(),
            (*final(self), action) == old(self).stepped(armed, stop),
    {
        match self.phase {
            Phase::Idle => {
                if stop {
                    return Action::Leave;
                }
                if !armed {
                    return Action::Sleep;
                }
                self.phase = Phase::Open;
                self.kernels = 0;
                self.fired = 0;
                return Action::Begin;
            },
            Phase::Open => {
                self.phase = if armed && !stop { Phase::Filling } else { Phase::Draining };
            },
            _ => {},
        }
        if self.phase == Phase::Filling {
            if self.queued < self.inflight {
                return Action::Fire;
            }
            self.phase = Phase::Waiting;
        }
        if self.queued > 0 {
            return Action::Await;
        }
        if self.phase == Phase::Waiting {
            self.phase = Phase::Open;
            Action::Again
        } else {
            self.phase = Phase::Idle;
            Action::Close(self.kernels)
        }
    }

    /// The device took the kernel committed to it, or did not, in which case
    /// the heater is to stop.
    pub fn fire(&mut self, took: bool) -> (stop: bool)
        requires
            old(self).wf(),
            old(self).phase == Phase::Filling,
            old(self).queued < old(self).inflight,
            old(self).fired < u64::MAX,
        ensures
            final(self).wf(),
            stop == !took,
            *final(self) == if took {
                Burner {
                    queued: (old(self).queued + 1) as usize,
                    fired: (old(self).fired + 1) as u64,
                    ..*old(self)
                }
            } else {
                Burner { phase: Phase::Waiting, ..*old(self) }
            },
    {
        if took {
            self.queued = self.queued + 1;
            self.fired = self.fired + 1;
            false
        } else {
            self.phase = Phase::Waiting;
            true
        }
    }

    /// The oldest kernel has landed.
    pub fn land(&mut self)
        requires
            old(self).wf(),
            old(self).phase == Phase::Waiting || old(self).phase == Phase::Draining,
            old(self).queued > 0,
        ensures
            final(self).wf(),
            *final(self) == (Burner {
                phase: if old(self).phase == Phase::Waiting {
                    Phase::Open
                } else {
                    Phase::Draining
                },
                queued: (old(self).queued - 1) as usize,
                kernels: (old(self).kernels + 1) as u64,
                ..*old(self)
            }),
    {
        self.queued = self.queued - 1;
        self.kernels = self.kernels + 1;
        if self.phase == Phase::Waiting {
            self.phase = Phase::Open;
        }
    }
}

/// A window closes only once every kernel it committed has landed, and a
/// thread that is asked to stop between windows leaves nothing queued.
pub proof fn a_closed_window_has_landed(burner: Burner, armed: bool, stop: bool)
    requires
        burner.wf(),
    ensures
        burner.stepped(armed, stop).1 matches Action::Close(kernels) ==> {
            &&& burner.queued == 0
            &&& kernels == burner.fired
        },
        burner.stepped(armed, stop).1 == Action::Leave ==> burner.queued == 0,
        burner.stepped(armed, stop).1 == Action::Fire ==> burner.queued < burner.inflight,
{
}

/// Arming twice is arming once, and a pause undoes it whatever it was.
pub proof fn a_pause_undoes_arming(s: Shared)
    ensures
        armed(armed(s)) == armed(s),
        paused(armed(s)) == paused(s),
        !paused(s).armed,
        s.flag is Some ==> paused(s).flag == Some(0u32) && armed(paused(s)).flag == Some(1u32),
{
}

/// What the heater does, for the load log.
pub open spec fn kernel_text(kernel: Kernel) -> Seq<char> {
    match kernel {
        Kernel::Mem { mib } => decimal_text(mib as nat) + " MiB scale"@,
        Kernel::Alu { threads, iters } => decimal_text(threads as nat) + " threads x "@
            + decimal_text(iters as nat) + " FMAs"@,
        Kernel::Spin { threads, iters } => decimal_text(threads as nat)
            + " threads spinning up to "@ + decimal_text(iters as nat) + " x 256 FMAs"@,
    }
}

/// The bytes, entrypoint and iteration count of a kernel: four bytes to an
/// element, and a count only for those that loop.
pub fn shape(kernel: Kernel) -> (shape: (u64, Option<u32>))
    requires
        kernel matches Kernel::Mem { mib } ==> mib * 0x10_0000 <= u64::MAX,
        kernel matches Kernel::Alu { threads, .. } ==> threads * 4 <= u64::MAX,
        kernel matches Kernel::Spin { threads, .. } ==> threads * 4 <= u64::MAX,
    ensures
        shape == match kernel {
            Kernel::Mem { mib } => ((mib * 0x10_0000) as u64, None),
            Kernel::Alu { threads, iters } => ((threads * 4) as u64, Some(iters)),
            Kernel::Spin { threads, iters } => ((threads * 4) as u64, Some(iters)),
        },
{
    match kernel {
        Kernel::Mem { mib } => (mib * 0x10_0000, None),
        Kernel::Alu { threads, iters } => (threads * 4, Some(iters)),
        Kernel::Spin { threads, iters } => (threads * 4, Some(iters)),
    }
}

/// What starting the heater came to.
#[derive(Debug)]
pub enum Started {
    /// Not asked for.
    Off,
    /// Started before.
    Already,
    /// It could not be, and why.
    Refused(String),
    /// It runs, as asked; the path it logs to, if any, is the caller's to
    /// say.
    On(Kernel, usize, bool, Option<String>),
}

pub open spec fn started_text(started: Started) -> Seq<char> {
    match started {
        Started::Off => "heater off (`PIE_METAL_HEATER=<MiB>` holds the clock up through long reads)"@,
        Started::Already => "heater already running"@,
        Started::Refused(why) => "heater not started: "@ + why@,
        Started::On(kernel, inflight, always, log) => "heater on: "@ + kernel_text(kernel) + " x "@
            + decimal_text(inflight as nat) + " in flight, armed "@ + (if always {
            "at every gap"@
        } else {
            "after a read"@
        }) + match log {
            Some(path) => ", logged to "@ + path@,
            None => Seq::empty(),
        },
    }
}

/// Whether the heater is to be started now: asked for, and not running.
/// `None` when it is, and otherwise what starting it came to.
pub fn start(shared: &Option<Shared>, wanted: &Option<Config>) -> (refused: Option<Started>)
    ensures
        match refused {
            None => *wanted is Some && *shared is None,
            Some(Started::Off) => *wanted is None,
            Some(Started::Already) => *wanted is Some && *shared is Some,
            Some(_) => false,
        },
{
    if wanted.is_none() {
        Some(Started::Off)
    } else if running(shared) {
        Some(Started::Already)
    } else {
        None
    }
}

impl Started {
    /// What starting the heater came to, in one line.
    pub fn text(&self) -> (text: String)
        ensures
            text@ == started_text(*self),
    {
        let mut text = String::new();
        match self {
            Started::Off => {
                text.append(
                    "heater off (`PIE_METAL_HEATER=<MiB>` holds the clock up through long reads)",
                );
                assert(text@ =~= started_text(*self));
            },
            Started::Already => {
                text.append("heater already running");
                assert(text@ =~= started_text(*self));
            },
            Started::Refused(why) => {
                text.append("heater not started: ");
                text.append(why.as_str());
                assert(text@ =~= started_text(*self));
            },
            Started::On(kernel, inflight, always, log) => {
                text.append("heater on: ");
                match *kernel {
                    Kernel::Mem { mib } => {
                        say_number(&mut text, mib);
                        text.append(" MiB scale");
                    },
                    Kernel::Alu { threads, iters } => {
                        say_number(&mut text, threads);
                        text.append(" threads x ");
                        say_number(&mut text, iters as u64);
                        text.append(" FMAs");
                    },
                    Kernel::Spin { threads, iters } => {
                        say_number(&mut text, threads);
                        text.append(" threads spinning up to ");
                        say_number(&mut text, iters as u64);
                        text.append(" x 256 FMAs");
                    },
                }
                assert(text@ =~= "heater on: "@ + kernel_text(*kernel));
                text.append(" x ");
                say_number(&mut text, *inflight as u64);
                text.append(" in flight, armed ");
                if *always {
                    text.append("at every gap");
                } else {
                    text.append("after a read");
                }
                if let Some(path) = log {
                    text.append(", logged to ");
                    text.append(path.as_str());
                }
                assert(text@ =~= started_text(*self));
            },
        }
        text
    }
}

/// A heater is asked for by a size in MiB, any that is not nothing, and then
/// runs after reads only; `0` asks for none.
pub proof fn a_heater_is_asked_for_by_its_size(word: String, n: nat)
    requires
        word@ == decimal_text(n),
        n <= u64::MAX,
    ensures
        asked(Some(word)) == if n > 0 {
            Some((n, false))
        } else {
            None
        },
        counted(Some(word)) == if n > 0 {
            Some(n)
        } else {
            None
        },
        asked(None) is None,
        counted(None) is None,
{
    let t = decimal_text(n);
    decimal_text_reads_back(n);
    assert(is_digit(t[0]) && is_digit(t[t.len() - 1]));
    assert(trimmed(t) == t);
    assert(lowered(t) =~= t) by {
        assert forall|i: int| 0 <= i < t.len() implies #[trigger] lowered(t)[i] == t[i] by {
            assert(is_digit(t[i]));
        }
    }
    assert(unsigned(t) == t);
    assert(number(t, u64::MAX as nat) == Some(n));
    reveal_strlit("0");
    reveal_strlit("off");
    reveal_strlit("false");
    reveal_strlit("no");
    reveal_strlit("on");
    reveal_strlit("auto");
    assert("off"@[0] == 'o' && "false"@[0] == 'f' && "no"@[0] == 'n' && "on"@[0] == 'o' && "auto"@[0] == 'a');
    if n > 0 && t == "0"@ {
        assert(t.drop_last() =~= Seq::<char>::empty());
        assert(decimal(t.drop_last()) == 0);
        assert(decimal(t) == 0);
    }
}

/// What a burner does: idle, it leaves when told to stop, sleeps until it is
/// armed, and begins anew when it is; open, it fires only while armed and not
/// told to stop; it waits only for what is queued, and never has more in
/// flight than it may.
pub proof fn a_burner_fires_only_while_armed(burner: Burner, armed: bool, stop: bool)
    requires
        burner.wf(),
    ensures
        ({
            let (next, action) = burner.stepped(armed, stop);
            &&& next.inflight == burner.inflight && next.queued == burner.queued
            &&& action == Action::Leave <==> burner.phase == Phase::Idle && stop
            &&& action == Action::Sleep <==> burner.phase == Phase::Idle && !stop && !armed
            &&& action == Action::Begin <==> burner.phase == Phase::Idle && !stop && armed
            &&& action == Action::Begin ==> next.kernels == 0 && next.fired == 0 && next.phase == Phase::Open
            &&& action != Action::Begin ==> next.kernels == burner.kernels && next.fired == burner.fired
            &&& action == Action::Fire ==> {
                &&& next.phase == Phase::Filling
                &&& burner.queued < burner.inflight
                &&& burner.phase == Phase::Filling || (burner.phase == Phase::Open && armed && !stop)
            }
            &&& action == Action::Await <==> burner.queued > 0 && (next.phase == Phase::Waiting || next.phase
                == Phase::Draining)
            &&& burner.phase == Phase::Open && armed && !stop && burner.queued < burner.inflight ==> action
                == Action::Fire
            &&& burner.phase == Phase::Open && (!armed || stop) ==> action == if burner.queued > 0 {
                Action::Await
            } else {
                Action::Close(burner.kernels)
            }
        }),
{
}

/// A kernel is run by its name, and where it has none by how the heater was
/// asked for: one that computes where it was just turned on, one that moves
/// so many MiB where it was given a size.
pub proof fn a_kernel_is_asked_for_by_name(words: Words)
    requires
        asked(words.on) is Some,
    ensures
        ({
            let (mib, on) = asked(words.on)->0;
            let name = plain(words.kernel);
            let kernel = kernel_asked(words);
            &&& name == Some("alu"@) ==> kernel is Alu
            &&& name == Some("spin"@) ==> kernel is Spin
            &&& name == Some("mem"@) ==> kernel is Mem
            &&& name != Some("alu"@) && name != Some("spin"@) && name != Some("mem"@) ==> if on {
                kernel is Alu
            } else {
                kernel is Mem
            }
            &&& kernel matches Kernel::Mem { mib: n } ==> n == mib as u64
            &&& kernel matches Kernel::Alu { threads, iters } ==> {
                &&& counted(words.alu_threads) is None ==> threads == 1024
                &&& counted(words.alu_threads) is Some ==> threads == counted(words.alu_threads)->0 as u64
                &&& counted(words.alu_iters) is None ==> iters == 8192
                &&& counted(words.alu_iters) is Some && counted(words.alu_iters)->0 <= u32::MAX ==> iters
                    == counted(words.alu_iters)->0
                &&& counted(words.alu_iters) is Some && counted(words.alu_iters)->0 > u32::MAX ==> iters
                    == u32::MAX
            }
            &&& kernel matches Kernel::Spin { threads, iters } ==> {
                &&& counted(words.alu_threads) is None ==> threads == 1024
                &&& counted(words.alu_threads) is Some ==> threads == counted(words.alu_threads)->0 as u64
                &&& counted(words.alu_iters) is None ==> iters == 8192
                &&& counted(words.alu_iters) is Some && counted(words.alu_iters)->0 <= u32::MAX ==> iters
                    == counted(words.alu_iters)->0
            }
        }),
{
    reveal_strlit("alu");
    reveal_strlit("spin");
    reveal_strlit("mem");
    assert("alu"@[0] == 'a' && "spin"@[0] == 's' && "mem"@[0] == 'm');
}

} // verus!
