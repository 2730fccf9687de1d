//! Log-level parsing and tracing-target handling for the database log sink.
use vstd::prelude::*;
use crate::text::{str_eq, to_lowercase, lowercase_of, string_from_chars, chars_vec};

verus! {

/// Severity of a log event, most severe first.
#[derive(Debug, Clone, Copy, PartialEq, Eq, Structural)]
pub enum LogLevel {
    Error,
    Warn,
    Info,
    Debug,
    Trace,
}

/// The level named by an already lower-cased word; `Info` for anything else.
pub open spec fn level_of_word(w: Seq<char>) -> LogLevel {
    if w == "trace"@ {
        LogLevel::Trace
    } else if w == "debug"@ {
        LogLevel::Debug
    } else if w == "info"@ {
        LogLevel::Info
    } else if w == "warn"@ || w == "warning"@ {
        LogLevel::Warn
    } else if w == "error"@ {
        LogLevel::Error
    } else {
        LogLevel::Info
    }
}

/// Parse a minimum log level from a setting value, case-insensitively.
/// Unknown or empty values give `Info`.
pub fn parse_level(value: &str) -> (l: LogLevel)
    ensures
        l == level_of_word(lowercase_of(value@)),
{
    let lower = to_lowercase(value);
    let w = lower.as_str();
    if str_eq(w, "trace") {
        LogLevel::Trace
    } else if str_eq(w, "debug") {
        LogLevel::Debug
    } else if str_eq(w, "info") {
        LogLevel::Info
    } else if str_eq(w, "warn") || str_eq(w, "warning") {
        LogLevel::Warn
    } else if str_eq(w, "error") {
        LogLevel::Error
    } else {
        LogLevel::Info
    }
}

/// The lower-case name stored in the `level` column for each level.
pub open spec fn level_name(l: LogLevel) -> Seq<char> {
    match l {
        LogLevel::Error => "error"@,
        LogLevel::Warn => "warn"@,
        LogLevel::Info => "info"@,
        LogLevel::Debug => "debug"@,
        LogLevel::Trace => "trace"@,
    }
}

/// The lower-case name of a level.
pub fn level_str(l: LogLevel) -> (s: &'static str)
    ensures
        s@ == level_name(l),
{
    match l {
        LogLevel::Error => "error",
        LogLevel::Warn => "warn",
        LogLevel::Info => "info",
        LogLevel::Debug => "debug",
        LogLevel::Trace => "trace",
    }
}

/// Whether an event of level `event` passes a sink whose minimum level is
/// `min` (events more verbose than `min` are dropped).
pub open spec fn level_rank(l: LogLevel) -> int {
    match l {
        LogLevel::Error => 1,
        LogLevel::Warn => 2,
        LogLevel::Info => 3,
        LogLevel::Debug => 4,
        LogLevel::Trace => 5,
    }
}

/// Whether an event at level `event` is recorded by a sink with minimum level `min`.
pub fn level_enabled(event: LogLevel, min: LogLevel) -> (r: bool)
    ensures
        r == (level_rank(event) <= level_rank(min)),
{
    let e: u8 = match event {
        LogLevel::Error => 1,
        LogLevel::Warn => 2,
        LogLevel::Info => 3,
        LogLevel::Debug => 4,
        LogLevel::Trace => 5,
    };
    let m: u8 = match min {
        LogLevel::Error => 1,
        LogLevel::Warn => 2,
        LogLevel::Info => 3,
        LogLevel::Debug => 4,
        LogLevel::Trace => 5,
    };
    e <= m
}

/// Whether a `::` separator starts at index `i` of `s`.
pub open spec fn sep_at(s: Seq<char>, i: int) -> bool {
    0 <= i && i + 1 < s.len() && s[i] == ':' && s[i + 1] == ':'
}

/// The largest index `i < j` at which a `::` separator starts, or -1.
pub open spec fn last_sep_before(s: Seq<char>, j: int) -> int
    decreases j,
{
    if j <= 0 {
        -1
    } else if sep_at(s, j - 1) {
        j - 1
    } else {
        last_sep_before(s, j - 1)
    }
}

/// The component of a tracing target: the text after its last `::`, or the
/// whole target when it has none (`"darkreach::kbn"` gives `"kbn"`).
pub open spec fn target_component(s: Seq<char>) -> Seq<char> {
    let i = last_sep_before(s, s.len() as int);
    if i < 0 { s } else { s.subrange(i + 2, s.len() as int) }
}

/// Extract the component from a tracing target (last `::`-separated part).
pub fn component_of(target: &str) -> (c: String)
    ensures
        c@ == target_component(target@),
{
    let cs = chars_vec(target);
    let n = cs.len();
    let mut j: usize = n;
    while j > 0
        invariant
            j <= n,
            n == cs@.len(),
            cs@ == target@,
            last_sep_before(target@, n as int) == last_sep_before(target@, j as int),
        decreases j,
    {
        if j < n && cs[j - 1] == ':' && cs[j] == ':' {
            assert(sep_at(target@, j - 1));
            let start = j + 1;
            let mut out: Vec<char> = Vec::new();
            let mut k: usize = start;
            while k < n
                invariant
                    start <= k <= n,
                    n == cs@.len(),
                    out@ == cs@.subrange(start as int, k as int),
                decreases n - k,
            {
                out.push(cs[k]);
                k = k + 1;
            }
            return string_from_chars(out.as_slice());
        }
        assert(!sep_at(target@, j - 1));
        j = j - 1;
    }
    string_from_chars(cs.as_slice())
}

/// Number of buffered log records that triggers a flush.
pub const DRAIN_BATCH: usize = 100;

/// What wakes the log drain.
#[derive(Debug, Clone, Copy, PartialEq, Eq, Structural)]
pub enum DrainEvent {
    /// A record arrived and was buffered.
    Received,
    /// The sending side closed the channel.
    ChannelClosed,
    /// The five-second flush timer fired.
    TimerTick,
}

/// What the drain does next.
#[derive(Debug, Clone, Copy, PartialEq, Eq, Structural)]
pub enum DrainAction {
    /// Keep buffering.
    Wait,
    /// Write the buffer out and keep going.
    Flush,
    /// Write the buffer out, then stop.
    FlushAndStop,
    /// Stop.
    Stop,
}

/// The drain's decision with `buffered` records in its buffer after the
/// event: a full batch is flushed on arrival, a non-empty buffer is flushed
/// on the timer and at close, and the drain stops once the channel closes.
pub fn drain_step(buffered: usize, event: DrainEvent) -> (a: DrainAction)
    ensures
        a == (match event {
            DrainEvent::Received => if buffered >= DRAIN_BATCH { DrainAction::Flush } else { DrainAction::Wait },
            DrainEvent::ChannelClosed => if buffered > 0 { DrainAction::FlushAndStop } else { DrainAction::Stop },
            DrainEvent::TimerTick => if buffered > 0 { DrainAction::Flush } else { DrainAction::Wait },
        }),
{
    match event {
        DrainEvent::Received => if buffered >= DRAIN_BATCH { DrainAction::Flush } else { DrainAction::Wait },
        DrainEvent::ChannelClosed => if buffered > 0 { DrainAction::FlushAndStop } else { DrainAction::Stop },
        DrainEvent::TimerTick => if buffered > 0 { DrainAction::Flush } else { DrainAction::Wait },
    }
}

} // verus!
