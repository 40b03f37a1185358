//! The log that the program keeps of itself.
use vstd::prelude::*;

use crate::number::{decimal, padded_decimal_string, zero_padded};
use crate::text::{concat2, concat3, owned};

verus! {

/// How grave a message is, from the gravest on.
#[derive(Clone, Copy, Debug, PartialEq, Eq, Structural)]
pub enum Level {
    Error,
    Warn,
    Info,
    Debug,
    Trace,
}

/// A message in the log.
#[derive(Debug)]
pub struct LogEntry {
    /// Seconds since 1970 in UTC.
    pub timestamp_secs: u64,
    pub level: Level,
    pub message: String,
}

/// A [`LogEntry`] as a mathematical value.
#[verifier::ext_equal]
pub ghost struct LogEntryView {
    pub timestamp_secs: u64,
    pub level: Level,
    pub message: Seq<char>,
}

impl DeepView for LogEntry {
    type V = LogEntryView;

    open spec fn deep_view(&self) -> LogEntryView {
        LogEntryView {
            timestamp_secs: self.timestamp_secs,
            level: self.level,
            message: self.message@,
        }
    }
}

impl Clone for LogEntry {
    fn clone(&self) -> (r: Self)
        ensures
            r.deep_view() == self.deep_view(),
    {
        LogEntry {
            timestamp_secs: self.timestamp_secs,
            level: self.level,
            message: owned(self.message.as_str()),
        }
    }
}

/// A number with at least two digits.
pub open spec fn two_digits(n: nat) -> Seq<char> {
    zero_padded(decimal(n), 2)
}

/// The label of a level, five characters long.
pub open spec fn level_label(level: Level) -> Seq<char> {
    match level {
        Level::Error => "ERROR"@,
        Level::Warn => "WARN "@,
        Level::Info => "INFO "@,
        Level::Debug => "DEBUG"@,
        Level::Trace => "TRACE"@,
    }
}

impl LogEntry {
    /// The time as `HH:MM:SS UTC`.
    pub fn time_str(&self) -> (r: String)
        ensures
            r@ == two_digits((self.timestamp_secs / 3600 % 24) as nat) + ":"@ + two_digits(
                (self.timestamp_secs / 60 % 60) as nat,
            ) + ":"@ + two_digits((self.timestamp_secs % 60) as nat) + " UTC"@,
    {
        let secs: u64 = self.timestamp_secs;
        let h = padded_decimal_string(secs / 3600 % 24, 2);
        let m = padded_decimal_string(secs / 60 % 60, 2);
        let s = padded_decimal_string(secs % 60, 2);
        let hm = concat3(h.as_str(), ":", m.as_str());
        let hms = concat3(hm.as_str(), ":", s.as_str());
        concat2(hms.as_str(), " UTC")
    }

    /// The label of the level.
    pub fn level_str(&self) -> (r: &'static str)
        ensures
            r@ == level_label(self.level),
    {
        match self.level {
            Level::Error => "ERROR",
            Level::Warn => "WARN ",
            Level::Info => "INFO ",
            Level::Debug => "DEBUG",
            Level::Trace => "TRACE",
        }
    }
}

/// How many messages are kept.
pub const MAX_ENTRIES: usize = 10_000;

/// Messages of the level are kept: all but those that trace.
pub open spec fn is_captured(level: Level) -> bool {
    level != Level::Trace
}

/// The messages that are kept after one more.
pub open spec fn with_entry(kept: Seq<LogEntryView>, e: LogEntryView) -> Seq<LogEntryView> {
    if !is_captured(e.level) {
        kept
    } else if kept.len() < MAX_ENTRIES {
        kept.push(e)
    } else {
        kept.push(e).skip(kept.len() + 1 - MAX_ENTRIES)
    }
}

/// The last messages, as many as are kept.
pub struct LogBuffer {
    entries: Vec<LogEntry>,
}

impl LogBuffer {
    /// The messages that are kept, from the oldest on.
    pub closed spec fn kept(&self) -> Seq<LogEntryView> {
        self.entries.deep_view()
    }

    #[verifier::type_invariant]
    spec fn bounded(self) -> bool {
        self.entries@.len() <= MAX_ENTRIES
    }

    /// No message has come.
    pub fn new() -> (r: Self)
        ensures
            r.kept() == Seq::<LogEntryView>::empty(),
    {
        let entries: Vec<LogEntry> = Vec::new();
        assert(entries.deep_view() =~= Seq::empty());
        LogBuffer { entries }
    }

    /// Takes in a message; the oldest makes room.
    pub fn log(&mut self, entry: LogEntry)
        ensures
            final(self).kept() == with_entry(old(self).kept(), entry.deep_view()),
    {
        proof {
            use_type_invariant(&*self);
        }
        match entry.level {
            Level::Trace => {
                return;
            },
            _ => {},
        }
        let ghost before = self.kept();
        let ghost e = entry.deep_view();
        let mut entries: Vec<LogEntry> = Vec::new();
        std::mem::swap(&mut entries, &mut self.entries);
        entries.push(entry);
        assert(entries.deep_view() =~= before.push(e));
        if entries.len() > MAX_ENTRIES {
            let oldest = entries.remove(0);
            assert(entries.deep_view() =~= before.push(e).skip(1));
        }
        self.entries = entries;
    }
}

/// A copy of the messages that are kept.
pub fn get_logs(buffer: &LogBuffer) -> (r: Vec<LogEntry>)
    ensures
        r.deep_view() == buffer.kept(),
        r@.len() <= MAX_ENTRIES,
{
    proof {
        use_type_invariant(buffer);
    }
    let ghost all = buffer.kept();
    let mut r: Vec<LogEntry> = Vec::new();
    for i in 0..buffer.entries.len()
        invariant
            all == buffer.kept(),
            buffer.entries@.len() <= MAX_ENTRIES,
            r@.len() == i,
            forall|j: int| 0 <= j < i ==> #[trigger] r@[j].deep_view() == all[j],
    {
        assert(all[i as int] == buffer.entries@[i as int].deep_view());
        r.push(buffer.entries[i].clone());
    }
    assert(r.deep_view() =~= all);
    r
}

/// An operation whose time is taken.
#[derive(Debug)]
pub struct Span {
    pub name: String,
    pub context: String,
}

/// The operation with its name and what it is about.
pub fn span(name: &str, context: &str) -> (r: Span)
    ensures
        r.name@ == name@,
        r.context@ == context@,
{
    Span { name: owned(name), context: owned(context) }
}

impl Span {
    /// The message when the operation starts.
    pub fn started(&self) -> (r: String)
        ensures
            r@ == "[Span] "@ + self.name@ + " started | "@ + self.context@,
    {
        let start = concat3("[Span] ", self.name.as_str(), " started | ");
        concat2(start.as_str(), self.context.as_str())
    }

    /// The message when the operation has ended, given the seconds it took.
    pub fn completed(&self, seconds: &str) -> (r: String)
        ensures
            r@ == "[Span] "@ + self.name@ + " completed in "@ + seconds@ + "s"@ + (
            if self.context@.len() == 0 {
                Seq::empty()
            } else {
                " | "@ + self.context@
            }),
    {
        let start = concat3("[Span] ", self.name.as_str(), " completed in ");
        let message = concat3(start.as_str(), seconds, "s");
        if self.context.as_str().is_empty() {
            assert(message@ + Seq::<char>::empty() =~= message@);
            message
        } else {
            let rest = concat2(" | ", self.context.as_str());
            concat2(message.as_str(), rest.as_str())
        }
    }
}

// ── Laws ────────────────────────────────────────────────────────────────────

/// The messages of a history, taken in one after the other.
pub open spec fn kept_of(history: Seq<LogEntryView>) -> Seq<LogEntryView>
    decreases history.len(),
{
    if history.len() == 0 {
        Seq::empty()
    } else {
        with_entry(kept_of(history.drop_last()), history.last())
    }
}

/// What is kept of a history are its last messages, without those that trace,
/// and never more than the limit.
pub proof fn buffer_keeps_the_latest(history: Seq<LogEntryView>)
    ensures
        ({
            let captured = history.filter(|e: LogEntryView| is_captured(e.level));
            &&& kept_of(history).len() <= MAX_ENTRIES
            &&& kept_of(history) == if captured.len() > MAX_ENTRIES {
                captured.skip(captured.len() - MAX_ENTRIES)
            } else {
                captured
            }
        }),
    decreases history.len(),
{
    reveal(Seq::filter);
    let pred = |e: LogEntryView| is_captured(e.level);
    let captured = history.filter(pred);
    if history.len() > 0 {
        let rest = history.drop_last();
        buffer_keeps_the_latest(rest);
        let before = rest.filter(pred);
        if is_captured(history.last().level) {
            assert(captured == before.push(history.last()));
            if captured.len() > MAX_ENTRIES {
                assert(kept_of(history) =~= captured.skip(captured.len() - MAX_ENTRIES));
            } else {
                assert(kept_of(history) =~= captured);
            }
        } else {
            assert(captured == before);
        }
    }
}

} // verus!
