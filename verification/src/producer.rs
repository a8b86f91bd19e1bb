//! The vocabulary of the logger that writes the files: level names, field
//! keys, the separator line and the layout of its output directory.

use crate::record::is_skippable;
use crate::number::{parse_u64_chars, u64_of};
use crate::text::{
    all_chars_are, chars_of, lowered, lowered_chars, same_chars, string_of_range, trim_bounds, trimmed,
    uppered, uppered_range,
};
use vstd::prelude::*;

verus! {

/// The severity of a log entry.
#[derive(Debug, Clone, Copy, PartialEq, Eq, Structural)]
pub enum Level {
    Trace,
    Debug,
    Info,
    Warn,
    Error,
    Fatal,
}

/// The level that a name denotes, whatever its ASCII case; `warning` is
/// another name for `warn`.
pub open spec fn level_named(name: Seq<char>) -> Option<Level> {
    let l = lowered(name);
    if l == "trace"@ {
        Some(Level::Trace)
    } else if l == "debug"@ {
        Some(Level::Debug)
    } else if l == "info"@ {
        Some(Level::Info)
    } else if l == "warn"@ || l == "warning"@ {
        Some(Level::Warn)
    } else if l == "error"@ {
        Some(Level::Error)
    } else if l == "fatal"@ {
        Some(Level::Fatal)
    } else {
        None
    }
}

impl Level {
    /// The name of the level as it is written to a record.
    pub open spec fn name(&self) -> Seq<char> {
        match self {
            Level::Trace => "trace"@,
            Level::Debug => "debug"@,
            Level::Info => "info"@,
            Level::Warn => "warn"@,
            Level::Error => "error"@,
            Level::Fatal => "fatal"@,
        }
    }

    /// The number of the level: 10 for trace, then in steps of ten, up to 60 for fatal.
    pub open spec fn number(&self) -> int {
        match self {
            Level::Trace => 10,
            Level::Debug => 20,
            Level::Info => 30,
            Level::Warn => 40,
            Level::Error => 50,
            Level::Fatal => 60,
        }
    }

    /// The name of the level as it is written to a record.
    pub fn as_str(&self) -> (s: &'static str)
        ensures
            s@ == self.name(),
    {
        match self {
            Level::Trace => "trace",
            Level::Debug => "debug",
            Level::Info => "info",
            Level::Warn => "warn",
            Level::Error => "error",
            Level::Fatal => "fatal",
        }
    }

    /// The number of the level.
    pub fn code(&self) -> (n: u32)
        ensures
            n == self.number(),
    {
        match self {
            Level::Trace => 10,
            Level::Debug => 20,
            Level::Info => 30,
            Level::Warn => 40,
            Level::Error => 50,
            Level::Fatal => 60,
        }
    }

    /// The level that `level` names.
    pub fn parse_level(level: &str) -> (res: Option<Level>)
        ensures
            res == level_named(level@),
    {
        let l = lowered_chars(level);
        if same_chars(&l, &chars_of("trace")) {
            Some(Level::Trace)
        } else if same_chars(&l, &chars_of("debug")) {
            Some(Level::Debug)
        } else if same_chars(&l, &chars_of("info")) {
            Some(Level::Info)
        } else if same_chars(&l, &chars_of("warn")) || same_chars(&l, &chars_of("warning")) {
            Some(Level::Warn)
        } else if same_chars(&l, &chars_of("error")) {
            Some(Level::Error)
        } else if same_chars(&l, &chars_of("fatal")) {
            Some(Level::Fatal)
        } else {
            None
        }
    }
}

/// A level's name reads back as the level.
pub proof fn lemma_level_name_round_trip(level: Level)
    ensures
        level_named(level.name()) == Some(level),
{
    reveal_strlit("trace");
    reveal_strlit("debug");
    reveal_strlit("info");
    reveal_strlit("warn");
    reveal_strlit("warning");
    reveal_strlit("error");
    reveal_strlit("fatal");
    let name = level.name();
    assert(lowered(name) =~= name);
    assert("trace"@.len() == 5 && "debug"@.len() == 5 && "info"@.len() == 4 && "warn"@.len() == 4
        && "warning"@.len() == 7 && "error"@.len() == 5 && "fatal"@.len() == 5);
    assert("trace"@[0] == 't' && "debug"@[0] == 'd' && "error"@[0] == 'e' && "fatal"@[0] == 'f'
        && "info"@[0] == 'i' && "warn"@[0] == 'w');
}

/// The keys of the fields that every record may carry.
#[derive(Debug, Clone, Copy, PartialEq, Eq, Hash, Structural)]
pub enum ContextKey {
    Level,
    LogLevel,
    Time,
    Message,
    Name,
    CorrelationId,
    RequestId,
    TraceId,
    Namespace,
    Service,
    Duration,
    Error,
    ErrorDetails,
    Context,
    User,
    Http,
}

impl ContextKey {
    /// The key as it is written to a record.
    pub open spec fn text(&self) -> Seq<char> {
        match self {
            ContextKey::Level => "level"@,
            ContextKey::LogLevel => "LogLevel"@,
            ContextKey::Time => "time"@,
            ContextKey::Message => "msg"@,
            ContextKey::Name => "name"@,
            ContextKey::CorrelationId => "correlationId"@,
            ContextKey::RequestId => "requestId"@,
            ContextKey::TraceId => "traceId"@,
            ContextKey::Namespace => "namespace"@,
            ContextKey::Service => "service"@,
            ContextKey::Duration => "duration"@,
            ContextKey::Error => "error"@,
            ContextKey::ErrorDetails => "errorDetails"@,
            ContextKey::Context => "context"@,
            ContextKey::User => "user"@,
            ContextKey::Http => "http"@,
        }
    }

    /// The key as it is written to a record.
    pub fn as_str(&self) -> (s: &'static str)
        ensures
            s@ == self.text(),
    {
        match self {
            ContextKey::Level => "level",
            ContextKey::LogLevel => "LogLevel",
            ContextKey::Time => "time",
            ContextKey::Message => "msg",
            ContextKey::Name => "name",
            ContextKey::CorrelationId => "correlationId",
            ContextKey::RequestId => "requestId",
            ContextKey::TraceId => "traceId",
            ContextKey::Namespace => "namespace",
            ContextKey::Service => "service",
            ContextKey::Duration => "duration",
            ContextKey::Error => "error",
            ContextKey::ErrorDetails => "errorDetails",
            ContextKey::Context => "context",
            ContextKey::User => "user",
            ContextKey::Http => "http",
        }
    }
}

/// The line that the logger writes between pretty-printed records.
pub const SEPARATOR: &'static str =
    "----------------------------------------------------------------------------------------------------";

/// The width of the separator line.
pub const SEPARATOR_WIDTH: usize = 100;

/// The line that the logger writes between pretty-printed records: one
/// hundred dashes.
pub fn separator() -> (s: &'static str)
    ensures
        s@.len() == SEPARATOR_WIDTH,
        all_chars_are(s@, '-'),
        is_skippable(s@),
{
    proof {
        reveal_strlit(
            "----------------------------------------------------------------------------------------------------",
        );
        let line = SEPARATOR@;
        assert(line.len() == 100);
        assert(all_chars_are(line, '-'));
        lemma_dashes_are_skippable(line);
    }
    SEPARATOR
}

/// A line of dashes starts no record.
pub proof fn lemma_dashes_are_skippable(line: Seq<char>)
    requires
        all_chars_are(line, '-'),
    ensures
        is_skippable(line),
{
    if line.len() > 0 {
        assert(line[0] == '-');
        assert(line.last() == '-');
        assert(trimmed(line) == line);
    }
}

/// Where and how the logger writes its files.
#[derive(Debug, Clone, PartialEq, Eq)]
pub struct RotationOptions {
    pub path: String,
    pub filename_prefix: String,
    pub extension: String,
    pub size: Option<String>,
    pub interval: Option<String>,
    pub max_files: usize,
    pub max_total_size: Option<String>,
}

impl Default for RotationOptions {
    /// Files named `output-*.ansi` under `.smooai-logs`, rotated at one
    /// mebibyte or one day, at most thirty files and a hundred mebibytes.
    fn default() -> (options: RotationOptions)
        ensures
            options.path@ == ".smooai-logs"@,
            options.filename_prefix@ == "output"@,
            options.extension@ == "ansi"@,
            options.size matches Some(s) && s@ == "1M"@,
            options.interval matches Some(s) && s@ == "1d"@,
            options.max_files == 30,
            options.max_total_size matches Some(s) && s@ == "100M"@,
    {
        RotationOptions {
            path: ".smooai-logs".to_owned(),
            filename_prefix: "output".to_owned(),
            extension: "ansi".to_owned(),
            size: Some("1M".to_owned()),
            interval: Some("1d".to_owned()),
            max_files: 30,
            max_total_size: Some("100M".to_owned()),
        }
    }
}

/// The number of bytes in a kibibyte.
pub const KIBI: u64 = 1024;

/// The number that a numeral denotes, times `factor`.
pub open spec fn scaled(body: Seq<char>, factor: nat) -> Option<nat> {
    match u64_of(body) {
        Some(n) => Some(n as nat * factor),
        None => None,
    }
}

/// The number of bytes that a size setting denotes: an unsigned numeral
/// that fits 64 bits, counted in kibibytes, mebibytes or gibibytes where `K`,
/// `M` or `G` follows it, in either case, and in bytes otherwise. Whitespace
/// around the setting does not count.
pub open spec fn size_in_bytes(setting: Seq<char>) -> Option<nat> {
    let upper = uppered(trimmed(setting));
    if upper.len() > 0 && upper.last() == 'K' {
        scaled(upper.drop_last(), 1024)
    } else if upper.len() > 0 && upper.last() == 'M' {
        scaled(upper.drop_last(), 1024 * 1024)
    } else if upper.len() > 0 && upper.last() == 'G' {
        scaled(upper.drop_last(), 1024 * 1024 * 1024)
    } else {
        scaled(upper, 1)
    }
}

/// The number of bytes that a size setting such as `1M` denotes. A setting
/// that denotes no size, or one that does not fit 64 bits, is refused as an
/// invalid size.
pub fn parse_size(size: &str) -> (res: Result<u64, &'static str>)
    ensures
        match size_in_bytes(size@) {
            Some(bytes) => if bytes <= u64::MAX {
                res == Ok::<u64, &'static str>(bytes as u64)
            } else {
                res is Err
            },
            None => res is Err,
        },
        res matches Err(message) ==> message@ == "invalid size"@,
{
    let chars = chars_of(size);
    let (start, end) = trim_bounds(&chars);
    let mut upper = uppered_range(&chars, start, end);
    let n = upper.len();
    let factor: u64 = if n > 0 && upper[n - 1] == 'K' {
        KIBI
    } else if n > 0 && upper[n - 1] == 'M' {
        KIBI * KIBI
    } else if n > 0 && upper[n - 1] == 'G' {
        KIBI * KIBI * KIBI
    } else {
        1
    };
    let ghost whole = upper@;
    if factor != 1 {
        upper.pop();
        assert(upper@ =~= whole.drop_last());
    }
    match parse_u64_chars(&upper) {
        Some(number) => {
            assert(number * factor <= 0xFFFF_FFFF_FFFF_FFFF * 0x4000_0000) by (nonlinear_arith)
                requires
                    number <= 0xFFFF_FFFF_FFFF_FFFF,
                    factor <= 0x4000_0000,
            ;
            let bytes: u128 = (number as u128) * (factor as u128);
            if bytes <= u64::MAX as u128 {
                Ok(bytes as u64)
            } else {
                Err("invalid size")
            }
        },
        None => Err("invalid size"),
    }
}

/// What is logged of an error: its message, the short name of its type, its
/// debug form, and the messages of its causes, outermost first.
#[derive(Debug, Clone, PartialEq, Eq)]
pub struct LoggedError {
    pub message: String,
    pub name: String,
    pub stack: Option<String>,
    pub causes: Vec<String>,
}

/// Where the last path segment of a type name begins, searching backwards
/// from `k`: just behind the last `::`, or at the start.
pub open spec fn short_name_start(full: Seq<char>, k: int) -> int
    decreases k,
{
    if k < 2 {
        0
    } else if full[k - 2] == ':' && full[k - 1] == ':' {
        k
    } else {
        short_name_start(full, k - 1)
    }
}

/// The last path segment of a type name.
pub open spec fn short_name(full: Seq<char>) -> Seq<char> {
    full.skip(short_name_start(full, full.len() as int))
}

/// The last path segment of a type name: what follows its last `::`.
pub fn extract_type_name(full: &str) -> (name: String)
    ensures
        name@ == short_name(full@),
{
    let chars = chars_of(full);
    let n = chars.len();
    let mut k: usize = n;
    while k >= 2 && !(chars[k - 2] == ':' && chars[k - 1] == ':')
        invariant
            k <= n == chars.len(),
            short_name_start(chars@, n as int) == short_name_start(chars@, k as int),
        decreases k,
    {
        k -= 1;
    }
    let start = if k < 2 {
        0
    } else {
        k
    };
    assert(chars@.skip(start as int) =~= chars@.subrange(start as int, n as int));
    string_of_range(&chars, start, n)
}

/// What is logged of an error with this message, type name, debug form and
/// chain of causes.
pub fn log_error(message: String, full_name: &str, debug: String, causes: Vec<String>) -> (logged:
    LoggedError)
    ensures
        logged.message == message,
        logged.name@ == short_name(full_name@),
        logged.stack == Some(debug),
        logged.causes == causes,
{
    LoggedError { message, name: extract_type_name(full_name), stack: Some(debug), causes }
}

} // verus!
