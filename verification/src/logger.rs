//! A minimal logger for the `log` facade: every record becomes one line on
//! standard error, `LEVEL|target|file:line: message`.
use vstd::prelude::*;

use std::io::Write;

use crate::text::{decimal, push_decimal};

verus! {

/// `log`'s level of a record.
#[verifier::external_type_specification]
#[verifier::external_body]
pub struct ExLevel(log::Level);

/// `log`'s record of one message.
#[verifier::external_type_specification]
#[verifier::external_body]
pub struct ExRecord<'a>(log::Record<'a>);

/// `log`'s description of a record, without its message.
#[verifier::external_type_specification]
#[verifier::external_body]
pub struct ExMetadata<'a>(log::Metadata<'a>);

/// The names that `log` gives its levels.
pub open spec fn is_level_name(s: Seq<char>) -> bool {
    ||| s == "ERROR"@
    ||| s == "WARN"@
    ||| s == "INFO"@
    ||| s == "DEBUG"@
    ||| s == "TRACE"@
}

/// The view of an optional string.
pub open spec fn opt_view(s: Option<&str>) -> Option<Seq<char>> {
    match s {
        Some(t) => Some(t@),
        None => None,
    }
}

/// The line written for a record: level, target, then the source file and
/// line where they are known, then the message.
pub open spec fn log_line(
    level: Seq<char>,
    target: Seq<char>,
    file: Option<Seq<char>>,
    line: Option<u32>,
    message: Seq<char>,
) -> Seq<char> {
    match (file, line) {
        (Some(f), Some(l)) => level + "|"@ + target + "|"@ + f + ":"@ + decimal(l as nat) + ": "@
            + message,
        (Some(f), None) => level + "|"@ + target + "|"@ + f + ": "@ + message,
        _ => level + "|"@ + target + ": "@ + message,
    }
}

/// Builds the line written for a record.
pub fn format_log_line(
    level: &str,
    target: &str,
    file: Option<&str>,
    line: Option<u32>,
    message: &str,
) -> (r: String)
    ensures
        r@ == log_line(level@, target@, opt_view(file), line, message@),
{
    let mut out = String::from_str(level);
    out.append("|");
    out.append(target);
    match (file, line) {
        (Some(f), Some(l)) => {
            out.append("|");
            out.append(f);
            out.append(":");
            push_decimal(&mut out, l);
            out.append(": ");
        },
        (Some(f), None) => {
            out.append("|");
            out.append(f);
            out.append(": ");
        },
        _ => {
            out.append(": ");
        },
    }
    out.append(message);
    proof {
        let lv = level@;
        let tg = target@;
        let ms = message@;
        match (file, line) {
            (Some(f), Some(l)) => {
                assert(out@ =~= lv + "|"@ + tg + "|"@ + f@ + ":"@ + decimal(l as nat) + ": "@ + ms);
            },
            (Some(f), None) => {
                assert(out@ =~= lv + "|"@ + tg + "|"@ + f@ + ": "@ + ms);
            },
            _ => {
                assert(out@ =~= lv + "|"@ + tg + ": "@ + ms);
            },
        }
    }
    out
}

/// Calls `log::Record::level`; the record is opaque here, so which level
/// comes back is not stated.
#[verifier::external_body]
fn record_level(record: &log::Record<'_>) -> log::Level {
    record.level()
}

/// Calls `log::Level::as_str`, which gives one of the five level names.
#[verifier::external_body]
fn level_name(level: log::Level) -> (name: &'static str)
    ensures
        is_level_name(name@),
{
    level.as_str()
}

/// Calls `log::Record::target`; which target the opaque record holds is not
/// stated.
#[verifier::external_body]
fn record_target<'a>(record: &log::Record<'a>) -> &'a str {
    record.target()
}

/// Calls `log::Record::file`; which file the opaque record holds is not
/// stated.
#[verifier::external_body]
fn record_file<'a>(record: &log::Record<'a>) -> Option<&'a str> {
    record.file()
}

/// Calls `log::Record::line`; which line the opaque record holds is not
/// stated.
#[verifier::external_body]
fn record_line(record: &log::Record<'_>) -> Option<u32> {
    record.line()
}

/// Calls `log::Record::args` and renders the arguments into a `String` with
/// `std::fmt::write`, keeping what was written if a formatting impl reports
/// an error; the text is not stated.
#[verifier::external_body]
fn record_message(record: &log::Record<'_>) -> String {
    let mut text = String::new();
    let _ = std::fmt::write(&mut text, *record.args());
    text
}

/// Writes `line` and a line break to standard error with `writeln!`,
/// ignoring a failed write.
#[verifier::external_body]
fn write_stderr_line(line: &str) {
    let _ = writeln!(std::io::stderr(), "{}", line);
}

/// Calls `log::set_logger` with a `Logger`; whether no logger was set
/// before, and so whether this one was installed, is not stated.
#[verifier::external_body]
fn install_logger() -> (installed: bool) {
    log::set_logger(&Logger(())).is_ok()
}

/// The most verbose level that a logger lets through, as `log` names them.
#[derive(Debug, Clone, Copy, PartialEq, Eq, Structural)]
pub enum MaxLevel {
    Off,
    Error,
    Warn,
    Info,
    Debug,
    Trace,
}

/// Calls `log::set_max_level` with the `log::LevelFilter` of the same name
/// as `level`.
#[verifier::external_body]
fn set_max_level(level: MaxLevel) {
    let filter = match level {
        MaxLevel::Off => log::LevelFilter::Off,
        MaxLevel::Error => log::LevelFilter::Error,
        MaxLevel::Warn => log::LevelFilter::Warn,
        MaxLevel::Info => log::LevelFilter::Info,
        MaxLevel::Debug => log::LevelFilter::Debug,
        MaxLevel::Trace => log::LevelFilter::Trace,
    };
    log::set_max_level(filter)
}

/// The simplest possible logger that logs to stderr.
#[derive(Debug)]
pub struct Logger(());

impl log::Log for Logger {
    fn enabled(&self, _metadata: &log::Metadata<'_>) -> (enabled: bool)
        ensures
            enabled,
    {
        true
    }

    fn log(&self, record: &log::Record<'_>) {
        let level = level_name(record_level(record));
        let message = record_message(record);
        let line = format_log_line(
            level,
            record_target(record),
            record_file(record),
            record_line(record),
            message.as_str(),
        );
        write_stderr_line(line.as_str());
    }

    fn flush(&self) {
    }
}

/// Installs `Logger` as the global logger and, if that succeeded, lets
/// messages up to the info level through.  Returns whether it was
/// installed; it is not when a logger was installed before.
pub fn init() -> (installed: bool) {
    let installed = install_logger();
    if installed {
        set_max_level(MaxLevel::Info);
    }
    installed
}

} // verus!
