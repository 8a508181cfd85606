//! How verbose the broker's log is.
use crate::rpc::owned;
use vstd::prelude::*;

verus! {

/// A log level, from least to most verbose.
#[derive(Debug, Clone, Copy, PartialEq, Eq)]
pub enum LogLevel {
    Error,
    Warn,
    Info,
    Debug,
    Trace,
}

/// The level for the markers beside the executable and the `BROKER_DEBUG`
/// setting: a `trace` marker file gives `Trace`, a `debug` marker `Debug`;
/// otherwise the setting names the level, and anything else (or no setting)
/// gives `Info`.
pub open spec fn level_for(trace_marker: bool, debug_marker: bool, setting: Option<Seq<char>>) -> LogLevel {
    if trace_marker {
        LogLevel::Trace
    } else if debug_marker {
        LogLevel::Debug
    } else {
        match setting {
            Some(s) => if s == "trace"@ {
                LogLevel::Trace
            } else if s == "debug"@ {
                LogLevel::Debug
            } else if s == "info"@ {
                LogLevel::Info
            } else if s == "warn"@ {
                LogLevel::Warn
            } else if s == "error"@ {
                LogLevel::Error
            } else {
                LogLevel::Info
            },
            None => LogLevel::Info,
        }
    }
}

/// Chooses the log level. `trace_marker` and `debug_marker` say whether
/// files named `trace` and `debug` sit beside the executable; `setting` is
/// the value of `BROKER_DEBUG`, if it is set.
pub fn logging_level(trace_marker: bool, debug_marker: bool, setting: Option<&str>) -> (level: LogLevel)
    ensures
        level == level_for(
            trace_marker,
            debug_marker,
            match setting {
                Some(s) => Some(s@),
                None => None,
            },
        ),
{
    if trace_marker {
        return LogLevel::Trace;
    }
    if debug_marker {
        return LogLevel::Debug;
    }
    match setting {
        Some(s) => {
            let s = owned(s);
            if s == owned("trace") {
                LogLevel::Trace
            } else if s == owned("debug") {
                LogLevel::Debug
            } else if s == owned("info") {
                LogLevel::Info
            } else if s == owned("warn") {
                LogLevel::Warn
            } else if s == owned("error") {
                LogLevel::Error
            } else {
                LogLevel::Info
            }
        },
        None => LogLevel::Info,
    }
}

} // verus!
