//! Settings that are read from the command line.
use vstd::prelude::*;
use crate::text::same_text;

verus! {

/// Severity levels of the log output.
#[derive(Debug, Clone, Copy, PartialEq, Eq, Structural)]
pub enum LogLevel {
    Trace,
    Debug,
    Info,
    Warn,
    Error,
    Off,
}

impl LogLevel {
    /// The level that a command line value names: `TRACE`, `DEBUG`, `INFO`,
    /// `WARN` and `ERROR` name their level, every other value turns logging off.
    pub fn from_name(name: &str) -> (level: LogLevel)
        ensures
            level == (if name@ == "TRACE"@ {
                LogLevel::Trace
            } else if name@ == "DEBUG"@ {
                LogLevel::Debug
            } else if name@ == "INFO"@ {
                LogLevel::Info
            } else if name@ == "WARN"@ {
                LogLevel::Warn
            } else if name@ == "ERROR"@ {
                LogLevel::Error
            } else {
                LogLevel::Off
            }),
    {
        if same_text(name, "TRACE") {
            LogLevel::Trace
        } else if same_text(name, "DEBUG") {
            LogLevel::Debug
        } else if same_text(name, "INFO") {
            LogLevel::Info
        } else if same_text(name, "WARN") {
            LogLevel::Warn
        } else if same_text(name, "ERROR") {
            LogLevel::Error
        } else {
            LogLevel::Off
        }
    }
}

} // verus!
