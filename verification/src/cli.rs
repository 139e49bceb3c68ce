//! The arguments of the subcommands, as plain values.

use vstd::prelude::*;

verus! {

/// How much is logged.
#[derive(Debug, Clone, Copy, PartialEq, Eq, Structural)]
pub enum LogLevel {
    Error,
    Warn,
    Info,
    Debug,
    Trace,
}

/// The name of a log level.
pub open spec fn level_name(l: LogLevel) -> Seq<char> {
    match l {
        LogLevel::Error => "error"@,
        LogLevel::Warn => "warn"@,
        LogLevel::Info => "info"@,
        LogLevel::Debug => "debug"@,
        LogLevel::Trace => "trace"@,
    }
}

impl LogLevel {
    /// The directive that sets the log filter to this level.
    pub fn as_filter_directive(self) -> (r: &'static str)
        ensures
            r@ == level_name(self),
    {
        match self {
            LogLevel::Error => "error",
            LogLevel::Warn => "warn",
            LogLevel::Info => "info",
            LogLevel::Debug => "debug",
            LogLevel::Trace => "trace",
        }
    }
}

/// The arguments of the vault check.
#[derive(Debug)]
pub struct DoctorArgs {
    /// The vault root.
    pub vault: Vec<u8>,
    pub log_level: LogLevel,
}

/// The arguments of the one-shot evaluations, merge and query.
#[derive(Debug)]
pub struct VaultQueryArgs {
    /// The vault root.
    pub vault: Vec<u8>,
    /// The query string; an empty one matches every note.
    pub query: String,
    pub log_level: LogLevel,
}

/// The level names are those that the log filter knows, each its own.
pub proof fn levels_have_their_names()
    ensures
        level_name(LogLevel::Error) == seq!['e', 'r', 'r', 'o', 'r'],
        level_name(LogLevel::Warn) == seq!['w', 'a', 'r', 'n'],
        level_name(LogLevel::Info) == seq!['i', 'n', 'f', 'o'],
        level_name(LogLevel::Debug) == seq!['d', 'e', 'b', 'u', 'g'],
        level_name(LogLevel::Trace) == seq!['t', 'r', 'a', 'c', 'e'],
{
    reveal_strlit("error");
    reveal_strlit("warn");
    reveal_strlit("info");
    reveal_strlit("debug");
    reveal_strlit("trace");
    assert(level_name(LogLevel::Error) =~= seq!['e', 'r', 'r', 'o', 'r']);
    assert(level_name(LogLevel::Warn) =~= seq!['w', 'a', 'r', 'n']);
    assert(level_name(LogLevel::Info) =~= seq!['i', 'n', 'f', 'o']);
    assert(level_name(LogLevel::Debug) =~= seq!['d', 'e', 'b', 'u', 'g']);
    assert(level_name(LogLevel::Trace) =~= seq!['t', 'r', 'a', 'c', 'e']);
}

}
