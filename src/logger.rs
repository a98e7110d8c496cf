use vstd::prelude::*;

verus! {

/// Severity of a log message, from least to most severe.
#[derive(Clone, Copy, Debug, PartialEq, Eq, Structural)]
pub enum LogLevel {
    Debug,
    Info,
    Warning,
    Error,
}

/// Log files are truncated once they hold more lines than this.
pub const MAX_LOG_LINES: usize = 1000;

pub open spec fn rank(l: LogLevel) -> int {
    match l {
        LogLevel::Debug => 0,
        LogLevel::Info => 1,
        LogLevel::Warning => 2,
        LogLevel::Error => 3,
    }
}

pub open spec fn level_name(l: LogLevel) -> Seq<char> {
    match l {
        LogLevel::Debug => "DEBUG"@,
        LogLevel::Info => "INFO"@,
        LogLevel::Warning => "WARNING"@,
        LogLevel::Error => "ERROR"@,
    }
}

/// The level whose upper-case name is `s`.
pub open spec fn level_named(s: Seq<char>) -> Option<LogLevel> {
    if s == "DEBUG"@ {
        Some(LogLevel::Debug)
    } else if s == "INFO"@ {
        Some(LogLevel::Info)
    } else if s == "WARNING"@ {
        Some(LogLevel::Warning)
    } else if s == "ERROR"@ {
        Some(LogLevel::Error)
    } else {
        None
    }
}

/// What `str::to_uppercase` yields on a text.
pub uninterp spec fn upper_of(s: Seq<char>) -> Seq<char>;

/// Relies on `str::to_uppercase`: the result depends on the characters alone.
#[verifier::external_body]
fn uppercase(s: &str) -> (r: String)
    ensures
        r@ == upper_of(s@),
{
    s.to_uppercase()
}

impl LogLevel {
    /// The level named `level`, in any letter case.
    pub fn from_str(level: &str) -> (r: Option<LogLevel>)
        ensures
            r == level_named(upper_of(level@)),
    {
        let upper = uppercase(level);
        LogLevel::from_upper(&upper)
    }

    /// The level whose upper-case name is `name`.
    pub fn from_upper(name: &String) -> (r: Option<LogLevel>)
        ensures
            r == level_named(name@),
    {
        if name.eq(&String::from_str("DEBUG")) {
            Some(LogLevel::Debug)
        } else if name.eq(&String::from_str("INFO")) {
            Some(LogLevel::Info)
        } else if name.eq(&String::from_str("WARNING")) {
            Some(LogLevel::Warning)
        } else if name.eq(&String::from_str("ERROR")) {
            Some(LogLevel::Error)
        } else {
            None
        }
    }

    /// The upper-case name of the level.
    pub fn name(&self) -> (r: String)
        ensures
            r@ == level_name(*self),
    {
        match self {
            LogLevel::Debug => String::from_str("DEBUG"),
            LogLevel::Info => String::from_str("INFO"),
            LogLevel::Warning => String::from_str("WARNING"),
            LogLevel::Error => String::from_str("ERROR"),
        }
    }

    pub fn rank(&self) -> (r: u8)
        ensures
            r == rank(*self),
    {
        match self {
            LogLevel::Debug => 0,
            LogLevel::Info => 1,
            LogLevel::Warning => 2,
            LogLevel::Error => 3,
        }
    }

    /// Whether a message of this level passes the minimum level `min`.
    pub fn passes(&self, min: LogLevel) -> (r: bool)
        ensures
            r == (rank(*self) >= rank(min)),
    {
        self.rank() >= min.rank()
    }
}

/// A request to the log sink.
pub enum LoggerCommand {
    Log(String, LogLevel),
    ChangeLogLevel(LogLevel),
}

/// The line written for a message of level `l`.
pub open spec fn message_line(l: LogLevel, msg: Seq<char>) -> Seq<char> {
    level_name(l) + ": "@ + msg
}

/// The line written when the minimum level becomes `l`.
pub open spec fn level_change_line(l: LogLevel) -> Seq<char> {
    "Log level changed to: "@ + level_name(l)
}

/// The decisions of the log sink: its minimum level, and which line each
/// request writes.
pub struct Logger {
    pub log_level: LogLevel,
}

impl Logger {
    /// A sink that writes every message.
    pub fn new() -> (r: Logger)
        ensures
            r.log_level == LogLevel::Debug,
    {
        Logger { log_level: LogLevel::Debug }
    }

    /// Handles one request and gives the line to write, if any. A message is
    /// written when its level is at least the minimum; a change of the minimum
    /// is reported at the `Info` level, against the new minimum.
    pub fn handle(&mut self, command: LoggerCommand) -> (r: Option<String>)
        ensures
            match command {
                LoggerCommand::Log(msg, l) => {
                    &&& final(self).log_level == old(self).log_level
                    &&& r is Some == (rank(l) >= rank(old(self).log_level))
                    &&& r matches Some(line) ==> line@ == message_line(l, msg@)
                },
                LoggerCommand::ChangeLogLevel(l) => {
                    &&& final(self).log_level == l
                    &&& r is Some == (rank(LogLevel::Info) >= rank(l))
                    &&& r matches Some(line) ==> line@ == level_change_line(l)
                },
            },
    {
        match command {
            LoggerCommand::Log(msg, level) => {
                if level.passes(self.log_level) {
                    let line = level.name().concat(": ").concat(msg.as_str());
                    Some(line)
                } else {
                    None
                }
            },
            LoggerCommand::ChangeLogLevel(level) => {
                self.log_level = level;
                if LogLevel::Info.passes(level) {
                    let line = String::from_str("Log level changed to: ").concat(level.name().as_str());
                    Some(line)
                } else {
                    None
                }
            },
        }
    }
}

/// Whether a log file of `line_count` lines is truncated before the next write.
pub fn needs_truncation(line_count: usize) -> (r: bool)
    ensures
        r == (line_count > MAX_LOG_LINES),
{
    line_count > MAX_LOG_LINES
}

} // verus!
