//! Log records: their levels, their queue and their lines.
//!
//! A [`Logger`] keeps what was logged until the caller takes it away to
//! print or store it.

use vstd::prelude::*;
use vstd::string::StringExecFns;

verus! {

/// How much a record matters.
#[derive(Clone, Copy, Debug, PartialEq, Eq, Structural)]
pub enum LogLevel {
    DEBUG,
    INFO,
    WARN,
    ERROR,
}

impl LogLevel {
    /// The name of the level.
    pub open spec fn spec_as_str(self) -> Seq<char> {
        match self {
            LogLevel::DEBUG => "DEBUG"@,
            LogLevel::INFO => "INFO"@,
            LogLevel::WARN => "WARN"@,
            LogLevel::ERROR => "ERROR"@,
        }
    }

    /// The name of the level.
    pub fn as_str(&self) -> (name: &'static str)
        ensures
            name@ == self.spec_as_str(),
    {
        match self {
            LogLevel::DEBUG => "DEBUG",
            LogLevel::INFO => "INFO",
            LogLevel::WARN => "WARN",
            LogLevel::ERROR => "ERROR",
        }
    }
}

/// One logged message.
pub struct LogRecord {
    pub level: LogLevel,
    pub message: String,
}

/// A record as a value of specifications.
pub open spec fn record_view(record: LogRecord) -> (LogLevel, Seq<char>) {
    (record.level, record.message@)
}

/// The line of a record that was logged at `timestamp`.
pub open spec fn line_of(timestamp: Seq<char>, level: LogLevel, message: Seq<char>) -> Seq<char> {
    "["@ + timestamp + "]["@ + level.spec_as_str() + "] "@ + message
}

/// The line of a record that was logged at `timestamp`: the time and the
/// level, each in brackets, a space and the message.
pub fn format_line(timestamp: &str, level: LogLevel, message: &str) -> (line: String)
    ensures
        line@ == line_of(timestamp@, level, message@),
{
    let mut line = String::from_str("[");
    line.append(timestamp);
    line.append("][");
    line.append(level.as_str());
    line.append("] ");
    line.append(message);
    line
}

/// The name of the file that holds the lines of the day `date`.
pub fn log_file_name(date: &str) -> (name: String)
    ensures
        name@ == date@ + ".log"@,
{
    let mut name = String::from_str(date);
    name.append(".log");
    name
}

/// A queue of records, oldest first.
pub struct Logger {
    records: Vec<LogRecord>,
}

impl View for Logger {
    type V = Seq<(LogLevel, Seq<char>)>;

    closed spec fn view(&self) -> Seq<(LogLevel, Seq<char>)> {
        self.records@.map_values(|r: LogRecord| record_view(r))
    }
}

impl Logger {
    /// A logger with nothing in its queue.
    pub fn new() -> (logger: Self)
        ensures
            logger@ == Seq::<(LogLevel, Seq<char>)>::empty(),
    {
        let logger = Logger { records: Vec::new() };
        logger
    }

    /// Puts a record at the end of the queue.
    pub fn log(&mut self, level: LogLevel, msg: &str)
        ensures
            final(self)@ == old(self)@.push((level, msg@)),
    {
        self.records.push(LogRecord { level, message: String::from_str(msg) });
    }

    /// Logs `msg` at the level `DEBUG`.
    pub fn debug(&mut self, msg: &str)
        ensures
            final(self)@ == old(self)@.push((LogLevel::DEBUG, msg@)),
    {
        self.log(LogLevel::DEBUG, msg);
    }

    /// Logs `msg` at the level `INFO`.
    pub fn info(&mut self, msg: &str)
        ensures
            final(self)@ == old(self)@.push((LogLevel::INFO, msg@)),
    {
        self.log(LogLevel::INFO, msg);
    }

    /// Logs `msg` at the level `WARN`.
    pub fn warn(&mut self, msg: &str)
        ensures
            final(self)@ == old(self)@.push((LogLevel::WARN, msg@)),
    {
        self.log(LogLevel::WARN, msg);
    }

    /// Logs `msg` at the level `ERROR`.
    pub fn error(&mut self, msg: &str)
        ensures
            final(self)@ == old(self)@.push((LogLevel::ERROR, msg@)),
    {
        self.log(LogLevel::ERROR, msg);
    }

    /// Takes the queue away, oldest record first, and leaves it empty.
    pub fn take(&mut self) -> (records: Vec<LogRecord>)
        ensures
            records@.map_values(|r: LogRecord| record_view(r)) == old(self)@,
            final(self)@ == Seq::<(LogLevel, Seq<char>)>::empty(),
    {
        let mut records: Vec<LogRecord> = Vec::new();
        std::mem::swap(&mut self.records, &mut records);
        records
    }
}

} // verus!
