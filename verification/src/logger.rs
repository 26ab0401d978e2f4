//! The build log, modeled as explicit state: a level filter and the
//! formatted messages accumulated during one build. The log is created at
//! build start and handed to whoever writes it out at build end; nothing
//! here touches ambient global state or a file.

use vstd::prelude::*;

use crate::bytesutil::{append_bytes, clone_bytes, views};

verus! {

/// The severity of a log message, most severe first.
#[derive(Clone, Copy, PartialEq, Eq, Structural, Debug)]
pub enum LogLevel {
    ErrorLevel,
    WarnLevel,
    InfoLevel,
    DebugLevel,
    TraceLevel,
}

/// The rank of a level: lower numbers are more severe.
pub open spec fn level_rank(level: LogLevel) -> int {
    match level {
        LogLevel::ErrorLevel => 0,
        LogLevel::WarnLevel => 1,
        LogLevel::InfoLevel => 2,
        LogLevel::DebugLevel => 3,
        LogLevel::TraceLevel => 4,
    }
}

/// The tag a level prints as.
pub open spec fn level_tag(level: LogLevel) -> Seq<u8> {
    match level {
        LogLevel::ErrorLevel => seq![69u8, 82u8, 82u8, 79u8, 82u8],
        LogLevel::WarnLevel => seq![87u8, 65u8, 82u8, 78u8],
        LogLevel::InfoLevel => seq![73u8, 78u8, 70u8, 79u8],
        LogLevel::DebugLevel => seq![68u8, 69u8, 66u8, 85u8, 71u8],
        LogLevel::TraceLevel => seq![84u8, 82u8, 65u8, 67u8, 69u8],
    }
}

/// Builds the tag bytes of a level.
fn level_tag_bytes(level: LogLevel) -> (r: Vec<u8>)
    ensures
        r@ == level_tag(level),
{
    let mut v: Vec<u8> = Vec::new();
    match level {
        LogLevel::ErrorLevel => {
            v.push(69);
            v.push(82);
            v.push(82);
            v.push(79);
            v.push(82);
        },
        LogLevel::WarnLevel => {
            v.push(87);
            v.push(65);
            v.push(82);
            v.push(78);
        },
        LogLevel::InfoLevel => {
            v.push(73);
            v.push(78);
            v.push(70);
            v.push(79);
        },
        LogLevel::DebugLevel => {
            v.push(68);
            v.push(69);
            v.push(66);
            v.push(85);
            v.push(71);
        },
        LogLevel::TraceLevel => {
            v.push(84);
            v.push(82);
            v.push(65);
            v.push(67);
            v.push(69);
        },
    }
    proof {
        assert(v@ =~= level_tag(level));
    }
    v
}

/// One formatted log line: `<timestamp> [<LEVEL>] <target> - <message>`.
pub open spec fn line_text(
    timestamp: Seq<u8>,
    level: LogLevel,
    target: Seq<u8>,
    message: Seq<u8>,
) -> Seq<u8> {
    timestamp + seq![32u8, 91u8] + level_tag(level) + seq![93u8, 32u8] + target + seq![
        32u8,
        45u8,
        32u8,
    ] + message
}

/// The build log: a level filter and the accepted messages in arrival
/// order.
pub struct FileLogger {
    level: LogLevel,
    messages: Vec<Vec<u8>>,
}

impl FileLogger {
    /// The accepted messages, in order.
    pub closed spec fn model(self) -> Seq<Seq<u8>> {
        views(self.messages@)
    }

    /// The configured level filter.
    pub closed spec fn spec_level(self) -> LogLevel {
        self.level
    }

    /// Creates a logger that accepts messages at `level` and anything
    /// more severe.
    pub fn new(level: LogLevel) -> (l: FileLogger)
        ensures
            l.spec_level() == level,
            l.model() =~= Seq::<Seq<u8>>::empty(),
    {
        FileLogger { level, messages: Vec::new() }
    }

    /// Whether a message at `level` passes the filter.
    pub fn enabled(&self, level: LogLevel) -> (r: bool)
        ensures
            r == (level_rank(level) <= level_rank(self.spec_level())),
    {
        let rank: u8 = match level {
            LogLevel::ErrorLevel => 0,
            LogLevel::WarnLevel => 1,
            LogLevel::InfoLevel => 2,
            LogLevel::DebugLevel => 3,
            LogLevel::TraceLevel => 4,
        };
        let own: u8 = match self.level {
            LogLevel::ErrorLevel => 0,
            LogLevel::WarnLevel => 1,
            LogLevel::InfoLevel => 2,
            LogLevel::DebugLevel => 3,
            LogLevel::TraceLevel => 4,
        };
        rank <= own
    }

    /// Records a message when its level passes the filter: the formatted
    /// line is appended, and nothing else changes.
    pub fn log(&mut self, timestamp: &Vec<u8>, level: LogLevel, target: &Vec<u8>, message: &Vec<u8>)
        ensures
            final(self).spec_level() == old(self).spec_level(),
            level_rank(level) <= level_rank(old(self).spec_level()) ==> final(self).model() == old(
                self,
            ).model().push(line_text(timestamp@, level, target@, message@)),
            level_rank(level) > level_rank(old(self).spec_level()) ==> final(self).model() == old(
                self,
            ).model(),
    {
        if !self.enabled(level) {
            return ;
        }
        let mut line = clone_bytes(timestamp);
        line.push(32);
        line.push(91);
        let tag = level_tag_bytes(level);
        append_bytes(&mut line, &tag);
        line.push(93);
        line.push(32);
        append_bytes(&mut line, target);
        line.push(32);
        line.push(45);
        line.push(32);
        append_bytes(&mut line, message);
        let ghost prev = self.model();
        proof {
            assert(line@ =~= line_text(timestamp@, level, target@, message@));
        }
        self.messages.push(line);
        proof {
            assert(self.model() =~= prev.push(line_text(timestamp@, level, target@, message@)));
        }
    }

    /// The recorded lines, for whoever writes the log out.
    pub fn lines(&self) -> (r: Vec<Vec<u8>>)
        ensures
            views(r@) == self.model(),
    {
        crate::bytesutil::clone_list(&self.messages)
    }

    /// Completes a write-out; the in-memory log holds nothing to flush.
    pub fn flush(&self) {
    }
}

/// Creates the build log with the given level filter; the caller owns it
/// and injects it where messages arise.
pub fn init_logger(level: LogLevel) -> (l: FileLogger)
    ensures
        l.spec_level() == level,
        l.model() =~= Seq::<Seq<u8>>::empty(),
{
    FileLogger::new(level)
}

/// Exercises the logger: one message per severity that the filter may
/// accept or drop.
pub fn test_logger(log: &mut FileLogger, timestamp: &Vec<u8>)
    ensures
        final(log).spec_level() == old(log).spec_level(),
        final(log).model().len() <= old(log).model().len() + 3,
        final(log).model().len() >= old(log).model().len(),
{
    let target = {
        let mut t: Vec<u8> = Vec::new();
        t.push(98);
        t.push(117);
        t.push(105);
        t.push(108);
        t.push(100);
        t
    };
    let mut message: Vec<u8> = Vec::new();
    message.push(111);
    message.push(107);
    log.log(timestamp, LogLevel::InfoLevel, &target, &message);
    log.log(timestamp, LogLevel::WarnLevel, &target, &message);
    log.log(timestamp, LogLevel::ErrorLevel, &target, &message);
}

} // verus!
