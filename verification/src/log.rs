//! Tools for logging.

use std::time::{Duration, Instant};
use vstd::prelude::*;
use vstd::string::StringExecFns;

verus! {

/// How important a message is.
#[derive(Clone, Copy, Debug, PartialEq, Eq, Structural)]
pub enum Level {
    Error,
    Warn,
    Info,
    Debug,
    Trace,
}

/// The rank of a level: the less important, the higher.
pub open spec fn rank(level: Level) -> int {
    match level {
        Level::Error => 1,
        Level::Warn => 2,
        Level::Info => 3,
        Level::Debug => 4,
        Level::Trace => 5,
    }
}

/// The name of a level.
pub open spec fn level_name(level: Level) -> Seq<char> {
    match level {
        Level::Error => "ERROR"@,
        Level::Warn => "WARN"@,
        Level::Info => "INFO"@,
        Level::Debug => "DEBUG"@,
        Level::Trace => "TRACE"@,
    }
}

impl Level {
    /// The rank of the level.
    fn rank(self) -> (r: u8)
        ensures
            r == rank(self),
    {
        match self {
            Level::Error => 1,
            Level::Warn => 2,
            Level::Info => 3,
            Level::Debug => 4,
            Level::Trace => 5,
        }
    }

    /// The name of the level.
    pub fn name(self) -> (r: &'static str)
        ensures
            r@ == level_name(self),
    {
        match self {
            Level::Error => "ERROR",
            Level::Warn => "WARN",
            Level::Info => "INFO",
            Level::Debug => "DEBUG",
            Level::Trace => "TRACE",
        }
    }
}

/// Decides which messages are logged, and in which form.
#[derive(Clone, Copy, Debug)]
pub struct Logger {
    level: Level,
}

impl Logger {
    /// The least important level that is logged.
    pub closed spec fn level(&self) -> Level {
        self.level
    }

    /// Initialise with the specified log level.
    pub fn init(level: Level) -> (r: Logger)
        ensures
            r.level() == level,
    {
        Logger { level }
    }

    /// Tells whether messages of a level are logged.
    pub fn enabled(&self, level: Level) -> (r: bool)
        ensures
            r == (rank(level) <= rank(self.level())),
    {
        level.rank() <= self.level.rank()
    }

    /// Formats a message, if it is logged: its level, the thread that it is
    /// from, and the time since the start, both as they are displayed.
    pub fn log(&self, level: Level, thread: &str, elapsed: &str, message: &str) -> (r: Option<
        String,
    >)
        ensures
            match r {
                Some(line) => rank(level) <= rank(self.level()) && line@ == "["@ + level_name(level)
                    + " ("@ + thread@ + ") "@ + elapsed@ + "]: "@ + message@,
                None => rank(level) > rank(self.level()),
            },
    {
        if !self.enabled(level) {
            return None;
        }
        let mut s = "[".to_owned();
        s.append(level.name());
        s.append(" (");
        s.append(thread);
        s.append(") ");
        s.append(elapsed);
        s.append("]: ");
        s.append(message);
        Some(s)
    }
}

/// Points in time of `std::time`.
#[verifier::external_type_specification]
#[verifier::external_body]
pub struct ExInstant(std::time::Instant);

/// Wraps `Instant::now` of the standard library.
#[verifier::external_body]
fn now() -> Instant {
    Instant::now()
}

/// Wraps `Instant::elapsed` of the standard library.
#[verifier::external_body]
fn elapsed_since(start: Instant) -> Duration {
    start.elapsed()
}

/// Measures the time it took to run the specified block.
pub fn measure<F, T>(f: F) -> (r: (Duration, T)) where F: FnOnce() -> T
    requires
        call_requires(f, ()),
    ensures
        call_ensures(f, (), r.1),
{
    let start = now();
    let result = f();
    let elapsed = elapsed_since(start);
    (elapsed, result)
}

/// Measures the time it took to run the specified block.
pub fn measure_ok<F, T, E>(f: F) -> (r: Result<(Duration, T), E>) where F: FnOnce() -> Result<T, E>
    requires
        call_requires(f, ()),
    ensures
        match r {
            Ok((_, result)) => call_ensures(f, (), Ok::<T, E>(result)),
            Err(e) => call_ensures(f, (), Err::<T, E>(e)),
        },
{
    let start = now();
    match f() {
        Ok(result) => {
            let elapsed = elapsed_since(start);
            Ok((elapsed, result))
        },
        Err(e) => Err(e),
    }
}

/// Measures the time it took to run the specified block.
pub fn measure_some<F, T>(f: F) -> (r: Option<(Duration, T)>) where F: FnOnce() -> Option<T>
    requires
        call_requires(f, ()),
    ensures
        match r {
            Some((_, result)) => call_ensures(f, (), Some(result)),
            None => call_ensures(f, (), None::<T>),
        },
{
    let start = now();
    match f() {
        Some(result) => {
            let elapsed = elapsed_since(start);
            Some((elapsed, result))
        },
        None => None,
    }
}

/// A logger shows what is at its level or more severe, from errors at one end to
/// traces at the other.
pub proof fn law_levels_are_ordered()
    ensures
        rank(Level::Error) < rank(Level::Warn),
        rank(Level::Warn) < rank(Level::Info),
        rank(Level::Info) < rank(Level::Debug),
        rank(Level::Debug) < rank(Level::Trace),
{
}

} // verus!
