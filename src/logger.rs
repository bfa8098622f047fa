//! Which log messages the server prints.
use vstd::prelude::*;

verus! {

/// The severity of a log message, from the most to the least severe.
#[derive(Debug, Clone, Copy, PartialEq, Eq, Structural)]
pub enum LogLevel {
    Error,
    Warn,
    Info,
    Debug,
    Trace,
}

/// A logger that prints messages of level `Info` and more severe.
pub struct Logger;

impl Logger {
    pub fn enabled(&self, level: LogLevel) -> (r: bool)
        ensures
            r <==> !(level is Debug || level is Trace),
    {
        match level {
            LogLevel::Error | LogLevel::Warn | LogLevel::Info => true,
            LogLevel::Debug | LogLevel::Trace => false,
        }
    }
}

} // verus!
