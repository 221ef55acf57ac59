//! A panic handler that lays out the backtrace of a panic in colour: each
//! frame's symbol path is told apart into its origin module, scope and leaf,
//! each frame gets a hue along a rainbow, and each module a stable colour.
//!
//! The library reads and lays out the trace; installing the handler and
//! writing to the terminal are left to the program around it.
pub mod color;
pub mod cursor;
pub mod display;
pub mod frame;
pub mod path;
pub mod report;

use vstd::prelude::*;

verus! {

/// Configuration for the panic handler.
#[derive(Debug, Clone, Copy, PartialEq, Eq, Structural)]
pub struct Config {
    /// If `true`, the handler that was installed before is called after this one.
    pub call_previous_hook: bool,
    /// If `true`, a backtrace is captured whatever the environment says.
    pub force_capture_backtrace: bool,
}

impl Default for Config {
    fn default() -> (r: Config)
        ensures
            !r.call_previous_hook,
            !r.force_capture_backtrace,
    {
        Config { call_previous_hook: false, force_capture_backtrace: false }
    }
}

/// A panic handler ready to be installed: what it does on a panic, with the
/// configuration it was made with.
pub struct PanicHook {
    pub config: Config,
}

impl PanicHook {
    /// Whether a backtrace is to be captured whatever the environment says.
    pub fn forces_capture(&self) -> (r: bool)
        ensures
            r == self.config.force_capture_backtrace,
    {
        self.config.force_capture_backtrace
    }

    /// Whether the handler installed before this one is to be called after it.
    pub fn chains_previous(&self) -> (r: bool)
        ensures
            r == self.config.call_previous_hook,
    {
        self.config.call_previous_hook
    }
}

/// The handler with the given configuration.
pub fn init_with(config: Config) -> (r: PanicHook)
    ensures
        r.config == config,
{
    PanicHook { config }
}

/// The handler with the default configuration: it neither chains to the
/// previous handler nor forces a backtrace.
pub fn init() -> (r: PanicHook)
    ensures
        !r.config.call_previous_hook,
        !r.config.force_capture_backtrace,
{
    init_with(Config::default())
}

} // verus!
