use log::LevelFilter;
use vstd::prelude::*;

verus! {

/// The most detailed kind of message that is reported.
#[derive(Debug, Clone, Copy, PartialEq, Eq, Structural)]
pub enum MaxLevel {
    /// Errors, warnings and results.
    Info,
    /// Everything, diagnostics included.
    Trace,
}

/// The level a run reports at: everything when verbose, results and errors otherwise.
pub fn max_level_for(verbose: bool) -> (r: MaxLevel)
    ensures
        r == (if verbose {
            MaxLevel::Trace
        } else {
            MaxLevel::Info
        }),
{
    if verbose {
        MaxLevel::Trace
    } else {
        MaxLevel::Info
    }
}

/// Relies on `log::set_max_level`: sets the process-wide maximum level of the `log` macros.
#[verifier::external_body]
fn apply_max_level(level: MaxLevel) {
    log::set_max_level(
        match level {
            MaxLevel::Info => LevelFilter::Info,
            MaxLevel::Trace => LevelFilter::Trace,
        },
    );
}

/// Sets the process-wide level of the log to what `max_level_for` gives.
pub fn set_verbose_level(verbose: bool) {
    apply_max_level(max_level_for(verbose));
}

} // verus!
