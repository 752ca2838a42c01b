//! Output-format selection: the closed set of report styles the runner
//! can produce, chosen once at run configuration time.

use vstd::prelude::*;
use vstd::string::StringExecFns;

verus! {

/// How results are reported: the runner's plain human-readable output,
/// or the TAP version 14 stream.
#[derive(Clone, Copy, Debug, PartialEq, Eq, Structural)]
pub enum OutputFormat {
    Default,
    Tap,
}

/// Where the TAP stream interleaves a task's own output: buffered into
/// the diagnostic block, echoed as TAP comments, or passed through on
/// the error stream.
#[derive(Clone, Copy, Debug, PartialEq, Eq, Structural)]
pub enum TapStream {
    Buffered,
    Comments,
    Stderr,
}

/// The environment opts in to TAP when the variable is set to a truthy
/// value.
pub open spec fn env_requests_tap(env_tap: Option<String>) -> bool {
    match env_tap {
        Some(v) => v@ == "true"@ || v@ == "1"@,
        None => false,
    }
}

/// Picks the report style once per run: TAP when the flag was given or
/// the environment requested it, the plain style otherwise.
pub fn choose_format(tap_flag: bool, env_tap: Option<String>) -> (f: OutputFormat)
    ensures
        f == (if tap_flag || env_requests_tap(env_tap) {
            OutputFormat::Tap
        } else {
            OutputFormat::Default
        }),
{
    if tap_flag {
        return OutputFormat::Tap;
    }
    match env_tap {
        Some(v) => {
            let yes = String::from_str("true");
            let one = String::from_str("1");
            if v == yes || v == one {
                OutputFormat::Tap
            } else {
                OutputFormat::Default
            }
        },
        None => OutputFormat::Default,
    }
}

} // verus!
