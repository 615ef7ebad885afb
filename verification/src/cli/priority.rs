//! Scheduling priority for the long audits of the command line.
//!
//! An audit saturates every core for minutes and nothing is waiting on it.
//! Lowering its process changes no CPU-seconds, it changes who gets a core
//! first when an editor, a build and the audit all want one.

use vstd::prelude::*;

verus! {

/// What a platform has of a background scheduling class.
#[derive(Debug, Clone, Copy, PartialEq, Eq, Structural)]
pub enum Platform {
    /// A dedicated background state, which throttles disk I/O along with CPU.
    MacOs,
    /// Nice values.
    Unix,
    /// Nothing.
    Other,
}

/// The lever that puts a process in the background.
#[derive(Debug, Clone, Copy, PartialEq, Eq, Structural)]
pub enum BackgroundRequest {
    /// Enter the background state.
    BackgroundState,
    /// Take this nice value.
    Nice(i32),
}

/// The lowest nice value an unprivileged process can ask for.
pub const LOWEST_NICE: i32 = 19;

/// The nice value from which on a process counts as being in the background.
pub const BACKGROUND_NICE: i32 = 10;

/// What to ask of the kernel to put this process in the background.
pub fn background_request(platform: Platform) -> (request: Option<BackgroundRequest>)
    ensures
        request == (match platform {
            Platform::MacOs => Some(BackgroundRequest::BackgroundState),
            Platform::Unix => Some(BackgroundRequest::Nice(LOWEST_NICE)),
            Platform::Other => None,
        }),
        platform is Unix <==> request == Some(BackgroundRequest::Nice(19)),
        platform is MacOs <==> request == Some(BackgroundRequest::BackgroundState),
{
    match platform {
        Platform::MacOs => Some(BackgroundRequest::BackgroundState),
        Platform::Unix => Some(BackgroundRequest::Nice(LOWEST_NICE)),
        Platform::Other => None,
    }
}

/// Whether a reading of a process's priority says that it is in the background.
pub open spec fn in_background(platform: Platform, reading: i32) -> bool {
    match platform {
        Platform::MacOs => reading == 1,
        Platform::Unix => reading >= BACKGROUND_NICE,
        Platform::Other => false,
    }
}

/// Whether this process is in the background scheduling class, by what the
/// kernel reads back after it was asked for.
///
/// `false` on a platform with no such class, and `false` if the kernel refused.
/// Neither is something a caller should report, because an audit that ran at
/// normal priority is an audit that ran. The background state reads as one or
/// zero, never as a nice value, so an error is no background.
pub fn lower_to_background(platform: Platform, reading: i32) -> (lowered: bool)
    ensures
        lowered == in_background(platform, reading),
{
    match platform {
        Platform::MacOs => reading == 1,
        Platform::Unix => reading >= BACKGROUND_NICE,
        Platform::Other => false,
    }
}

/// What the kernel reads back of a request that it granted.
pub open spec fn granted(request: BackgroundRequest) -> i32 {
    match request {
        BackgroundRequest::BackgroundState => 1,
        BackgroundRequest::Nice(value) => value,
    }
}

/// A request that was granted puts the process in the background, and asking
/// again asks for the same.
pub proof fn a_granted_request_is_read_back(platform: Platform, request: BackgroundRequest)
    requires
        (match platform {
            Platform::MacOs => Some(BackgroundRequest::BackgroundState),
            Platform::Unix => Some(BackgroundRequest::Nice(LOWEST_NICE)),
            Platform::Other => None,
        }) == Some(request),
    ensures
        in_background(platform, granted(request)),
{
}

/// A process counts as being in the background by what its platform reads: in
/// the background state where there is one, from a nice value of ten on where
/// there are those, and never where there is neither.
pub proof fn what_counts_as_background(reading: i32)
    ensures
        in_background(Platform::MacOs, reading) <==> reading == 1,
        in_background(Platform::Unix, reading) <==> 10 <= reading,
        !in_background(Platform::Other, reading),
{
}

} // verus!
