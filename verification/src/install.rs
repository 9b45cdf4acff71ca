//! What the installer and the uninstaller do, given the state in which they
//! find the service.

use vstd::prelude::*;

verus! {

/// What the Linux installer does next.
#[derive(Debug, Clone, Copy, PartialEq, Eq, Structural)]
pub enum InstallStep {
    /// The unit runs already: nothing to do.
    Done,
    /// The unit exists but does not run: start it.
    StartUnit,
    /// There is no unit: write the unit file, reload and enable it.
    WriteUnit,
}

/// The next step of the Linux installer, from the exit status of
/// `systemctl status` for the service's unit: 0 when it runs, 1 to 3 when it
/// exists but does not run, 4 when there is no such unit. Other statuses, and
/// a `systemctl` killed by a signal, are not handled.
pub fn install_step_for_status(code: Option<i32>) -> (r: InstallStep)
    requires
        code matches Some(c) && 0 <= c <= 4,
    ensures
        code == Some(0i32) ==> r == InstallStep::Done,
        (code matches Some(c) && 1 <= c <= 3) ==> r == InstallStep::StartUnit,
        code == Some(4i32) ==> r == InstallStep::WriteUnit,
{
    match code {
        Some(0) => InstallStep::Done,
        Some(4) => InstallStep::WriteUnit,
        _ => InstallStep::StartUnit,
    }
}

/// The state of a Windows service.
#[derive(Debug, Clone, Copy, PartialEq, Eq, Structural)]
pub enum ServiceRunState {
    Stopped,
    StartPending,
    StopPending,
    Running,
    ContinuePending,
    PausePending,
    Paused,
}

/// Whether the Windows installer starts an installed service that it finds
/// in `state`: when it is stopped or paused, or about to be.
pub fn install_should_start(state: ServiceRunState) -> (r: bool)
    ensures
        r == (state == ServiceRunState::StopPending || state == ServiceRunState::Stopped || state
            == ServiceRunState::PausePending || state == ServiceRunState::Paused),
{
    match state {
        ServiceRunState::StopPending
        | ServiceRunState::Stopped
        | ServiceRunState::PausePending
        | ServiceRunState::Paused => true,
        _ => false,
    }
}

/// Whether the Windows uninstaller stops the service before deleting it:
/// whenever it is not stopped.
pub fn uninstall_should_stop(state: ServiceRunState) -> (r: bool)
    ensures
        r == (state != ServiceRunState::Stopped),
{
    match state {
        ServiceRunState::Stopped => false,
        _ => true,
    }
}

} // verus!
