//! The clash core that the service runs: how it is launched, and what the
//! service remembers of it between requests.

use vstd::prelude::*;
use crate::error::ServiceError;

verus! {

/// What a client sends to start the clash core.
#[derive(Debug)]
pub struct StartBody {
    pub bin_path: String,
    pub config_dir: String,
    pub config_file: String,
    pub log_file: String,
}

impl Clone for StartBody {
    fn clone(&self) -> (r: Self)
        ensures
            r == *self,
    {
        StartBody {
            bin_path: self.bin_path.clone(),
            config_dir: self.config_dir.clone(),
            config_file: self.config_file.clone(),
            log_file: self.log_file.clone(),
        }
    }
}

/// What the service remembers of the clash core: the request it was started
/// with, while it runs.
#[derive(Debug)]
pub struct ClashStatus {
    pub info: Option<StartBody>,
}

/// What happens to the core: a stop request, or a start request that stops
/// the running core and then launches a new one, successfully or not.
#[derive(Debug)]
pub enum ClashEvent {
    Stopped,
    StartAttempted { body: StartBody, launched: bool },
}

/// The status after `event`: a start that launched its core remembers its
/// request; a stop, or a start whose launch failed (after it stopped the
/// previous core), leaves nothing remembered.
pub open spec fn spec_apply(status: ClashStatus, event: ClashEvent) -> ClashStatus {
    match event {
        ClashEvent::Stopped => ClashStatus { info: None },
        ClashEvent::StartAttempted { body, launched } => if launched {
            ClashStatus { info: Some(body) }
        } else {
            ClashStatus { info: None }
        },
    }
}

/// The status of a service that has seen `events`, in order, since it began.
pub open spec fn spec_run(events: Seq<ClashEvent>) -> ClashStatus
    decreases events.len(),
{
    if events.len() == 0 {
        ClashStatus { info: None }
    } else {
        spec_apply(spec_run(events.drop_last()), events.last())
    }
}

/// What `get_clash` answers in `status`.
pub open spec fn spec_get_clash(status: ClashStatus) -> Result<StartBody, ServiceError> {
    match status.info {
        Some(body) => Ok(body),
        None => Err(ServiceError::ClashNotExecuted),
    }
}

/// How to launch a core: the processes to kill first, the binary, its
/// arguments, and the file that receives its output.
#[derive(Debug)]
pub struct ClashLaunch {
    pub kill_process: String,
    pub program: String,
    pub args: Vec<String>,
    pub log_file: String,
}

impl ClashStatus {
    /// The status of a service that has started no core.
    pub fn new() -> (r: Self)
        ensures
            r.info is None,
    {
        ClashStatus { info: None }
    }

    /// A stop request: forgets the core and names the processes to kill.
    pub fn stop(&mut self) -> (kill: &'static str)
        ensures
            *final(self) == spec_apply(*old(self), ClashEvent::Stopped),
            kill@ == "verge-mihomo"@,
    {
        self.info = None;
        clash_process_name()
    }

    /// The first half of a start request: stops the running core, and says
    /// how to launch the one that `body` asks for.
    pub fn begin_start(&mut self, body: &StartBody) -> (plan: ClashLaunch)
        ensures
            final(self).info is None,
            plan.kill_process@ == "verge-mihomo"@,
            plan.program@ == body.bin_path@,
            plan.args@.map_values(|s: String| s@) == seq![
                "-d"@,
                body.config_dir@,
                "-f"@,
                body.config_file@,
            ],
            plan.log_file@ == body.log_file@,
    {
        self.info = None;
        ClashLaunch {
            kill_process: String::from_str(clash_process_name()),
            program: body.bin_path.clone(),
            args: clash_launch_args(body),
            log_file: body.log_file.clone(),
        }
    }

    /// The second half of a start request: remembers `body` when its core was
    /// launched.
    pub fn finish_start(&mut self, body: StartBody, launched: bool)
        ensures
            *final(self) == if launched {
                ClashStatus { info: Some(body) }
            } else {
                *old(self)
            },
    {
        if launched {
            self.info = Some(body);
        }
    }
}

impl Default for ClashStatus {
    fn default() -> (r: Self)
        ensures
            r.info is None,
    {
        ClashStatus { info: None }
    }
}

/// The request that the running core was started with, or
/// `ClashNotExecuted` when no core runs.
pub fn get_clash(status: &ClashStatus) -> (r: Result<StartBody, ServiceError>)
    ensures
        r == spec_get_clash(*status),
{
    match &status.info {
        Some(info) => Ok(info.clone()),
        None => Err(ServiceError::ClashNotExecuted),
    }
}

/// The name of the processes that stopping the core kills.
pub fn clash_process_name() -> (r: &'static str)
    ensures
        r@ == "verge-mihomo"@,
{
    "verge-mihomo"
}

/// The arguments that the core binary `body.bin_path` is launched with: its
/// configuration directory and file.
pub fn clash_launch_args(body: &StartBody) -> (r: Vec<String>)
    ensures
        r@.map_values(|s: String| s@) == seq!["-d"@, body.config_dir@, "-f"@, body.config_file@],
{
    let mut args: Vec<String> = Vec::new();
    args.push(String::from_str("-d"));
    args.push(body.config_dir.clone());
    args.push(String::from_str("-f"));
    args.push(body.config_file.clone());
    assert(args@.map_values(|s: String| s@) =~= seq![
        "-d"@,
        body.config_dir@,
        "-f"@,
        body.config_file@,
    ]);
    args
}

/// The two halves of a start request together make one start event.
pub proof fn law_start_halves_make_a_start(status: ClashStatus, body: StartBody, launched: bool)
    ensures
        ({
            let begun = ClashStatus { info: None };
            (if launched {
                ClashStatus { info: Some(body) }
            } else {
                begun
            }) == spec_apply(status, ClashEvent::StartAttempted { body, launched })
        }),
{
}

/// The request of the last event, when that event is a start that launched
/// its core.
pub open spec fn last_launched(events: Seq<ClashEvent>) -> Option<StartBody> {
    if events.len() == 0 {
        None
    } else {
        match events.last() {
            ClashEvent::StartAttempted { body, launched } => if launched {
                Some(body)
            } else {
                None
            },
            ClashEvent::Stopped => None,
        }
    }
}

/// After any sequence of requests, `get_clash` answers with the request of
/// the last start exactly when the last event was a start that launched its
/// core; before any request, after a stop, and after a failed start it
/// answers that no core runs.
pub proof fn law_get_clash_after_events(events: Seq<ClashEvent>)
    ensures
        spec_get_clash(spec_run(events)) == match last_launched(events) {
            Some(body) => Ok::<StartBody, ServiceError>(body),
            None => Err::<StartBody, ServiceError>(ServiceError::ClashNotExecuted),
        },
{
}

/// A start that launched its core is what `get_clash` answers with.
pub proof fn law_get_clash_after_start(status: ClashStatus, body: StartBody)
    ensures
        spec_get_clash(
            spec_apply(status, ClashEvent::StartAttempted { body, launched: true }),
        ) == Ok::<StartBody, ServiceError>(body),
{
}

/// Once the core is stopped, `get_clash` answers that no core runs.
pub proof fn law_get_clash_after_stop(status: ClashStatus)
    ensures
        spec_get_clash(spec_apply(status, ClashEvent::Stopped)) == Err::<StartBody, ServiceError>(
            ServiceError::ClashNotExecuted,
        ),
{
}

/// What a request leaves remembered does not depend on what was remembered
/// before it.
pub proof fn law_event_forgets_previous(s1: ClashStatus, s2: ClashStatus, event: ClashEvent)
    ensures
        spec_apply(s1, event) == spec_apply(s2, event),
{
}

} // verus!
