//! The decisions of the bridge when it runs as a Windows service: how it
//! answers the service control manager, and how it is registered.
use vstd::prelude::*;
use vstd::string::*;

verus! {

/// A control request from the service control manager.
#[derive(Debug, Clone, Copy, PartialEq, Eq)]
pub enum ServiceControlEvent {
    Interrogate,
    Stop,
    Shutdown,
    /// Any other request.
    Other,
}

/// How a control request is answered.
#[derive(Debug, Clone, Copy, PartialEq, Eq)]
pub enum ServiceControlAnswer {
    NoError,
    NotImplemented,
}

/// What the control handler does for one request.
#[derive(Debug, Clone, Copy, PartialEq, Eq)]
pub struct ServiceControlStep {
    /// The answer to the request.
    pub answer: ServiceControlAnswer,
    /// Whether the server is told to shut down now.
    pub signal_shutdown: bool,
    /// Whether a shutdown can still be signalled afterwards.
    pub shutdown_pending: bool,
}

/// The control handler's step for `event`, where `shutdown_pending` says
/// whether the shutdown signal has not been sent yet: an interrogation is
/// answered; a stop or a shutdown is answered and sends the signal the
/// first time only; anything else is not implemented.
pub open spec fn control_step(shutdown_pending: bool, event: ServiceControlEvent) -> ServiceControlStep {
    match event {
        ServiceControlEvent::Interrogate => ServiceControlStep {
            answer: ServiceControlAnswer::NoError,
            signal_shutdown: false,
            shutdown_pending,
        },
        ServiceControlEvent::Stop | ServiceControlEvent::Shutdown => ServiceControlStep {
            answer: ServiceControlAnswer::NoError,
            signal_shutdown: shutdown_pending,
            shutdown_pending: false,
        },
        ServiceControlEvent::Other => ServiceControlStep {
            answer: ServiceControlAnswer::NotImplemented,
            signal_shutdown: false,
            shutdown_pending,
        },
    }
}

/// The control handler's step for one request.
pub fn handle_control_event(shutdown_pending: bool, event: ServiceControlEvent) -> (s: ServiceControlStep)
    ensures
        s == control_step(shutdown_pending, event),
{
    match event {
        ServiceControlEvent::Interrogate => ServiceControlStep {
            answer: ServiceControlAnswer::NoError,
            signal_shutdown: false,
            shutdown_pending,
        },
        ServiceControlEvent::Stop | ServiceControlEvent::Shutdown => ServiceControlStep {
            answer: ServiceControlAnswer::NoError,
            signal_shutdown: shutdown_pending,
            shutdown_pending: false,
        },
        ServiceControlEvent::Other => ServiceControlStep {
            answer: ServiceControlAnswer::NotImplemented,
            signal_shutdown: false,
            shutdown_pending,
        },
    }
}

/// The number of shutdown signals sent over a run of control requests that
/// starts with the signal pending.
pub open spec fn signals_sent(pending: bool, events: Seq<ServiceControlEvent>) -> nat
    decreases events.len(),
{
    if events.len() == 0 {
        0
    } else {
        let step = control_step(pending, events[0]);
        (if step.signal_shutdown {
            1nat
        } else {
            0nat
        }) + signals_sent(step.shutdown_pending, events.drop_first())
    }
}

/// The shutdown signal is sent at most once, whatever the control manager
/// asks and how often, and is sent once any stop or shutdown request comes.
pub proof fn lemma_shutdown_signalled_once(events: Seq<ServiceControlEvent>)
    ensures
        signals_sent(true, events) <= 1,
        signals_sent(false, events) == 0,
        (exists|i: int|
            0 <= i < events.len() && (#[trigger] events[i] == ServiceControlEvent::Stop || events[i]
                == ServiceControlEvent::Shutdown)) ==> signals_sent(true, events) == 1,
    decreases events.len(),
{
    if events.len() > 0 {
        let rest = events.drop_first();
        lemma_shutdown_signalled_once(rest);
        if exists|i: int|
            0 <= i < events.len() && (#[trigger] events[i] == ServiceControlEvent::Stop || events[i]
                == ServiceControlEvent::Shutdown) {
            let i = choose|i: int|
                0 <= i < events.len() && (#[trigger] events[i] == ServiceControlEvent::Stop || events[i]
                    == ServiceControlEvent::Shutdown);
            if i > 0 {
                assert(rest[i - 1] == events[i]);
            }
        }
    }
}

/// One argument the installed service is started with.
#[derive(Debug, Clone, PartialEq, Eq)]
pub enum LaunchArg {
    /// This word.
    Word(String),
    /// The configuration file's path, as the installer was given it.
    ConfigPath,
}

/// The arguments the installed service is started with: `service-run`, and
/// `--config` with the configuration's path where one is given.
pub fn service_launch_args(has_config: bool) -> (args: Vec<LaunchArg>)
    ensures
        args@.len() == (if has_config { 3int } else { 1int }),
        args@[0] matches LaunchArg::Word(w) && w@ == "service-run"@,
        has_config ==> (args@[1] matches LaunchArg::Word(w) && w@ == "--config"@),
        has_config ==> args@[2] is ConfigPath,
{
    let mut args: Vec<LaunchArg> = Vec::new();
    args.push(LaunchArg::Word(String::from_str("service-run")));
    if has_config {
        args.push(LaunchArg::Word(String::from_str("--config")));
        args.push(LaunchArg::ConfigPath);
    }
    args
}

/// What uninstalling the service does next.
#[derive(Debug, Clone, Copy, PartialEq, Eq)]
pub enum UninstallStep {
    /// Ask the service to stop, then query its status.
    Stop,
    /// Wait `STOP_POLL_INTERVAL_MS`, then query its status again.
    WaitThenPoll,
    /// Wait `STOP_POLL_INTERVAL_MS`, then delete the service.
    WaitThenDelete,
    /// Delete the service.
    Delete,
}

/// How long uninstalling waits between two status queries, in milliseconds.
pub const STOP_POLL_INTERVAL_MS: u64 = 500;

/// How many status queries uninstalling makes after asking the service to
/// stop.
pub const STOP_POLLS: u32 = 30;

/// The next step of uninstalling after the status query number `polls` (0
/// for the query before any stop request) found the service `stopped` or
/// not: a stopped service is deleted; a running one is asked to stop and
/// then polled, waiting between polls, up to `STOP_POLLS` times, after which
/// it is deleted anyway.
pub fn uninstall_step(polls: u32, stopped: bool) -> (step: UninstallStep)
    ensures
        stopped ==> step == UninstallStep::Delete,
        !stopped && polls == 0 ==> step == UninstallStep::Stop,
        !stopped && 0 < polls < STOP_POLLS ==> step == UninstallStep::WaitThenPoll,
        !stopped && polls >= STOP_POLLS ==> step == UninstallStep::WaitThenDelete,
{
    if stopped {
        UninstallStep::Delete
    } else if polls == 0 {
        UninstallStep::Stop
    } else if polls < STOP_POLLS {
        UninstallStep::WaitThenPoll
    } else {
        UninstallStep::WaitThenDelete
    }
}

/// The exit code a stopped service reports to the service control manager.
#[derive(Debug, Clone, Copy, PartialEq, Eq)]
pub enum ServiceExit {
    /// A Win32 error code; 0 is success.
    Win32(u32),
    /// A code of the service's own.
    ServiceSpecific(u32),
}

/// The exit code reported when the service stops: Win32 code 0 where the
/// server ran and stopped cleanly, service-specific code 1 where it failed.
pub fn stopped_exit_code(succeeded: bool) -> (code: ServiceExit)
    ensures
        succeeded ==> code == ServiceExit::Win32(0),
        !succeeded ==> code == ServiceExit::ServiceSpecific(1),
{
    if succeeded {
        ServiceExit::Win32(0)
    } else {
        ServiceExit::ServiceSpecific(1)
    }
}

} // verus!
