//! The startup probe of a worker that is to be added, as a machine that the
//! caller drives: the caller sends the health checks, sleeps and reads the
//! clock; the machine decides what comes next.

use vstd::prelude::*;
use crate::policy::PolicyConfig;
use crate::registry::AddError;

verus! {

/// Where a worker stands on its way into the registry.
#[derive(Debug, Clone, Copy, PartialEq, Eq, Structural)]
pub enum ProbePhase {
    /// A health check is due, if the startup window is still open.
    Probing,
    /// A health check was sent and its reply is awaited.
    Awaiting,
    /// The worker answered: it is to be added to the ready workers.
    Ready,
    /// The startup window closed before the worker answered.
    Failed,
}

/// What the caller reports to the machine.
#[derive(Debug, Clone, Copy, PartialEq, Eq, Structural)]
pub enum ProbeEvent {
    /// The clock was read: so many seconds have passed since the start.
    Tick { elapsed_secs: u64 },
    /// The health check was answered, or failed in transport.
    Reply { healthy: bool },
}

/// What the caller is to do.
#[derive(Debug, Clone, Copy, PartialEq, Eq, Structural)]
pub enum ProbeAction {
    /// Send a health check and report its reply.
    SendProbe,
    /// Sleep for so many seconds, then read the clock and report it.
    Sleep { secs: u64 },
    /// Add the worker to the ready workers.
    Enroll,
    /// Fail the addition: the worker did not answer in time.
    GiveUp,
    /// Nothing: the event does not belong to the phase.
    Nothing,
}

/// The phase that follows `phase` on `event`, and what the caller is to do.
///
/// A health check is sent as long as no more than `timeout_secs` seconds
/// have passed. A healthy reply makes the worker ready. Any other reply is
/// followed by a sleep of `interval_secs` seconds and another look at the clock.
pub open spec fn probe_next(phase: ProbePhase, event: ProbeEvent, timeout_secs: u64, interval_secs: u64) -> (
    ProbePhase,
    ProbeAction,
) {
    match (phase, event) {
        (ProbePhase::Probing, ProbeEvent::Tick { elapsed_secs }) => if elapsed_secs > timeout_secs {
            (ProbePhase::Failed, ProbeAction::GiveUp)
        } else {
            (ProbePhase::Awaiting, ProbeAction::SendProbe)
        },
        (ProbePhase::Awaiting, ProbeEvent::Reply { healthy }) => if healthy {
            (ProbePhase::Ready, ProbeAction::Enroll)
        } else {
            (ProbePhase::Probing, ProbeAction::Sleep { secs: interval_secs })
        },
        _ => (phase, ProbeAction::Nothing),
    }
}

/// The phase that follows `phase` on `event`, and what the caller is to do.
pub fn probe_step(phase: ProbePhase, event: ProbeEvent, timeout_secs: u64, interval_secs: u64) -> (r: (
    ProbePhase,
    ProbeAction,
))
    ensures
        r == probe_next(phase, event, timeout_secs, interval_secs),
        r.0 is Ready <==> phase is Ready || (phase is Awaiting && event == (ProbeEvent::Reply { healthy: true })),
        r.0 is Failed <==> phase is Failed || (phase is Probing && event is Tick && event->elapsed_secs > timeout_secs),
{
    match phase {
        ProbePhase::Probing => match event {
            ProbeEvent::Tick { elapsed_secs } => {
                if elapsed_secs > timeout_secs {
                    (ProbePhase::Failed, ProbeAction::GiveUp)
                } else {
                    (ProbePhase::Awaiting, ProbeAction::SendProbe)
                }
            },
            ProbeEvent::Reply { .. } => (phase, ProbeAction::Nothing),
        },
        ProbePhase::Awaiting => match event {
            ProbeEvent::Reply { healthy } => {
                if healthy {
                    (ProbePhase::Ready, ProbeAction::Enroll)
                } else {
                    (ProbePhase::Probing, ProbeAction::Sleep { secs: interval_secs })
                }
            },
            ProbeEvent::Tick { .. } => (phase, ProbeAction::Nothing),
        },
        ProbePhase::Ready => (phase, ProbeAction::Nothing),
        ProbePhase::Failed => (phase, ProbeAction::Nothing),
    }
}

/// How the addition of a worker fails when the machine asks for `action`:
/// by the closing of the startup window where the machine gives up, and
/// not at all otherwise.
pub fn failure_of(action: ProbeAction) -> (r: Option<AddError>)
    ensures
        r == if action is GiveUp {
            Some(AddError::TimedOut)
        } else {
            None
        },
{
    match action {
        ProbeAction::GiveUp => Some(AddError::TimedOut),
        _ => None,
    }
}

/// The startup window and the pause between health checks, in seconds.
pub open spec fn probe_timing(config: PolicyConfig) -> (u64, u64) {
    match config {
        PolicyConfig::RandomConfig { timeout_secs, interval_secs } => (timeout_secs, interval_secs),
        PolicyConfig::RoundRobinConfig { timeout_secs, interval_secs } => (timeout_secs, interval_secs),
        PolicyConfig::CacheAwareConfig { timeout_secs, interval_secs, .. } => (timeout_secs, interval_secs),
    }
}

/// The startup window and the pause between health checks, in seconds.
pub fn timing_of(config: &PolicyConfig) -> (r: (u64, u64))
    ensures
        r == probe_timing(*config),
{
    match config {
        PolicyConfig::RandomConfig { timeout_secs, interval_secs } => (*timeout_secs, *interval_secs),
        PolicyConfig::RoundRobinConfig { timeout_secs, interval_secs } => (*timeout_secs, *interval_secs),
        PolicyConfig::CacheAwareConfig { timeout_secs, interval_secs, .. } => (*timeout_secs, *interval_secs),
    }
}

/// The address of the health check of the worker at `url`.
pub fn health_url(url: &str) -> (r: String)
    ensures
        r@ == url@ + "/health"@,
{
    let mut out = url.to_owned();
    out.append("/health");
    out
}

} // verus!
