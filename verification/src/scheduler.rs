use vstd::prelude::*;
use crate::reminders::spec_upcoming;
use crate::responses::{due_to_payload, payload_matches, ReminderResponse};
use crate::store::Database;

verus! {

// ---------------------------------------------------------------------------
// The reminder scheduler's lifecycle and one tick of its loop
// ---------------------------------------------------------------------------

/// The scheduler's lifecycle: `Idle` before the loop starts, `Running`
/// while it polls, `Stopped` once the shutdown signal has been observed —
/// a terminal state, never left again.
#[derive(Clone, Copy, Debug, PartialEq, Eq, Structural)]
pub enum SchedulerPhase {
    Idle,
    Running,
    Stopped,
}

/// The reminder scheduler's control state. The surrounding process runs the
/// loop: each turn it calls `scheduler_tick` on the shared store, publishes
/// the returned payloads to the notification sink, and sleeps one interval;
/// delivery is at-least-once, and only an explicit `mark_reminder_triggered`
/// by the consumer stops a reminder from being republished.
pub struct ReminderScheduler {
    pub phase: SchedulerPhase,
}

impl ReminderScheduler {
    pub fn new() -> (r: ReminderScheduler)
        ensures
            r.phase == SchedulerPhase::Idle,
    {
        ReminderScheduler { phase: SchedulerPhase::Idle }
    }

    /// Idle → Running; from any other phase nothing changes and the call
    /// reports that it did not start the loop.
    pub fn start(&mut self) -> (r: bool)
        ensures
            r == (old(self).phase == SchedulerPhase::Idle),
            final(self).phase == if old(self).phase == SchedulerPhase::Idle {
                SchedulerPhase::Running
            } else {
                old(self).phase
            },
    {
        if self.phase == SchedulerPhase::Idle {
            self.phase = SchedulerPhase::Running;
            true
        } else {
            false
        }
    }

    /// Running → Stopped on the cooperative shutdown signal; `Stopped` is
    /// terminal and `Idle` cannot stop.
    pub fn shutdown(&mut self) -> (r: bool)
        ensures
            r == (old(self).phase == SchedulerPhase::Running),
            final(self).phase == if old(self).phase == SchedulerPhase::Running {
                SchedulerPhase::Stopped
            } else {
                old(self).phase
            },
    {
        if self.phase == SchedulerPhase::Running {
            self.phase = SchedulerPhase::Stopped;
            true
        } else {
            false
        }
    }

    pub fn is_running(&self) -> (r: bool)
        ensures
            r == (self.phase == SchedulerPhase::Running),
    {
        self.phase == SchedulerPhase::Running
    }
}

/// What one turn of the loop decides: publish these payloads and sleep, or
/// exit the loop.
pub enum TickOutcome {
    Publish(Vec<ReminderResponse>),
    Exit,
}

/// One turn of the scheduler loop. If shutdown has been signalled the loop
/// exits; otherwise every due, untriggered reminder of an active note is
/// turned into a sink payload, earliest first.
pub fn scheduler_tick(db: &Database, stop_requested: bool) -> (r: TickOutcome)
    requires
        db.wf(),
    ensures
        stop_requested <==> r is Exit,
        !stop_requested ==> (r matches TickOutcome::Publish(v) && {
            let due = spec_upcoming(db@, None);
            &&& v@.len() == due.len()
            &&& forall|k: int| 0 <= k < v@.len() ==> payload_matches(#[trigger] v@[k], due[k])
        }),
{
    if stop_requested {
        return TickOutcome::Exit;
    }
    let ghost due = spec_upcoming(db@, None);
    let pending = match db.get_pending_reminders() {
        Ok(p) => p,
        Err(_) => {
            proof {
                assert(false);
            }
            Vec::new()
        },
    };
    let mut out: Vec<ReminderResponse> = Vec::new();
    let mut i: usize = 0;
    while i < pending.len()
        invariant
            pending@.map_values(|x: crate::reminders::DueReminder| x@) == due,
            pending@.len() == due.len(),
            i <= pending.len(),
            out@.len() == i,
            forall|k: int| 0 <= k < i ==> payload_matches(#[trigger] out@[k], due[k]),
        decreases pending.len() - i,
    {
        let resp = due_to_payload(&pending[i]);
        out.push(resp);
        i += 1;
    }
    TickOutcome::Publish(out)
}

} // verus!
