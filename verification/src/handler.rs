use vstd::prelude::*;

use crate::error::CoreError;
use crate::flush::flush_success;
use crate::project::{wf, Project};
use crate::session::Session;
use crate::vbranch::default_idx;

verus! {

/// What a handled flush asks the shell to do next.
#[derive(Clone, Copy, Debug, PartialEq, Eq, Structural)]
pub enum Event {
    /// The session that was flushed for the project.
    Session(u64, Session),
    /// Push the engine's own data for the project.
    PushGitbutlerData(u64),
    /// Push the project itself.
    PushProjectToGitbutler(u64),
}

/// Handles flush triggers for one project. The shell may fire triggers from
/// several sources at once; the handler takes the project's flush lock
/// without blocking, and a trigger that finds the lock held is answered with
/// no events and no change instead of queuing.
#[derive(Debug)]
pub struct Handler {
    /// Models the non-blocking acquire: set exactly while another flush of
    /// this project is in flight.
    pub busy: bool,
    pub project: Project,
}

impl Handler {
    /// A handler for one project, with the flush lock free.
    pub fn new(project: Project) -> (r: Handler)
        ensures
            r.busy == false,
            r.project == project,
    {
        Handler { busy: false, project }
    }

    /// Handles one flush trigger. While another flush is in flight the call
    /// is a no-op that returns no events. Otherwise the project's open
    /// session is flushed; on success the shell is told to surface the
    /// closed session and push, and a failed flush leaves the project
    /// exactly as it was, so the trigger may simply fire again.
    pub fn handle(
        &mut self,
        project_id: u64,
        now_ms: u64,
        ownership_verified: bool,
        backend_ok: bool,
    ) -> (r: Result<Vec<Event>, CoreError>)
        requires
            wf(old(self).project),
            project_id == old(self).project.project_id,
            old(self).project.commits@.len() + old(self).project.branches@.len() < u64::MAX,
        ensures
            wf(final(self).project),
            final(self).busy == old(self).busy,
            old(self).busy ==> *final(self) == *old(self) && r is Ok,
            old(self).busy ==> (r matches Ok(evs) ==> evs@ =~= Seq::<Event>::empty()),
            !old(self).busy ==> (r matches Ok(evs) ==> {
                &&& evs@.len() == 3
                &&& (evs@[0] matches Event::Session(pid, closed) ==> pid == project_id
                    && flush_success(old(self).project, final(self).project, closed, now_ms))
                &&& evs@[0] is Session
                &&& evs@[1] == Event::PushGitbutlerData(project_id)
                &&& evs@[2] == Event::PushProjectToGitbutler(project_id)
            }),
            !old(self).busy ==> (r is Err <==> (!backend_ok || old(
                self,
            ).project.current_session is None || (old(
                self,
            ).project.current_session->Some_0.files@.len() > 0 && default_idx(
                old(self).project.branches@,
            ) == -1))),
            r is Err ==> *final(self) == *old(self) && r == Err::<Vec<Event>, CoreError>(
                CoreError::FlushFailed,
            ),
    {
        if self.busy {
            return Ok(Vec::new());
        }
        match self.project.flush(now_ms, ownership_verified, backend_ok) {
            Ok(closed) => {
                let mut evs: Vec<Event> = Vec::new();
                evs.push(Event::Session(project_id, closed));
                evs.push(Event::PushGitbutlerData(project_id));
                evs.push(Event::PushProjectToGitbutler(project_id));
                Ok(evs)
            },
            Err(e) => Err(e),
        }
    }
}

} // verus!
