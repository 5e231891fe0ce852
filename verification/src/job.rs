//! Jobs and their lifecycle state.

use vstd::prelude::*;

verus! {

/// How many times `run` re-checks a job before declaring it done.
pub const MAX_RETRY: u32 = 3;

/// The lifecycle state of a job.
#[derive(Debug, Clone, PartialEq, Eq, Structural)]
pub enum State {
    Queued,
    Running,
    Done,
    Failed,
}

/// A unit of work with an identifier, a name, a lifecycle state and a
/// set of tags.
#[derive(Debug, Clone)]
pub struct Job {
    pub id: u64,
    pub name: String,
    pub state: State,
    pub tags: Vec<String>,
}

impl Job {
    /// Runs the job. A job with an empty name fails and ends in
    /// `State::Failed`; any other job ends in `State::Done`. The
    /// identifier, name and tags are never changed.
    pub fn run(&mut self) -> (r: Result<(), String>)
        ensures
            final(self).id == old(self).id,
            final(self).name == old(self).name,
            final(self).tags == old(self).tags,
            old(self).name@.len() == 0 ==> {
                &&& r matches Err(m) && m@ == "name is empty"@
                &&& final(self).state == State::Failed
            },
            old(self).name@.len() > 0 ==> {
                &&& r matches Ok(u) && u == ()
                &&& final(self).state == State::Done
            },
    {
        self.state = State::Running;

        let mut attempt: u32 = 0;
        while attempt < MAX_RETRY
            invariant
                attempt <= MAX_RETRY,
                self.id == old(self).id,
                self.name == old(self).name,
                self.tags == old(self).tags,
                self.state == State::Running,
                attempt > 0 ==> old(self).name@.len() > 0,
            decreases MAX_RETRY - attempt,
        {
            if self.name.as_str().is_empty() {
                self.state = State::Failed;
                return Err(String::from_str("name is empty"));
            }
            attempt = attempt + 1;
        }

        self.state = State::Done;
        Ok(())
    }
}

} // verus!
