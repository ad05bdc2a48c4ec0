//! One run over a reality: verify the members in order and, unless all of
//! them are up to date, realize them in order. The host performs each check
//! and each change; the functions here decide what comes next.
use vstd::prelude::*;

use crate::meta::Reality;
use crate::resource::{Resource, UnresolvedResource};

verus! {

/// A failure of one member, with the context that names it.
pub struct Failure {
    /// The position of the member that failed.
    pub member: usize,
    /// What was being done, naming the member.
    pub context: String,
    /// The error that the member reported.
    pub cause: String,
    /// The outermost context: that the run as a whole failed.
    pub run_context: String,
}

/// How a run ended.
pub enum Outcome {
    /// Every member was already up to date; nothing was changed.
    Converged,
    /// Every member was realized.
    Applied,
    /// A member failed; the members after it were left alone.
    Failed(Failure),
}

/// What the host does next.
pub enum Step {
    /// Verify the member at this position.
    Verify(usize),
    /// Realize the member at this position.
    Realize(usize),
    /// The run is over.
    Done(Outcome),
}

impl<R: UnresolvedResource> Reality<R> {
    /// The first step of a run: verify the first member, or, with no
    /// members, stop with nothing to do.
    pub fn first_step(&self) -> (r: Step)
        ensures
            self.members().len() == 0 ==> r is Done && r->Done_0 is Converged,
            self.members().len() > 0 ==> r == Step::Verify(0),
    {
        if self.resources().len() == 0 {
            Step::Done(Outcome::Converged)
        } else {
            Step::Verify(0)
        }
    }

    /// The step after verifying member `i`: the next member while members are
    /// up to date; realizing from the first member as soon as one is not;
    /// stopping when all are; failing, with the member named, on an error.
    pub fn after_verify(&self, i: usize, outcome: Result<bool, String>) -> (r: Step)
        requires
            i < self.members().len(),
        ensures
            match outcome {
                Ok(true) => if i + 1 < self.members().len() {
                    r == Step::Verify((i + 1) as usize)
                } else {
                    r is Done && r->Done_0 is Converged
                },
                Ok(false) => r == Step::Realize(0),
                Err(cause) => r is Done && r->Done_0 is Failed && r->Done_0->Failed_0.member == i
                    && r->Done_0->Failed_0.context@ == "Could not verify "@
                    + R::describe_of(self.views()[i as int]) && r->Done_0->Failed_0.cause@
                    == cause@ && r->Done_0->Failed_0.run_context@ == "Could not apply the configuration"@,
            },
    {
        match outcome {
            Ok(true) => {
                let n = self.resources().len();
                if i + 1 < n {
                    Step::Verify(i + 1)
                } else {
                    Step::Done(Outcome::Converged)
                }
            },
            Ok(false) => Step::Realize(0),
            Err(cause) => {
                let mut context = String::from_str("Could not verify ");
                let shown = self.resources()[i].describe();
                context.append(shown.as_str());
                let run_context = String::from_str("Could not apply the configuration");
                Step::Done(Outcome::Failed(Failure { member: i, context, cause, run_context }))
            },
        }
    }

    /// The step after realizing member `i`: the next member, or the end of
    /// the run after the last; on an error, failing at once with the member
    /// named, so that no later member is realized.
    pub fn after_realize(&self, i: usize, outcome: Result<(), String>) -> (r: Step)
        requires
            i < self.members().len(),
        ensures
            match outcome {
                Ok(_) => if i + 1 < self.members().len() {
                    r == Step::Realize((i + 1) as usize)
                } else {
                    r is Done && r->Done_0 is Applied
                },
                Err(cause) => r is Done && r->Done_0 is Failed && r->Done_0->Failed_0.member == i
                    && r->Done_0->Failed_0.context@ == "Could not realize "@
                    + R::describe_of(self.views()[i as int]) && r->Done_0->Failed_0.cause@
                    == cause@ && r->Done_0->Failed_0.run_context@ == "Could not apply the configuration"@,
            },
    {
        match outcome {
            Ok(_) => {
                let n = self.resources().len();
                if i + 1 < n {
                    Step::Realize(i + 1)
                } else {
                    Step::Done(Outcome::Applied)
                }
            },
            Err(cause) => {
                let mut context = String::from_str("Could not realize ");
                let shown = self.resources()[i].describe();
                context.append(shown.as_str());
                let run_context = String::from_str("Could not apply the configuration");
                Step::Done(Outcome::Failed(Failure { member: i, context, cause, run_context }))
            },
        }
    }
}

} // verus!
