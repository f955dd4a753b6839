//! Sessions: an operation under way.
use vstd::prelude::*;

use crate::plan::{
    outcome_view, steps_view, Failure, OnFailure, OnSuccess, Plan, PlanView, Reply, Request,
};

verus! {

/// An operation under way: it names the next request and takes the reply to it.
#[derive(Debug, PartialEq, Eq)]
pub struct Session {
    plan: Plan,
    at: usize,
}

impl View for Session {
    type V = PlanView;

    /// What is left of the operation.
    closed spec fn view(&self) -> PlanView {
        PlanView { steps: self.plan@.steps.skip(self.at as int), outcome: self.plan@.outcome }
    }
}

impl Session {
    #[verifier::type_invariant]
    spec fn within_plan(self) -> bool {
        self.at <= self.plan.steps.len()
    }

    /// Begins an operation.
    pub fn start(plan: Plan) -> (session: Session)
        ensures
            session@ == plan@,
    {
        let session = Session { plan, at: 0 };
        assert(session@ =~= plan@);
        session
    }

    /// The request to be performed now, if the operation has not ended.
    pub fn request(&self) -> (request: Option<&Request>)
        ensures
            match request {
                Some(request) => !self@.ended() && request@ == self@.steps[0].request,
                None => self@.ended(),
            },
    {
        proof {
            use_type_invariant(self);
        }
        if self.at < self.plan.steps.len() {
            Some(&self.plan.steps[self.at].request)
        } else {
            None
        }
    }

    /// The outcome of the operation, once it has ended.
    pub fn outcome(&self) -> (outcome: Option<&Result<(), Failure>>)
        ensures
            match outcome {
                Some(outcome) => self@.ended() && outcome_view(*outcome) == self@.outcome,
                None => !self@.ended(),
            },
    {
        proof {
            use_type_invariant(self);
        }
        if self.at < self.plan.steps.len() {
            None
        } else {
            Some(&self.plan.outcome)
        }
    }

    /// Takes the reply to the request that was to be performed. After the end it
    /// changes nothing.
    pub fn answer(&mut self, reply: Reply)
        ensures
            final(self)@ == if old(self)@.ended() {
                old(self)@
            } else {
                old(self)@.advance(reply@)
            },
    {
        proof {
            use_type_invariant(&*self);
        }
        let count: usize = self.plan.steps.len();
        if self.at >= count {
            return ;
        }
        let ghost before = self@;
        let left: usize = count - self.at - 1;
        assert(before.steps[0] == self.plan.steps@[self.at as int]@);
        let step = &self.plan.steps[self.at];
        let mut failure: Option<Failure> = None;
        let skip: usize = match reply {
            Reply::Failed(cause) => match &step.on_failure {
                OnFailure::Abort { context } => {
                    let context = match context {
                        Some(context) => Some(context.clone()),
                        None => None,
                    };
                    failure = Some(Failure::Registry { context, cause });
                    left
                },
                OnFailure::Skip(n) => *n,
            },
            Reply::Text(found) => match &step.on_success {
                OnSuccess::Continue => 0,
                OnSuccess::ContinueIfText { text, otherwise_skip } => if found == *text {
                    0
                } else {
                    *otherwise_skip
                },
            },
            Reply::Done | Reply::OtherValue => match &step.on_success {
                OnSuccess::Continue => 0,
                OnSuccess::ContinueIfText { text: _, otherwise_skip } => *otherwise_skip,
            },
        };
        let ghost skipped = skip;
        let skip: usize = if skip <= left { skip } else { left };
        self.at = self.at + 1 + skip;
        assert(steps_view(self.plan.steps@).skip(self.at as int) =~= before.without_first(
            (skipped + 1) as nat,
        ).steps);
        if let Some(failure) = failure {
            self.plan.outcome = Err(failure);
        }
        assert(self@ =~= before.advance(reply@));
    }
}

} // verus!
