//! What the views of plans show, and how a plan goes on after a reply.
use vstd::prelude::*;

use crate::plan::{
    absorb, may, must, option_text, outcome_view, plan_of, set_text, steps_view, Failure,
    FailureView, Key, OnFailure, OnSuccess, Plan, PlanView, Reply, ReplyView, Request,
    RequestView, Step, StepView, Value,
};

verus! {

/// The view of a value has its characters or its number.
pub proof fn law_value_view(value: Value)
    ensures
        match value {
            Value::Sz(text) => value@ == Value::<Seq<char>>::Sz(text@),
            Value::Dword(number) => value@ == Value::<Seq<char>>::Dword(number),
        },
{
}

/// The view of a request has all its parts, its strings by their characters.
pub proof fn law_request_view(request: Request)
    ensures
        match request {
            Request::CreateKey { parent, sub_key, access, opened } => request@ == (
            Request::<Seq<char>>::CreateKey { parent, sub_key: sub_key@, access, opened }),
            Request::SetValue { key, name, value: Value::Sz(text) } => request@ == (
            Request::<Seq<char>>::SetValue { key, name: name@, value: Value::Sz(text@) }),
            Request::SetValue { key, name, value: Value::Dword(number) } => request@ == (
            Request::<Seq<char>>::SetValue { key, name: name@, value: Value::Dword(number) }),
            Request::GetValue { key, sub_key, name } => request@ == (
            Request::<Seq<char>>::GetValue { key, sub_key: sub_key@, name: name@ }),
            Request::DeleteTree { key, sub_key } => request@ == (
            Request::<Seq<char>>::DeleteTree { key, sub_key: sub_key@ }),
            Request::DeleteKey { key, sub_key } => request@ == (
            Request::<Seq<char>>::DeleteKey { key, sub_key: sub_key@ }),
        },
{
}

/// The view of a reply has its kind and the characters of its string.
pub proof fn law_reply_view(reply: Reply)
    ensures
        match reply {
            Reply::Done => reply@ == Reply::<Seq<char>>::Done,
            Reply::Text(text) => reply@ == Reply::<Seq<char>>::Text(text@),
            Reply::OtherValue => reply@ == Reply::<Seq<char>>::OtherValue,
            Reply::Failed(cause) => reply@ == Reply::<Seq<char>>::Failed(cause@),
        },
{
}

/// The view of a step has the view of its request, and says how to go on as the step
/// does.
pub proof fn law_step_view(step: Step)
    ensures
        step@.request == step.request@,
        match step.on_success {
            OnSuccess::Continue => step@.on_success is Continue,
            OnSuccess::ContinueIfText { text, otherwise_skip } => step@.on_success == (
            OnSuccess::<Seq<char>, nat>::ContinueIfText {
                text: text@,
                otherwise_skip: otherwise_skip as nat,
            }),
        },
        match step.on_failure {
            OnFailure::Abort { context: Some(context) } => step@.on_failure == (
            OnFailure::<Seq<char>, nat>::Abort { context: Some(context@) }),
            OnFailure::Abort { context: None } => step@.on_failure == (
            OnFailure::<Seq<char>, nat>::Abort { context: None }),
            OnFailure::Skip(n) => step@.on_failure == OnFailure::<Seq<char>, nat>::Skip(n as nat),
        },
{
}

/// The view of a plan has the views of its steps, in order, and its outcome.
pub proof fn law_plan_view(plan: Plan)
    ensures
        plan@.steps.len() == plan.steps@.len(),
        forall|i: int|
            0 <= i < plan.steps@.len() ==> #[trigger] plan@.steps[i] == plan.steps@[i]@,
        plan@.outcome == outcome_view(plan.outcome),
        steps_view(plan.steps@) == plan@.steps,
{
}

/// The view of an outcome says whether it is a failure, and which one.
pub proof fn law_outcome_view(outcome: Result<(), Failure>)
    ensures
        match outcome {
            Ok(()) => outcome_view(outcome) is Ok,
            Err(Failure::Registry { context: Some(context), cause }) => outcome_view(outcome)
                == Err::<(), FailureView>(
                Failure::Registry { context: Some(context@), cause: cause@ },
            ),
            Err(Failure::Registry { context: None, cause }) => outcome_view(outcome) == Err::<
                (),
                FailureView,
            >(Failure::Registry { context: None, cause: cause@ }),
            Err(Failure::SizeOutOfRange) => outcome_view(outcome) == Err::<(), FailureView>(
                Failure::SizeOutOfRange,
            ),
        },
        outcome matches Err(failure) ==> outcome_view(outcome) == Err::<(), FailureView>(failure@),
{
}

/// A failed request fails the operation with the context of its step and the error
/// message, or leaves as many steps out as the step says. A request that is done leads
/// to the next step; but where a string was expected and another reply came, as many
/// steps are left out as the step says. Nothing else changes.
pub proof fn law_advance(plan: PlanView, reply: ReplyView)
    requires
        !plan.ended(),
    ensures
        ({
            let next = plan.advance(reply);
            let step = plan.steps[0];
            let left = plan.steps.len() as int;
            match (reply, step.on_failure, step.on_success) {
                (Reply::Failed(cause), OnFailure::Abort { context }, _) => {
                    &&& next.steps.len() == 0
                    &&& next.outcome == Err::<(), FailureView>(
                        Failure::Registry { context, cause },
                    )
                },
                (Reply::Failed(_), OnFailure::Skip(n), _) => {
                    &&& next.outcome == plan.outcome
                    &&& n + 1 <= left ==> next.steps == plan.steps.subrange(n as int + 1, left)
                    &&& n + 1 > left ==> next.steps.len() == 0
                },
                (_, _, OnSuccess::Continue) => {
                    &&& next.outcome == plan.outcome
                    &&& next.steps == plan.steps.subrange(1, left)
                },
                (Reply::Text(found), _, OnSuccess::ContinueIfText { text, otherwise_skip: n }) => {
                    &&& next.outcome == plan.outcome
                    &&& found == text ==> next.steps == plan.steps.subrange(1, left)
                    &&& found != text && n + 1 <= left ==> next.steps == plan.steps.subrange(
                        n as int + 1,
                        left,
                    )
                    &&& found != text && n + 1 > left ==> next.steps.len() == 0
                },
                (_, _, OnSuccess::ContinueIfText { otherwise_skip: n, .. }) => {
                    &&& next.outcome == plan.outcome
                    &&& n + 1 <= left ==> next.steps == plan.steps.subrange(n as int + 1, left)
                    &&& n + 1 > left ==> next.steps.len() == 0
                },
            }
        }),
{
}

/// A plan has ended exactly if it has no step left; a plan made of steps succeeds.
pub proof fn law_plan_of(steps: Seq<StepView>, outcome: Result<(), FailureView>)
    ensures
        plan_of(steps).steps == steps,
        plan_of(steps).outcome is Ok,
        (PlanView { steps, outcome }).ended() <==> steps.len() == 0,
{
}

/// One plan after another has the steps of both, in order, and the outcome of the
/// second.
pub proof fn law_then_plan(first: PlanView, second: PlanView)
    ensures
        ({
            let both = first.then_plan(second);
            let n = first.steps.len() as int;
            &&& both.steps.len() == n + second.steps.len()
            &&& forall|i: int|
                0 <= i < both.steps.len() ==> #[trigger] both.steps[i] == if i < n {
                    first.steps[i]
                } else {
                    second.steps[i - n]
                }
            &&& both.outcome == second.outcome
        }),
{
}

/// A plan with its failures ignored has the same requests and goes on after success
/// as before. After a failure that would have ended the operation all steps that are
/// left are left out, and the operation succeeds.
pub proof fn law_absorbed(plan: PlanView)
    ensures
        ({
            let quiet = plan.absorbed();
            let n = plan.steps.len() as int;
            &&& quiet.outcome is Ok
            &&& quiet.steps == absorb(plan.steps)
            &&& quiet.steps.len() == n
            &&& forall|i: int|
                #![trigger quiet.steps[i]]
                0 <= i < n ==> {
                    &&& quiet.steps[i].request == plan.steps[i].request
                    &&& quiet.steps[i].on_success == plan.steps[i].on_success
                    &&& match plan.steps[i].on_failure {
                        OnFailure::Abort { .. } => quiet.steps[i].on_failure == OnFailure::<
                            Seq<char>,
                            nat,
                        >::Skip((n - 1 - i) as nat),
                        OnFailure::Skip(_) => quiet.steps[i].on_failure
                            == plan.steps[i].on_failure,
                    }
                }
        }),
{
}

/// A step of the one kind fails the operation with its context when its request fails,
/// a step of the other goes on with the next; both go on with the next otherwise.
pub proof fn law_steps(request: RequestView, context: Option<Seq<char>>)
    ensures
        must(request, context).request == request,
        must(request, context).on_success is Continue,
        must(request, context).on_failure == (OnFailure::<Seq<char>, nat>::Abort { context }),
        may(request).request == request,
        may(request).on_success is Continue,
        may(request).on_failure == OnFailure::<Seq<char>, nat>::Skip(0),
{
}

/// A request to write a string has the key, the name and the string; a string that may
/// be missing is there, whole, exactly if it is there.
pub proof fn law_set_text(key: Key, name: Seq<char>, text: Seq<char>, option: Option<String>)
    ensures
        set_text(key, name, text) == (Request::<Seq<char>>::SetValue {
            key,
            name,
            value: Value::Sz(text),
        }),
        option matches Some(s) ==> option_text(option) == Some(s@),
        option is None ==> option_text(option) is None,
{
}

} // verus!
