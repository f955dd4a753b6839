//! Composition: how the run of a plan follows from the runs of its parts.
use vstd::prelude::*;

use crate::plan::{
    absorb, Failure, Key, OnFailure, OnSuccess, PlanView, ReplyView, RequestView, StepView,
};
use crate::run::{keys_after, law_bounded, run, OpenKeys, Run};

verus! {

/// No step leads beyond the end of these steps.
pub open spec fn contained(steps: Seq<StepView>) -> bool {
    forall|i: int|
        #![trigger steps[i]]
        0 <= i < steps.len() ==> {
            &&& match steps[i].on_failure {
                OnFailure::Abort { .. } => true,
                OnFailure::Skip(n) => n + 1 + i <= steps.len(),
            }
            &&& match steps[i].on_success {
                OnSuccess::Continue => true,
                OnSuccess::ContinueIfText { otherwise_skip, .. } => otherwise_skip + 1 + i
                    <= steps.len(),
            }
        }
}

/// What is left of contained steps is contained.
proof fn lemma_contained_skip(steps: Seq<StepView>, n: int)
    requires
        contained(steps),
        0 <= n <= steps.len(),
    ensures
        contained(steps.skip(n)),
{
    assert forall|i: int| #![trigger steps.skip(n)[i]] 0 <= i < steps.skip(n).len() implies ({
        &&& match steps.skip(n)[i].on_failure {
            OnFailure::Abort { .. } => true,
            OnFailure::Skip(m) => m + 1 + i <= steps.skip(n).len(),
        }
        &&& match steps.skip(n)[i].on_success {
            OnSuccess::Continue => true,
            OnSuccess::ContinueIfText { otherwise_skip, .. } => otherwise_skip + 1 + i
                <= steps.skip(n).len(),
        }
    }) by {
        assert(steps.skip(n)[i] == steps[n + i]);
    }
}

/// A reply to a contained plan leaves a contained plan, and never a longer one.
proof fn lemma_advance_contained(plan: PlanView, reply: ReplyView)
    requires
        !plan.ended(),
        contained(plan.steps),
    ensures
        contained(plan.advance(reply).steps),
        plan.advance(reply).steps.len() < plan.steps.len(),
{
    let next = plan.advance(reply);
    if next.steps.len() > 0 {
        let n = plan.steps.len() - next.steps.len();
        assert(next.steps == plan.steps.skip(n));
        lemma_contained_skip(plan.steps, n);
    }
}

/// Two plans one after the other: the second begins, with the replies that are
/// left, where the first has ended well. Where the first fails, nothing of the
/// second is asked for.
pub proof fn law_then(first: PlanView, second: PlanView, keys: OpenKeys, replies: Seq<ReplyView>)
    requires
        first.outcome is Ok,
        contained(first.steps),
    ensures
        run(first.then_plan(second), keys, replies) == {
            let a = run(first, keys, replies);
            if !a.ended() {
                Run { rest: a.rest.then_plan(second), ..a }
            } else if a.rest.outcome is Ok {
                a.followed_by(run(second, a.keys, replies.skip(a.used as int)))
            } else {
                a
            }
        },
    decreases replies.len(),
{
    let whole = first.then_plan(second);
    let a = run(first, keys, replies);
    if first.ended() {
        assert(whole =~= second);
        assert(replies.skip(0) =~= replies);
        let b = run(second, keys, replies);
        assert(a.followed_by(b) =~= b);
    } else if replies.len() == 0 {
        assert(whole.steps[0] == first.steps[0]);
    } else {
        let reply = replies[0];
        let request = first.steps[0].request;
        let rest = replies.drop_first();
        let after = keys_after(request, reply, keys);
        let next = first.advance(reply);
        assert(whole.steps[0] == first.steps[0]);
        lemma_advance_contained(first, reply);
        let b = run(next, after, rest);
        if next.outcome is Err {
            assert(whole.advance(reply) =~= next);
            assert(run(next, after, rest) == run(whole.advance(reply), after, rest));
        } else {
            assert(whole.advance(reply) =~= next.then_plan(second)) by {
                assert(first.steps.len() - next.steps.len() >= 1);
                let n = first.steps.len() - next.steps.len();
                assert(next.steps =~= first.steps.skip(n));
                assert((first.steps + second.steps).skip(n) =~= first.steps.skip(n)
                    + second.steps);
            }
            law_then(next, second, after, rest);
            law_bounded(next, after, rest);
            assert(rest.skip(b.used as int) =~= replies.skip(a.used as int));
            let c = run(second, a.keys, replies.skip(a.used as int));
            assert(run(whole, keys, replies) =~= if !a.ended() {
                Run { rest: a.rest.then_plan(second), ..a }
            } else if a.rest.outcome is Ok {
                a.followed_by(c)
            } else {
                a
            });
        }
    }
}

/// A plan with its failures ignored asks for exactly what the plan itself asks
/// for, ends when it ends, and ends well.
pub proof fn law_absorb(plan: PlanView, keys: OpenKeys, replies: Seq<ReplyView>)
    ensures
        run(plan.absorbed(), keys, replies) == (Run {
            rest: run(plan, keys, replies).rest.absorbed(),
            ..run(plan, keys, replies)
        }),
    decreases replies.len(),
{
    let quiet = plan.absorbed();
    if plan.ended() || replies.len() == 0 {
    } else {
        let reply = replies[0];
        let next = plan.advance(reply);
        let after = keys_after(plan.steps[0].request, reply, keys);
        law_absorb(next, after, replies.drop_first());
        assert(quiet.advance(reply) =~= next.absorbed()) by {
            assert forall|n: int| 0 <= n <= plan.steps.len() implies absorb(plan.steps).skip(n)
                == absorb(plan.steps.skip(n)) by {
                assert(absorb(plan.steps).skip(n) =~= absorb(plan.steps.skip(n)));
            }
            assert(absorb(Seq::<StepView>::empty()) =~= Seq::<StepView>::empty());
        }
    }
}

/// The number of replies before the first failure.
pub open spec fn successes(replies: Seq<ReplyView>) -> nat
    decreases replies.len(),
{
    if replies.len() == 0 || replies[0] is Failed {
        0
    } else {
        1 + successes(replies.drop_first())
    }
}

/// The requests of these steps.
pub open spec fn requests_of(steps: Seq<StepView>) -> Seq<RequestView> {
    steps.map_values(|step: StepView| step.request)
}

/// Every step goes on to the next, or fails the operation.
pub open spec fn straight(steps: Seq<StepView>) -> bool {
    forall|i: int|
        #![trigger steps[i]]
        0 <= i < steps.len() ==> steps[i].on_success is Continue && steps[i].on_failure is Abort
}

/// The outcome of a plan that stops at a step because of this error.
pub open spec fn stopped_at(step: StepView, cause: Seq<char>) -> PlanView {
    PlanView {
        steps: Seq::empty(),
        outcome: Err(Failure::Registry { context: step.on_failure->context, cause }),
    }
}

/// Straight steps are taken in order up to and including the first that fails.
pub proof fn law_straight(plan: PlanView, keys: OpenKeys, replies: Seq<ReplyView>)
    requires
        straight(plan.steps),
    ensures
        ({
            let a = run(plan, keys, replies);
            let n = successes(replies);
            if n >= plan.steps.len() {
                &&& a.requests == requests_of(plan.steps)
                &&& a.rest == plan.without_first(plan.steps.len())
            } else {
                &&& a.requests == requests_of(plan.steps).take(n as int + 1)
                &&& if n < replies.len() {
                    a.rest == stopped_at(plan.steps[n as int], replies[n as int]->Failed_0)
                } else {
                    a.rest == plan.without_first(n)
                }
            }
        }),
    decreases replies.len(),
{
    let a = run(plan, keys, replies);
    let n = successes(replies);
    if plan.ended() {
        assert(a.requests =~= requests_of(plan.steps));
        assert(a.rest =~= plan.without_first(0));
    } else if replies.len() == 0 {
        assert(a.requests =~= requests_of(plan.steps).take(1));
        assert(a.rest =~= plan.without_first(0));
    } else {
        let next = plan.advance(replies[0]);
        let after = keys_after(plan.steps[0].request, replies[0], keys);
        let rest = replies.drop_first();
        lemma_successes(replies);
        assert(plan.steps[0].on_success is Continue && plan.steps[0].on_failure is Abort);
        if replies[0] is Failed {
            assert(next.ended());
            assert(run(next, after, rest).requests.len() == 0);
            assert(a.requests =~= requests_of(plan.steps).take(1));
        } else {
            assert(next =~= plan.without_first(1));
            assert forall|i: int| 0 <= i < next.steps.len() implies {
                &&& (#[trigger] next.steps[i]).on_success is Continue
                &&& next.steps[i].on_failure is Abort
            } by {
                assert(next.steps[i] == plan.steps[i + 1]);
            }
            law_straight(next, after, rest);
            lemma_successes(rest);
            assert(requests_of(plan.steps) =~= seq![plan.steps[0].request] + requests_of(
                next.steps,
            ));
            if n >= plan.steps.len() {
                assert(a.requests =~= requests_of(plan.steps));
                assert(a.rest =~= plan.without_first(plan.steps.len()));
            } else {
                assert(a.requests =~= requests_of(plan.steps).take(n as int + 1));
                if n < replies.len() {
                    assert(rest[n as int - 1] == replies[n as int]);
                    assert(next.steps[n as int - 1] == plan.steps[n as int]);
                } else {
                    assert(a.rest =~= plan.without_first(n));
                }
            }
        }
    }
}

/// The first failure is where the successes end.
pub proof fn lemma_successes(replies: Seq<ReplyView>)
    ensures
        successes(replies) <= replies.len(),
        successes(replies) < replies.len() ==> replies[successes(replies) as int] is Failed,
        forall|i: int| 0 <= i < successes(replies) ==> !((#[trigger] replies[i]) is Failed),
    decreases replies.len(),
{
    if replies.len() > 0 && !(replies[0] is Failed) {
        let rest = replies.drop_first();
        lemma_successes(rest);
        assert(successes(replies) < replies.len() ==> replies[successes(replies) as int]
            == rest[successes(rest) as int]);
        assert forall|i: int| 0 <= i < successes(replies) implies !((
        #[trigger] replies[i]) is Failed) by {
            if i > 0 {
                assert(rest[i - 1] == replies[i]);
            }
        }
    }
}

/// No step fails the operation.
pub open spec fn quiet(steps: Seq<StepView>) -> bool {
    forall|i: int|
        #![trigger steps[i]]
        0 <= i < steps.len() ==> steps[i].on_failure is Skip
}

/// Every key that these steps open is one of these.
pub open spec fn opens_only(steps: Seq<StepView>, fresh: Set<Key>) -> bool {
    forall|i: int|
        #![trigger steps[i]]
        0 <= i < steps.len() && steps[i].request is CreateKey ==> fresh.contains(
            steps[i].request->opened,
        )
}

/// Apart from these keys, the same keys are open, at the same paths.
pub open spec fn agree_outside(a: OpenKeys, b: OpenKeys, fresh: Set<Key>) -> bool {
    forall|key: Key|
        #![trigger a.contains_key(key)]
        #![trigger b.contains_key(key)]
        #![trigger a[key]]
        #![trigger b[key]]
        !fresh.contains(key) ==> a.contains_key(key) == b.contains_key(key) && a[key] == b[key]
}

/// Absorbed steps are quiet. They lead nowhere else, open what the steps open, and
/// do nothing to steps that are quiet already.
pub proof fn lemma_absorb_shape(steps: Seq<StepView>, fresh: Set<Key>)
    ensures
        quiet(absorb(steps)),
        contained(steps) ==> contained(absorb(steps)),
        opens_only(steps, fresh) ==> opens_only(absorb(steps), fresh),
{
    assert forall|i: int|
        #![trigger absorb(steps)[i]]
        0 <= i < steps.len() implies absorb(steps)[i].on_failure is Skip
        && absorb(steps)[i].request == steps[i].request && absorb(steps)[i].on_success
        == steps[i].on_success && (steps[i].on_failure is Abort ==> absorb(steps)[i].on_failure
        == OnFailure::<Seq<char>, nat>::Skip((steps.len() - 1 - i) as nat)) && (
    steps[i].on_failure is Skip ==> absorb(steps)[i] == steps[i]) by {}
}

/// The shapes of two lists of steps are those of both in a row.
pub proof fn lemma_append_shape(first: Seq<StepView>, second: Seq<StepView>, fresh: Set<Key>)
    ensures
        quiet(first) && quiet(second) ==> quiet(first + second),
        contained(first) && contained(second) ==> contained(first + second),
        straight(first) && straight(second) ==> straight(first + second),
        opens_only(first, fresh) && opens_only(second, fresh) ==> opens_only(
            first + second,
            fresh,
        ),
{
    let both = first + second;
    assert forall|i: int| #![trigger both[i]] 0 <= i < both.len() implies both[i] == if i
        < first.len() {
        first[i]
    } else {
        second[i - first.len()]
    } by {}
}

/// Quiet steps never fail the operation.
pub proof fn law_quiet(plan: PlanView, keys: OpenKeys, replies: Seq<ReplyView>)
    requires
        quiet(plan.steps),
    ensures
        run(plan, keys, replies).rest.outcome == plan.outcome,
    decreases replies.len(),
{
    if !plan.ended() && replies.len() > 0 {
        let next = plan.advance(replies[0]);
        assert(plan.steps[0].on_failure is Skip);
        let n = plan.steps.len() - next.steps.len();
        assert(next.steps =~= plan.steps.skip(n));
        assert forall|i: int| 0 <= i < next.steps.len() implies (
        #[trigger] next.steps[i]).on_failure is Skip by {
            assert(next.steps[i] == plan.steps[n + i]);
        }
        law_quiet(
            next,
            keys_after(plan.steps[0].request, replies[0], keys),
            replies.drop_first(),
        );
    }
}

/// A run leaves all keys alone but those that its steps open.
pub proof fn lemma_run_keys(
    plan: PlanView,
    keys: OpenKeys,
    replies: Seq<ReplyView>,
    fresh: Set<Key>,
)
    requires
        opens_only(plan.steps, fresh),
    ensures
        agree_outside(keys, run(plan, keys, replies).keys, fresh),
    decreases replies.len(),
{
    if !plan.ended() && replies.len() > 0 {
        let next = plan.advance(replies[0]);
        let request = plan.steps[0].request;
        let after = keys_after(request, replies[0], keys);
        assert(request is CreateKey ==> fresh.contains(request->opened));
        assert(agree_outside(keys, after, fresh));
        let n = plan.steps.len() - next.steps.len();
        assert(next.steps =~= plan.steps.skip(n));
        assert forall|i: int|
            #![trigger next.steps[i]]
            0 <= i < next.steps.len() && next.steps[i].request is CreateKey implies fresh.contains(
            next.steps[i].request->opened,
        ) by {
            assert(next.steps[i] == plan.steps[n + i]);
        }
        lemma_run_keys(next, after, replies.drop_first(), fresh);
    }
}

/// An operation that first opens a key, and then takes quiet steps, fails exactly
/// if that key cannot be opened; then it asks for nothing else.
pub proof fn law_guarded(
    first: StepView,
    others: Seq<StepView>,
    keys: OpenKeys,
    replies: Seq<ReplyView>,
)
    requires
        straight(seq![first]),
        quiet(others),
        replies.len() > 0,
    ensures
        ({
            let plan = PlanView { steps: seq![first] + others, outcome: Ok(()) };
            let a = run(plan, keys, replies);
            &&& replies[0] is Failed ==> a.requests == seq![first.request] && a.rest == stopped_at(
                first,
                replies[0]->Failed_0,
            )
            &&& !(replies[0] is Failed) ==> a.rest.outcome is Ok
        }),
{
    let plan = PlanView { steps: seq![first] + others, outcome: Ok(()) };
    reveal_with_fuel(run, 2);
    assert(seq![first][0].on_failure is Abort);
    assert(plan.steps[0] == first);
    if replies[0] is Failed {
        assert(plan.advance(replies[0]).ended());
        assert(run(plan, keys, replies).requests =~= seq![first.request]);
    } else {
        assert(plan.advance(replies[0]).steps =~= others);
        law_quiet(
            plan.advance(replies[0]),
            keys_after(first.request, replies[0], keys),
            replies.drop_first(),
        );
    }
}

} // verus!
