//! Order: what steps are about that are taken one after the other.
use vstd::prelude::*;

use crate::compose::{straight, successes};
use crate::plan::{absorb, PlanView, Reply, ReplyView, StepView};
use crate::run::{effect_of, key_of, keys_after, run, Effect, OpenKeys};

verus! {

/// What these steps are about if all requests succeed and no step is left out.
pub open spec fn effects_in_order(steps: Seq<StepView>, keys: OpenKeys) -> Seq<Effect>
    decreases steps.len(),
{
    if steps.len() == 0 {
        Seq::empty()
    } else {
        seq![effect_of(steps[0].request, keys)] + effects_in_order(
            steps.drop_first(),
            keys_after(steps[0].request, Reply::Done, keys),
        )
    }
}

/// If all requests succeed and no step is left out, each starts from an open key.
pub open spec fn grounded_in_order(steps: Seq<StepView>, keys: OpenKeys) -> bool
    decreases steps.len(),
{
    steps.len() == 0 || {
        &&& keys.contains_key(key_of(steps[0].request))
        &&& grounded_in_order(
            steps.drop_first(),
            keys_after(steps[0].request, Reply::Done, keys),
        )
    }
}

/// Straight steps are about the first of what they would be about if all went
/// well, and about all of it where they end well.
pub proof fn law_straight_effects(plan: PlanView, keys: OpenKeys, replies: Seq<ReplyView>)
    requires
        straight(plan.steps),
        grounded_in_order(plan.steps, keys),
    ensures
        ({
            let a = run(plan, keys, replies);
            let full = effects_in_order(plan.steps, keys);
            &&& a.grounded
            &&& a.effects.is_prefix_of(full)
            &&& plan.outcome is Ok && a.ended() && a.rest.outcome is Ok ==> a.effects == full
            &&& successes(replies) >= plan.steps.len() ==> {
                &&& a.effects == full
                &&& a.ended()
                &&& a.rest.outcome == plan.outcome
            }
            &&& full.len() == plan.steps.len()
        }),
    decreases replies.len(), plan.steps.len(),
{
    let a = run(plan, keys, replies);
    let full = effects_in_order(plan.steps, keys);
    lemma_effects_in_order_len(plan.steps, keys);
    if plan.ended() {
        assert(a.effects =~= full);
    } else {
        assert(plan.steps[0].on_success is Continue && plan.steps[0].on_failure is Abort);
        if replies.len() > 0 {
            let next = plan.advance(replies[0]);
            let request = plan.steps[0].request;
            let after = keys_after(request, replies[0], keys);
            if replies[0] is Failed {
                assert(next.ended());
            } else {
                assert(next.steps =~= plan.steps.drop_first());
                assert forall|i: int| 0 <= i < next.steps.len() implies {
                    &&& (#[trigger] next.steps[i]).on_success is Continue
                    &&& next.steps[i].on_failure is Abort
                } by {
                    assert(next.steps[i] == plan.steps[i + 1]);
                }
                assert(after == keys_after(request, Reply::Done, keys));
                law_straight_effects(next, after, replies.drop_first());
                let b = run(next, after, replies.drop_first());
                assert(full =~= seq![effect_of(request, keys)] + effects_in_order(
                    next.steps,
                    after,
                ));
                assert(a.effects =~= seq![effect_of(request, keys)] + b.effects);
                assert forall|i: int| 0 <= i < a.effects.len() implies a.effects[i] == full[i] by {
                    if i > 0 {
                        assert(a.effects[i] == b.effects[i - 1]);
                        assert(b.effects[i - 1] == effects_in_order(next.steps, after)[i - 1]);
                    }
                }
            }
        }
        assert(a.effects =~= full.take(a.effects.len() as int));
    }
}

proof fn lemma_effects_in_order_len(steps: Seq<StepView>, keys: OpenKeys)
    ensures
        effects_in_order(steps, keys).len() == steps.len(),
    decreases steps.len(),
{
    if steps.len() > 0 {
        lemma_effects_in_order_len(
            steps.drop_first(),
            keys_after(steps[0].request, Reply::Done, keys),
        );
    }
}

/// Every step goes on to the next when its request succeeds.
pub open spec fn unconditional(steps: Seq<StepView>) -> bool {
    forall|i: int|
        #![trigger steps[i]]
        0 <= i < steps.len() ==> steps[i].on_success is Continue
}

/// The open keys after these steps if all requests succeed and no step is left out.
pub open spec fn keys_in_order(steps: Seq<StepView>, keys: OpenKeys) -> OpenKeys
    decreases steps.len(),
{
    if steps.len() == 0 {
        keys
    } else {
        keys_in_order(steps.drop_first(), keys_after(steps[0].request, Reply::Done, keys))
    }
}

/// Where every request succeeds, all steps are taken in order.
pub proof fn law_all_succeed(plan: PlanView, keys: OpenKeys, replies: Seq<ReplyView>)
    requires
        unconditional(plan.steps),
        replies.len() >= plan.steps.len(),
        forall|i: int| 0 <= i < replies.len() ==> !((#[trigger] replies[i]) is Failed),
    ensures
        ({
            let a = run(plan, keys, replies);
            &&& a.ended()
            &&& a.rest.outcome == plan.outcome
            &&& a.effects == effects_in_order(plan.steps, keys)
        }),
    decreases replies.len(), plan.steps.len(),
{
    let a = run(plan, keys, replies);
    if !plan.ended() {
        assert(plan.steps[0].on_success is Continue);
        assert(!(replies[0] is Failed));
        let next = plan.advance(replies[0]);
        let rest = replies.drop_first();
        let request = plan.steps[0].request;
        assert(next.steps =~= plan.steps.drop_first());
        assert forall|i: int| 0 <= i < next.steps.len() implies (
        #[trigger] next.steps[i]).on_success is Continue by {
            assert(next.steps[i] == plan.steps[i + 1]);
        }
        assert forall|i: int| 0 <= i < rest.len() implies !((#[trigger] rest[i]) is Failed) by {
            assert(rest[i] == replies[i + 1]);
        }
        law_all_succeed(next, keys_after(request, replies[0], keys), rest);
    }
}

/// What two lists of steps are about in a row.
pub proof fn lemma_effects_append(first: Seq<StepView>, second: Seq<StepView>, keys: OpenKeys)
    ensures
        effects_in_order(first + second, keys) == effects_in_order(first, keys) + effects_in_order(
            second,
            keys_in_order(first, keys),
        ),
        keys_in_order(first + second, keys) == keys_in_order(second, keys_in_order(first, keys)),
    decreases first.len(),
{
    if first.len() == 0 {
        assert(first + second =~= second);
        assert(effects_in_order(first, keys) + effects_in_order(second, keys) =~= effects_in_order(
            second,
            keys,
        ));
    } else {
        let after = keys_after(first[0].request, Reply::Done, keys);
        assert((first + second).drop_first() =~= first.drop_first() + second);
        assert((first + second)[0] == first[0]);
        lemma_effects_append(first.drop_first(), second, after);
        assert(effects_in_order(first + second, keys) =~= effects_in_order(first, keys)
            + effects_in_order(second, keys_in_order(first, keys)));
    }
}

/// Two lists of steps, each of which starts only from open keys, do so in a row.
pub proof fn lemma_grounded_append(first: Seq<StepView>, second: Seq<StepView>, keys: OpenKeys)
    requires
        grounded_in_order(first, keys),
        grounded_in_order(second, keys_in_order(first, keys)),
    ensures
        grounded_in_order(first + second, keys),
    decreases first.len(),
{
    if first.len() == 0 {
        assert(first + second =~= second);
    } else {
        let after = keys_after(first[0].request, Reply::Done, keys);
        assert((first + second).drop_first() =~= first.drop_first() + second);
        assert((first + second)[0] == first[0]);
        lemma_grounded_append(first.drop_first(), second, after);
    }
}

/// Ignoring failures changes nothing where there are none.
pub proof fn lemma_effects_absorb(steps: Seq<StepView>, keys: OpenKeys)
    ensures
        effects_in_order(absorb(steps), keys) == effects_in_order(steps, keys),
        keys_in_order(absorb(steps), keys) == keys_in_order(steps, keys),
        unconditional(steps) ==> unconditional(absorb(steps)),
    decreases steps.len(),
{
    assert forall|i: int| #![trigger absorb(steps)[i]] 0 <= i < steps.len() implies absorb(
        steps,
    )[i].on_success == steps[i].on_success by {}
    if steps.len() > 0 {
        let after = keys_after(steps[0].request, Reply::Done, keys);
        lemma_effects_absorb(steps.drop_first(), after);
        assert(absorb(steps).drop_first() =~= absorb(steps.drop_first()));
        assert(absorb(steps)[0].request == steps[0].request);
    }
}

/// Steps that always go on to the next do so in a row.
pub proof fn lemma_append_unconditional(first: Seq<StepView>, second: Seq<StepView>)
    requires
        unconditional(first),
        unconditional(second),
    ensures
        unconditional(first + second),
{
    let both = first + second;
    assert forall|i: int| #![trigger both[i]] 0 <= i < both.len() implies both[i] == if i
        < first.len() {
        first[i]
    } else {
        second[i - first.len()]
    } by {}
}

/// Where straight steps end well, they have opened all their keys.
pub proof fn lemma_straight_keys(plan: PlanView, keys: OpenKeys, replies: Seq<ReplyView>)
    requires
        straight(plan.steps),
        run(plan, keys, replies).ended(),
        run(plan, keys, replies).rest.outcome is Ok,
    ensures
        run(plan, keys, replies).keys == keys_in_order(plan.steps, keys),
    decreases replies.len(),
{
    if !plan.ended() {
        assert(plan.steps[0].on_success is Continue && plan.steps[0].on_failure is Abort);
        let next = plan.advance(replies[0]);
        let request = plan.steps[0].request;
        let after = keys_after(request, replies[0], keys);
        let rest = replies.drop_first();
        if replies[0] is Failed {
            assert(next.ended());
            assert(run(next, after, rest).rest == next);
        } else {
            assert(next.steps =~= plan.steps.drop_first());
            assert forall|i: int| 0 <= i < next.steps.len() implies {
                &&& (#[trigger] next.steps[i]).on_success is Continue
                &&& next.steps[i].on_failure is Abort
            } by {
                assert(next.steps[i] == plan.steps[i + 1]);
            }
            assert(after == keys_after(request, Reply::Done, keys));
            lemma_straight_keys(next, after, rest);
        }
    }
}

} // verus!
