//! Confinement: plans that keep to what is allowed, whatever the replies.
use vstd::prelude::*;

use crate::compose::{
    agree_outside, contained, law_absorb, law_then, lemma_run_keys, opens_only, straight,
};
use crate::order::{
    effects_in_order, grounded_in_order, keys_in_order, law_straight_effects,
    lemma_straight_keys,
};
use crate::plan::{Key, PlanView, Reply, ReplyView, StepView};
use crate::run::{effect_of, key_of, keys_after, run, Effect, OpenKeys, Run};

verus! {

/// Whatever the replies, and whatever these keys are open at before, every request
/// starts from an open key and is about something that is allowed.
pub open spec fn keeps_to(
    plan: PlanView,
    keys: OpenKeys,
    fresh: Set<Key>,
    allowed: spec_fn(Effect) -> bool,
) -> bool {
    forall|k: OpenKeys, replies: Seq<ReplyView>|
        #![trigger run(plan, k, replies)]
        agree_outside(keys, k, fresh) ==> kept(run(plan, k, replies), allowed)
}

/// Every request starts from an open key and is about something that is allowed.
pub open spec fn kept(r: Run, allowed: spec_fn(Effect) -> bool) -> bool {
    &&& r.grounded
    &&& forall|i: int| 0 <= i < r.effects.len() ==> allowed(#[trigger] r.effects[i])
}

/// Two plans that keep to what is allowed keep to it in a row.
pub proof fn lemma_keeps_then(
    first: PlanView,
    second: PlanView,
    keys: OpenKeys,
    fresh: Set<Key>,
    allowed: spec_fn(Effect) -> bool,
)
    requires
        first.outcome is Ok,
        contained(first.steps),
        opens_only(first.steps, fresh),
        keeps_to(first, keys, fresh, allowed),
        keeps_to(second, keys, fresh, allowed),
    ensures
        keeps_to(first.then_plan(second), keys, fresh, allowed),
{
    assert forall|k: OpenKeys, replies: Seq<ReplyView>|
        #![trigger run(first.then_plan(second), k, replies)]
        agree_outside(keys, k, fresh) implies kept(
        run(first.then_plan(second), k, replies),
        allowed,
    ) by {
        law_then(first, second, k, replies);
        let a = run(first, k, replies);
        assert(kept(a, allowed));
        lemma_run_keys(first, k, replies, fresh);
        assert(agree_outside(keys, a.keys, fresh));
        let b = run(second, a.keys, replies.skip(a.used as int));
        assert(kept(b, allowed));
    }
}

/// A plan that keeps to what is allowed does so with its failures ignored.
pub proof fn lemma_keeps_absorbed(
    plan: PlanView,
    keys: OpenKeys,
    fresh: Set<Key>,
    allowed: spec_fn(Effect) -> bool,
)
    requires
        keeps_to(plan, keys, fresh, allowed),
    ensures
        keeps_to(plan.absorbed(), keys, fresh, allowed),
{
    assert forall|k: OpenKeys, replies: Seq<ReplyView>|
        #![trigger run(plan.absorbed(), k, replies)]
        agree_outside(keys, k, fresh) implies kept(
        run(plan.absorbed(), k, replies),
        allowed,
    ) by {
        law_absorb(plan, k, replies);
        assert(kept(run(plan, k, replies), allowed));
    }
}

/// An operation that first opens a key, and from there on keeps to what is allowed,
/// keeps to it as a whole if opening the key is allowed.
pub proof fn lemma_guarded_keeps(
    first: StepView,
    others: Seq<StepView>,
    keys: OpenKeys,
    fresh: Set<Key>,
    allowed: spec_fn(Effect) -> bool,
    replies: Seq<ReplyView>,
)
    requires
        straight(seq![first]),
        keys.contains_key(key_of(first.request)),
        allowed(effect_of(first.request, keys)),
        keeps_to(
            PlanView { steps: others, outcome: Ok(()) },
            keys_after(first.request, Reply::Done, keys),
            fresh,
            allowed,
        ),
    ensures
        kept(run(PlanView { steps: seq![first] + others, outcome: Ok(()) }, keys, replies), allowed),
{
    reveal_with_fuel(run, 2);
    let plan = PlanView { steps: seq![first] + others, outcome: Ok(()) };
    assert(seq![first][0].on_failure is Abort && seq![first][0].on_success is Continue);
    assert(plan.steps[0] == first);
    if replies.len() > 0 {
        let next = plan.advance(replies[0]);
        let after = keys_after(first.request, replies[0], keys);
        if replies[0] is Failed {
            assert(next.ended());
        } else {
            assert(next =~= PlanView { steps: others, outcome: Ok(()) });
            assert(after == keys_after(first.request, Reply::Done, keys));
            assert(kept(run(next, after, replies.drop_first()), allowed));
        }
    }
}

/// Straight steps that are about what is allowed keep to it.
pub proof fn lemma_straight_keeps(
    steps: Seq<StepView>,
    keys: OpenKeys,
    fresh: Set<Key>,
    allowed: spec_fn(Effect) -> bool,
)
    requires
        straight(steps),
        forall|k: OpenKeys|
            #![trigger effects_in_order(steps, k)]
            agree_outside(keys, k, fresh) ==> grounded_in_order(steps, k) && forall|i: int|
                0 <= i < effects_in_order(steps, k).len() ==> allowed(
                    #[trigger] effects_in_order(steps, k)[i],
                ),
    ensures
        keeps_to(PlanView { steps, outcome: Ok(()) }, keys, fresh, allowed),
{
    let plan = PlanView { steps, outcome: Ok(()) };
    assert forall|k: OpenKeys, replies: Seq<ReplyView>|
        #![trigger run(plan, k, replies)]
        agree_outside(keys, k, fresh) implies kept(run(plan, k, replies), allowed) by {
        let full = effects_in_order(steps, k);
        law_straight_effects(plan, k, replies);
        let a = run(plan, k, replies);
        assert forall|i: int| 0 <= i < a.effects.len() implies allowed(#[trigger] a.effects[i]) by {
            assert(a.effects[i] == full[i]);
        }
    }
}

/// Straight steps that open keys, and then steps that keep to what is allowed when
/// these keys are open, keep to it in a row.
pub proof fn lemma_keeps_after_opening(
    opening: Seq<StepView>,
    others: Seq<StepView>,
    keys: OpenKeys,
    all_fresh: Set<Key>,
    opened: OpenKeys,
    fresh: Set<Key>,
    allowed: spec_fn(Effect) -> bool,
)
    requires
        straight(opening),
        contained(opening),
        keeps_to(PlanView { steps: opening, outcome: Ok(()) }, keys, all_fresh, allowed),
        forall|k: OpenKeys|
            agree_outside(keys, k, all_fresh) ==> agree_outside(
                opened,
                #[trigger] keys_in_order(opening, k),
                fresh,
            ),
        keeps_to(PlanView { steps: others, outcome: Ok(()) }, opened, fresh, allowed),
    ensures
        keeps_to(PlanView { steps: opening + others, outcome: Ok(()) }, keys, all_fresh, allowed),
{
    let first = PlanView { steps: opening, outcome: Ok(()) };
    let second = PlanView { steps: others, outcome: Ok(()) };
    let whole = PlanView { steps: opening + others, outcome: Ok(()) };
    assert(whole =~= first.then_plan(second));
    assert forall|k: OpenKeys, replies: Seq<ReplyView>|
        #![trigger run(whole, k, replies)]
        agree_outside(keys, k, all_fresh) implies kept(run(whole, k, replies), allowed) by {
        law_then(first, second, k, replies);
        let a = run(first, k, replies);
        assert(kept(a, allowed));
        if a.ended() && a.rest.outcome is Ok {
            lemma_straight_keys(first, k, replies);
            assert(agree_outside(opened, a.keys, fresh));
            assert(kept(run(second, a.keys, replies.skip(a.used as int)), allowed));
        }
    }
}

} // verus!
