//! Runs: what a plan does to the registry under any sequence of replies.
use vstd::prelude::*;

use crate::plan::{
    Access, Failure, FailureView, Key, OnFailure, PlanView, Reply, ReplyView, Request,
    RequestView, ValueView,
};

verus! {

/// A request with the full path, below the key of the current user, of the key
/// that it is about.
pub enum Effect {
    CreateKey { path: Seq<char>, access: Access },
    SetValue { path: Seq<char>, name: Seq<char>, value: ValueView },
    GetValue { path: Seq<char>, name: Seq<char> },
    DeleteTree { path: Seq<char> },
    DeleteKey { path: Seq<char> },
}

/// The paths of the keys that are open.
pub type OpenKeys = Map<Key, Seq<char>>;

/// Before the first request only the key of the current user is open.
pub open spec fn only_root() -> OpenKeys {
    map![Key::CurrentUser => Seq::<char>::empty()]
}

/// The path of a sub key.
pub open spec fn below(path: Seq<char>, sub_key: Seq<char>) -> Seq<char> {
    if path.len() == 0 {
        sub_key
    } else if sub_key.len() == 0 {
        path
    } else {
        path + seq!['\\'] + sub_key
    }
}

/// The open key that a request starts from.
pub open spec fn key_of(request: RequestView) -> Key {
    match request {
        Request::CreateKey { parent, .. } => parent,
        Request::SetValue { key, .. } => key,
        Request::GetValue { key, .. } => key,
        Request::DeleteTree { key, .. } => key,
        Request::DeleteKey { key, .. } => key,
    }
}

/// What a request is about, given the open keys.
pub open spec fn effect_of(request: RequestView, keys: OpenKeys) -> Effect {
    let path = keys[key_of(request)];
    match request {
        Request::CreateKey { sub_key, access, .. } => Effect::CreateKey {
            path: below(path, sub_key),
            access,
        },
        Request::SetValue { name, value, .. } => Effect::SetValue { path, name, value },
        Request::GetValue { sub_key, name, .. } => Effect::GetValue {
            path: below(path, sub_key),
            name,
        },
        Request::DeleteTree { sub_key, .. } => Effect::DeleteTree { path: below(path, sub_key) },
        Request::DeleteKey { sub_key, .. } => Effect::DeleteKey { path: below(path, sub_key) },
    }
}

/// The open keys after the reply to a request.
pub open spec fn keys_after(
    request: RequestView,
    reply: ReplyView,
    keys: OpenKeys,
) -> OpenKeys {
    match request {
        Request::CreateKey { parent, sub_key, opened, .. } => if reply is Failed {
            keys
        } else {
            keys.insert(opened, below(keys[parent], sub_key))
        },
        _ => keys,
    }
}

/// How far a plan comes with given replies, and what it asks for on the way. The
/// last request has no reply yet where the replies run out before the plan ends.
#[verifier::ext_equal]
pub struct Run {
    /// The requests, in order.
    pub requests: Seq<RequestView>,
    /// What these requests are about.
    pub effects: Seq<Effect>,
    /// Each of them starts from a key that is open.
    pub grounded: bool,
    /// The number of replies that were taken.
    pub used: nat,
    /// The open keys after these replies.
    pub keys: OpenKeys,
    /// What is left of the plan.
    pub rest: PlanView,
}

impl Run {
    /// The plan has ended.
    pub open spec fn ended(self) -> bool {
        self.rest.ended()
    }

    /// This run, then another.
    pub open spec fn followed_by(self, next: Run) -> Run {
        Run {
            requests: self.requests + next.requests,
            effects: self.effects + next.effects,
            grounded: self.grounded && next.grounded,
            used: self.used + next.used,
            keys: next.keys,
            rest: next.rest,
        }
    }
}

/// The run of a plan on these replies, from these open keys on.
pub open spec fn run(plan: PlanView, keys: OpenKeys, replies: Seq<ReplyView>) -> Run
    decreases replies.len(),
{
    if plan.ended() {
        Run {
            requests: Seq::empty(),
            effects: Seq::empty(),
            grounded: true,
            used: 0,
            keys,
            rest: plan,
        }
    } else {
        let request = plan.steps[0].request;
        let first = Run {
            requests: seq![request],
            effects: seq![effect_of(request, keys)],
            grounded: keys.contains_key(key_of(request)),
            used: 0,
            keys,
            rest: plan,
        };
        if replies.len() == 0 {
            first
        } else {
            Run { used: 1, ..first }.followed_by(
                run(
                    plan.advance(replies[0]),
                    keys_after(request, replies[0], keys),
                    replies.drop_first(),
                ),
            )
        }
    }
}

/// A plan takes no more replies, and asks for no more, than it has steps; with a
/// reply for each step it ends.
pub proof fn law_bounded(plan: PlanView, keys: OpenKeys, replies: Seq<ReplyView>)
    ensures
        run(plan, keys, replies).used <= replies.len(),
        run(plan, keys, replies).used <= plan.steps.len(),
        run(plan, keys, replies).requests.len() <= plan.steps.len(),
        run(plan, keys, replies).ended() ==> run(plan, keys, replies).requests.len() == run(
            plan,
            keys,
            replies,
        ).used,
        !run(plan, keys, replies).ended() ==> run(plan, keys, replies).used == replies.len(),
        !run(plan, keys, replies).ended() ==> run(plan, keys, replies).requests.len()
            == replies.len() + 1,
        replies.len() >= plan.steps.len() ==> run(plan, keys, replies).ended(),
        run(plan, keys, replies).effects.len() == run(plan, keys, replies).requests.len(),
    decreases replies.len(),
{
    if !plan.ended() && replies.len() > 0 {
        law_bounded(
            plan.advance(replies[0]),
            keys_after(plan.steps[0].request, replies[0], keys),
            replies.drop_first(),
        );
    }
}

/// An operation fails only by its last request, with the error message of that
/// request and the context of a step that asked for it.
pub proof fn law_failure_is_of_last_request(
    plan: PlanView,
    keys: OpenKeys,
    replies: Seq<ReplyView>,
    context: Option<Seq<char>>,
    cause: Seq<char>,
)
    requires
        plan.outcome is Ok,
        run(plan, keys, replies).ended(),
        run(plan, keys, replies).rest.outcome == Err::<(), FailureView>(
            Failure::Registry { context, cause },
        ),
    ensures
        ({
            let a = run(plan, keys, replies);
            &&& a.used > 0
            &&& replies[a.used - 1] == Reply::Failed(cause)
            &&& exists|i: int|
                0 <= i < plan.steps.len() && (#[trigger] plan.steps[i]).request == a.requests.last()
                    && plan.steps[i].on_failure == OnFailure::<Seq<char>, nat>::Abort { context }
        }),
    decreases replies.len(),
{
    let a = run(plan, keys, replies);
    if !plan.ended() && replies.len() > 0 {
        let next = plan.advance(replies[0]);
        let rest = replies.drop_first();
        let after = keys_after(plan.steps[0].request, replies[0], keys);
        let b = run(next, after, rest);
        if next.outcome is Err {
            assert(next.ended());
            assert(a.requests =~= seq![plan.steps[0].request]);
            assert(plan.steps[0].on_failure == OnFailure::<Seq<char>, nat>::Abort { context });
        } else {
            law_failure_is_of_last_request(next, after, rest, context, cause);
            law_bounded(next, after, rest);
            assert(rest[b.used - 1] == replies[a.used - 1]);
            assert(b.requests.last() == a.requests.last());
            let i = choose|i: int|
                0 <= i < next.steps.len() && (#[trigger] next.steps[i]).request == b.requests.last()
                    && next.steps[i].on_failure == OnFailure::<Seq<char>, nat>::Abort { context };
            let n = plan.steps.len() - next.steps.len();
            assert(next.steps[i] == plan.steps[n + i]);
        }
    }
}

/// A session that has taken replies stands where the run on these replies ends:
/// with one reply more, the run goes on as the session does.
pub proof fn law_answer(
    plan: PlanView,
    keys: OpenKeys,
    replies: Seq<ReplyView>,
    reply: ReplyView,
)
    ensures
        ({
            let before = run(plan, keys, replies);
            let after = run(plan, keys, replies.push(reply));
            &&& before.ended() ==> after == before
            &&& !before.ended() ==> {
                &&& before.requests.last() == before.rest.steps[0].request
                &&& after.rest == before.rest.advance(reply)
                &&& after.requests.len() >= before.requests.len()
                &&& after.effects.len() >= before.effects.len()
                &&& after.requests.take(before.requests.len() as int) == before.requests
                &&& after.effects.take(before.effects.len() as int) == before.effects
            }
        }),
    decreases replies.len(),
{
    let before = run(plan, keys, replies);
    let after = run(plan, keys, replies.push(reply));
    if !plan.ended() {
        let request = plan.steps[0].request;
        if replies.len() == 0 {
            assert(replies.push(reply)[0] == reply);
            assert(after.requests.take(1) =~= before.requests);
            assert(after.effects.take(1) =~= before.effects);
            lemma_run_rest(
                plan.advance(reply),
                keys_after(request, reply, keys),
                replies.push(reply).drop_first(),
            );
        } else {
            let next = plan.advance(replies[0]);
            let next_keys = keys_after(request, replies[0], keys);
            let rest = replies.drop_first();
            assert(replies.push(reply).drop_first() =~= rest.push(reply));
            assert(replies.push(reply)[0] == replies[0]);
            law_answer(next, next_keys, rest, reply);
            law_bounded(next, next_keys, rest);
            law_bounded(next, next_keys, rest.push(reply));
            let b = run(next, next_keys, rest);
            let a = run(next, next_keys, rest.push(reply));
            if !before.ended() {
                assert(before.requests.last() == b.requests.last());
                assert(after.requests.take(before.requests.len() as int) =~= seq![request]
                    + a.requests.take(b.requests.len() as int));
                assert(before.requests =~= seq![request] + b.requests);
                let effect = effect_of(request, keys);
                assert(after.effects.take(before.effects.len() as int) =~= seq![effect]
                    + a.effects.take(b.effects.len() as int));
                assert(before.effects =~= seq![effect] + b.effects);
            }
        }
    }
}

/// Without replies, all of a plan is left.
proof fn lemma_run_rest(plan: PlanView, keys: OpenKeys, replies: Seq<ReplyView>)
    requires
        replies.len() == 0,
    ensures
        run(plan, keys, replies).rest == plan,
{
}

/// The path of the key that something is about.
pub open spec fn touched(e: Effect) -> Seq<char> {
    match e {
        Effect::CreateKey { path, .. } => path,
        Effect::SetValue { path, .. } => path,
        Effect::GetValue { path, .. } => path,
        Effect::DeleteTree { path } => path,
        Effect::DeleteKey { path } => path,
    }
}

/// A key is in the tree of another: it is that key itself or somewhere below it.
pub open spec fn within(tree: Seq<char>, path: Seq<char>) -> bool {
    path == tree || exists|sub_key: Seq<char>| path == #[trigger] below(tree, sub_key)
}

/// A plan asks for nothing but the requests of its steps.
pub proof fn lemma_requests_are_of_steps(
    plan: PlanView,
    keys: OpenKeys,
    replies: Seq<ReplyView>,
)
    ensures
        ({
            let a = run(plan, keys, replies);
            forall|i: int|
                0 <= i < a.requests.len() ==> exists|j: int|
                    0 <= j < plan.steps.len() && (#[trigger] plan.steps[j]).request
                        == #[trigger] a.requests[i]
        }),
    decreases replies.len(),
{
    let a = run(plan, keys, replies);
    assert forall|i: int| 0 <= i < a.requests.len() implies exists|j: int|
        0 <= j < plan.steps.len() && (#[trigger] plan.steps[j]).request
            == #[trigger] a.requests[i] by {
        if i == 0 {
            assert(plan.steps[0].request == a.requests[0]);
        } else {
            let next = plan.advance(replies[0]);
            let after = keys_after(plan.steps[0].request, replies[0], keys);
            let rest = replies.drop_first();
            lemma_requests_are_of_steps(next, after, rest);
            let b = run(next, after, rest);
            assert(a.requests[i] == b.requests[i - 1]);
            let j = choose|j: int|
                0 <= j < next.steps.len() && (#[trigger] next.steps[j]).request == b.requests[i - 1];
            let n = plan.steps.len() - next.steps.len();
            assert(next.steps[j] == plan.steps[n + j]);
        }
    }
}

} // verus!
