//! What holds of the URL protocols, whatever the registry replies.
use vstd::prelude::*;

use crate::changes::{addable, law_changes_lead_to_next, removable};
use crate::compose::{
    agree_outside, contained, law_absorb, law_guarded, law_quiet, law_straight, law_then,
    lemma_absorb_shape, lemma_append_shape, lemma_run_keys, opens_only, quiet, stopped_at,
    straight, successes,
};
use crate::confine::{keeps_to, kept, lemma_guarded_keeps, lemma_keeps_absorbed, lemma_keeps_then};
use crate::custom_protocols::{
    protocol_keys, protocols_of, register_protocol, register_protocols, remove_all_protocols_plan,
    remove_protocols, update_protocols_plan,
};
use crate::keys::{
    class_path, classes_effect, classes_open, open_software_classes, SHELL_OPEN_COMMAND_KEY,
    SOFTWARE_CLASSES_REGISTRY_KEY,
};
use crate::locator::{open_command, LocatorView};
use crate::order::{
    effects_in_order, grounded_in_order, keys_in_order, law_all_succeed, law_straight_effects,
    lemma_append_unconditional, lemma_effects_absorb, lemma_effects_append, unconditional,
};
use crate::plan::{
    absorb, plan_of, Access, Failure, FailureView, Key, Reply, ReplyView, Value,
};
use crate::run::{
    below, effect_of, keys_after, law_bounded, only_root, run, touched, within, Effect,
    OpenKeys,
};

verus! {

/// What registering a protocol is about.
pub open spec fn protocol_effects(name: Seq<char>, command: Seq<char>) -> Seq<Effect> {
    let class = class_path(name);
    let open = below(class, SHELL_OPEN_COMMAND_KEY@);
    seq![
        Effect::CreateKey { path: class, access: Access::AllAccess },
        Effect::SetValue {
            path: class,
            name: Seq::empty(),
            value: Value::Sz("URL:"@ + name + " protocol"@),
        },
        Effect::SetValue { path: class, name: "URL Protocol"@, value: Value::Sz(Seq::empty()) },
        Effect::CreateKey { path: open, access: Access::AllAccess },
        Effect::SetValue { path: open, name: Seq::empty(), value: Value::Sz(command) },
    ]
}

/// Registering a protocol creates its class and its open command in this order up
/// to and including the first request that fails, with which it fails, and does
/// nothing else. Where no request fails, all is done, and it succeeds.
pub proof fn law_register_single_protocol(
    name: Seq<char>,
    command: Seq<char>,
    keys: OpenKeys,
    replies: Seq<ReplyView>,
)
    requires
        keys.contains_key(Key::SoftwareClasses),
        keys[Key::SoftwareClasses] == SOFTWARE_CLASSES_REGISTRY_KEY@,
    ensures
        ({
            let steps = register_protocol(Key::SoftwareClasses, name, command);
            let a = run(plan_of(steps), keys, replies);
            let full = protocol_effects(name, command);
            let n = successes(replies);
            &&& a.grounded
            &&& a.effects.is_prefix_of(full)
            &&& n >= full.len() ==> a.effects == full && a.ended() && a.rest.outcome is Ok
            &&& n < full.len() && n < replies.len() ==> a.effects.len() == n + 1 && a.rest
                == stopped_at(steps[n as int], replies[n as int]->Failed_0)
        }),
{
    let steps = register_protocol(Key::SoftwareClasses, name, command);
    lemma_register_protocol_in_order(name, command, keys);
    law_straight_effects(plan_of(steps), keys, replies);
    law_straight(plan_of(steps), keys, replies);
    law_bounded(plan_of(steps), keys, replies);
}

proof fn lemma_register_protocol_in_order(
    name: Seq<char>,
    command: Seq<char>,
    keys: OpenKeys,
)
    requires
        keys.contains_key(Key::SoftwareClasses),
        keys[Key::SoftwareClasses] == SOFTWARE_CLASSES_REGISTRY_KEY@,
    ensures
        ({
            let steps = register_protocol(Key::SoftwareClasses, name, command);
            &&& straight(steps)
            &&& contained(steps)
            &&& unconditional(steps)
            &&& opens_only(steps, protocol_keys())
            &&& grounded_in_order(steps, keys)
            &&& effects_in_order(steps, keys) == protocol_effects(name, command)
            &&& agree_outside(keys, keys_in_order(steps, keys), protocol_keys())
        }),
{
    reveal_with_fuel(effects_in_order, 6);
    reveal_with_fuel(grounded_in_order, 6);
    reveal_with_fuel(keys_in_order, 6);
    let steps = register_protocol(Key::SoftwareClasses, name, command);
    assert(effects_in_order(steps, keys) =~= protocol_effects(name, command));
}

/// Registrations are quiet, lead nowhere else and open only their own keys.
proof fn lemma_register_protocols_shape(names: Seq<Seq<char>>, command: Seq<char>)
    ensures
        ({
            let steps = register_protocols(Key::SoftwareClasses, names, command);
            &&& quiet(steps)
            &&& contained(steps)
            &&& opens_only(steps, protocol_keys())
        }),
    decreases names.len(),
{
    if names.len() > 0 {
        let first = register_protocols(Key::SoftwareClasses, names.drop_last(), command);
        let last = register_protocol(Key::SoftwareClasses, names.last(), command);
        lemma_register_protocols_shape(names.drop_last(), command);
        lemma_register_protocol_in_order(names.last(), command, classes_open());
        lemma_absorb_shape(last, protocol_keys());
        lemma_append_shape(first, absorb(last), protocol_keys());
    }
}

/// Registrations keep to what registering each of the protocols is about.
proof fn lemma_register_protocols_keeps(
    names: Seq<Seq<char>>,
    command: Seq<char>,
    allowed: spec_fn(Effect) -> bool,
)
    requires
        forall|name: Seq<char>, e: Effect|
            names.contains(name) && #[trigger] protocol_effects(name, command).contains(e)
                ==> allowed(e),
    ensures
        keeps_to(
            plan_of(register_protocols(Key::SoftwareClasses, names, command)),
            classes_open(),
            protocol_keys(),
            allowed,
        ),
    decreases names.len(),
{
    let whole = plan_of(register_protocols(Key::SoftwareClasses, names, command));
    if names.len() > 0 {
        let first = plan_of(
            register_protocols(Key::SoftwareClasses, names.drop_last(), command),
        );
        let last = plan_of(register_protocol(Key::SoftwareClasses, names.last(), command));
        assert forall|name: Seq<char>, e: Effect|
            names.drop_last().contains(name) && #[trigger] protocol_effects(
                name,
                command,
            ).contains(e) implies allowed(e) by {
            let i = choose|i: int| 0 <= i < names.drop_last().len() && names.drop_last()[i] == name;
            assert(names[i] == name);
        }
        lemma_register_protocols_keeps(names.drop_last(), command, allowed);
        assert(keeps_to(last, classes_open(), protocol_keys(), allowed)) by {
            assert(names[names.len() - 1] == names.last());
            assert forall|k: OpenKeys, replies: Seq<ReplyView>|
                #![trigger run(last, k, replies)]
                agree_outside(classes_open(), k, protocol_keys()) implies kept(
                run(last, k, replies),
                allowed,
            ) by {
                assert(classes_open().contains_key(Key::SoftwareClasses));
                assert(k.contains_key(Key::SoftwareClasses));
                law_register_single_protocol(names.last(), command, k, replies);
                let a = run(last, k, replies);
                assert forall|i: int| 0 <= i < a.effects.len() implies allowed(
                    #[trigger] a.effects[i],
                ) by {
                    assert(protocol_effects(names.last(), command)[i] == a.effects[i]);
                    assert(protocol_effects(names.last(), command).contains(a.effects[i]));
                }
            }
        }
        lemma_keeps_absorbed(last, classes_open(), protocol_keys(), allowed);
        lemma_register_protocols_shape(names.drop_last(), command);
        lemma_keeps_then(first, last.absorbed(), classes_open(), protocol_keys(), allowed);
        assert(first.then_plan(last.absorbed()) =~= whole);
    }
}

/// What removing protocols is about.
pub open spec fn removal_effects(names: Seq<Seq<char>>) -> Seq<Effect> {
    names.map_values(|name: Seq<char>| Effect::DeleteTree { path: class_path(name) })
}

/// Removals are straight and open no key.
proof fn lemma_remove_protocols_in_order(names: Seq<Seq<char>>, keys: OpenKeys)
    requires
        keys.contains_key(Key::SoftwareClasses),
        keys[Key::SoftwareClasses] == SOFTWARE_CLASSES_REGISTRY_KEY@,
    ensures
        ({
            let steps = remove_protocols(Key::SoftwareClasses, names);
            &&& straight(steps)
            &&& contained(steps)
            &&& unconditional(steps)
            &&& opens_only(steps, protocol_keys())
            &&& grounded_in_order(steps, keys)
            &&& effects_in_order(steps, keys) == removal_effects(names)
            &&& keys_in_order(steps, keys) == keys
        }),
    decreases names.len(),
{
    let steps = remove_protocols(Key::SoftwareClasses, names);
    if names.len() > 0 {
        lemma_remove_protocols_in_order(names.drop_first(), keys);
        assert(steps.drop_first() =~= remove_protocols(Key::SoftwareClasses, names.drop_first()));
        assert(effects_in_order(steps, keys) =~= removal_effects(names)) by {
            assert(removal_effects(names) =~= seq![Effect::DeleteTree { path: class_path(names[0]) }]
                + removal_effects(names.drop_first()));
        }
    } else {
        assert(effects_in_order(steps, keys) =~= removal_effects(names));
    }
}

/// Protocols are removed in order up to and including the first that cannot be
/// removed.
pub proof fn law_remove_custom_protocols(
    names: Seq<Seq<char>>,
    keys: OpenKeys,
    replies: Seq<ReplyView>,
)
    requires
        keys.contains_key(Key::SoftwareClasses),
        keys[Key::SoftwareClasses] == SOFTWARE_CLASSES_REGISTRY_KEY@,
    ensures
        ({
            let a = run(plan_of(remove_protocols(Key::SoftwareClasses, names)), keys, replies);
            let n = successes(replies);
            &&& a.grounded
            &&& a.effects == if n >= names.len() {
                removal_effects(names)
            } else {
                removal_effects(names.take(n as int + 1))
            }
            &&& n >= names.len() ==> a.ended() && a.rest.outcome is Ok
            &&& n < names.len() && n < replies.len() ==> a.ended() && a.rest.outcome == Err::<
                (),
                FailureView,
            >(
                Failure::Registry {
                    context: Some("Failed to recursively delete protocol "@ + names[n as int]),
                    cause: replies[n as int]->Failed_0,
                },
            )
        }),
{
    let steps = remove_protocols(Key::SoftwareClasses, names);
    let plan = plan_of(steps);
    let a = run(plan, keys, replies);
    let n = successes(replies);
    lemma_remove_protocols_in_order(names, keys);
    law_straight(plan, keys, replies);
    law_straight_effects(plan, keys, replies);
    law_bounded(plan, keys, replies);
    if n >= names.len() {
        assert(a.effects =~= removal_effects(names));
    } else {
        assert(a.effects.len() == n + 1);
        assert(a.effects =~= removal_effects(names).take(n as int + 1));
        assert(removal_effects(names).take(n as int + 1) =~= removal_effects(
            names.take(n as int + 1),
        ));
    }
}

/// What an update of the protocols may be about: opening `Software\Classes`,
/// removing a protocol that is to be removed, registering one that is to be added.
pub open spec fn is_protocol_update(
    removed: Seq<Seq<char>>,
    added: Seq<Seq<char>>,
    command: Seq<char>,
    e: Effect,
) -> bool {
    ||| e == classes_effect()
    ||| exists|name: Seq<char>| #[trigger]
        removed.contains(name) && e == (Effect::DeleteTree { path: class_path(name) })
    ||| exists|name: Seq<char>|
        added.contains(name) && #[trigger] protocol_effects(name, command).contains(e)
}

/// Removals and registrations together keep to an update of the protocols.
proof fn lemma_update_keeps(
    removed: Seq<Seq<char>>,
    added: Seq<Seq<char>>,
    command: Seq<char>,
)
    ensures
        ({
            let others = absorb(remove_protocols(Key::SoftwareClasses, removed)) + absorb(
                register_protocols(Key::SoftwareClasses, added, command),
            );
            &&& quiet(others)
            &&& keeps_to(
                plan_of(others),
                classes_open(),
                protocol_keys(),
                |e: Effect| is_protocol_update(removed, added, command, e),
            )
        }),
{
    let allowed = |e: Effect| is_protocol_update(removed, added, command, e);
    let removal = remove_protocols(Key::SoftwareClasses, removed);
    let registration = register_protocols(Key::SoftwareClasses, added, command);
    assert(classes_open().contains_key(Key::SoftwareClasses));
    lemma_remove_protocols_in_order(removed, classes_open());
    lemma_register_protocols_shape(added, command);
    lemma_absorb_shape(removal, protocol_keys());
    lemma_absorb_shape(registration, protocol_keys());
    lemma_append_shape(absorb(removal), absorb(registration), protocol_keys());
    assert(keeps_to(plan_of(removal), classes_open(), protocol_keys(), allowed)) by {
        assert forall|k: OpenKeys, replies: Seq<ReplyView>|
            #![trigger run(plan_of(removal), k, replies)]
            agree_outside(classes_open(), k, protocol_keys()) implies kept(
            run(plan_of(removal), k, replies),
            allowed,
        ) by {
            assert(k.contains_key(Key::SoftwareClasses));
            lemma_remove_protocols_in_order(removed, k);
            law_straight_effects(plan_of(removal), k, replies);
            let a = run(plan_of(removal), k, replies);
            assert forall|i: int| 0 <= i < a.effects.len() implies allowed(
                #[trigger] a.effects[i],
            ) by {
                assert(a.effects[i] == removal_effects(removed)[i]);
                assert(removed.contains(removed[i]));
            }
        }
    }
    lemma_keeps_absorbed(plan_of(removal), classes_open(), protocol_keys(), allowed);
    lemma_register_protocols_keeps(added, command, allowed);
    lemma_keeps_absorbed(plan_of(registration), classes_open(), protocol_keys(), allowed);
    lemma_keeps_then(
        plan_of(removal).absorbed(),
        plan_of(registration).absorbed(),
        classes_open(),
        protocol_keys(),
        allowed,
    );
}

/// An update of the protocols removes only protocols that are no longer handled,
/// registers only new ones, and touches nothing else. It fails exactly if
/// `Software\Classes` cannot be opened.
pub proof fn law_update_custom_protocols(
    next_app: LocatorView,
    previous_app: Option<LocatorView>,
    replies: Seq<ReplyView>,
)
    requires
        protocols_of(previous_app) != next_app.custom_url_protocols,
    ensures
        ({
            let prev = protocols_of(previous_app);
            let next = next_app.custom_url_protocols;
            let a = run(update_protocols_plan(next_app, previous_app), only_root(), replies);
            &&& a.grounded
            &&& forall|i: int|
                0 <= i < a.effects.len() ==> is_protocol_update(
                    removable(prev, next),
                    addable(prev, next),
                    open_command(next_app.main_exe_path),
                    #[trigger] a.effects[i],
                )
            &&& replies.len() > 0 ==> match replies[0] {
                Reply::Failed(cause) => {
                    &&& a.requests.len() == 1
                    &&& a.ended()
                    &&& a.rest.outcome == Err::<(), FailureView>(
                        Failure::Registry {
                            context: Some("Failed to create/open registry key"@),
                            cause,
                        },
                    )
                },
                _ => a.rest.outcome is Ok,
            }
        }),
{
    let prev = protocols_of(previous_app);
    let next = next_app.custom_url_protocols;
    let command = open_command(next_app.main_exe_path);
    let removed = removable(prev, next);
    let added = addable(prev, next);
    let first = open_software_classes("Failed to create/open registry key"@);
    let others = absorb(remove_protocols(Key::SoftwareClasses, removed)) + absorb(
        register_protocols(Key::SoftwareClasses, added, command),
    );
    let allowed = |e: Effect| is_protocol_update(removed, added, command, e);
    lemma_update_keeps(removed, added, command);
    assert(update_protocols_plan(next_app, previous_app) =~= plan_of(seq![first] + others));
    assert(keys_after(first.request, Reply::Done, only_root()) =~= classes_open());
    lemma_guarded_keeps(first, others, only_root(), protocol_keys(), allowed, replies);
    let a = run(update_protocols_plan(next_app, previous_app), only_root(), replies);
    assert forall|i: int| 0 <= i < a.effects.len() implies is_protocol_update(
        removed,
        added,
        command,
        #[trigger] a.effects[i],
    ) by {
        assert(allowed(a.effects[i]));
    }
    if replies.len() > 0 {
        law_guarded(first, others, only_root(), replies);
    }
}

/// Where the protocols stay the same, nothing is asked of the registry.
pub proof fn law_same_protocols(
    next_app: LocatorView,
    previous_app: Option<LocatorView>,
    replies: Seq<ReplyView>,
)
    requires
        protocols_of(previous_app) == next_app.custom_url_protocols,
    ensures
        ({
            let a = run(update_protocols_plan(next_app, previous_app), only_root(), replies);
            a.requests.len() == 0 && a.ended() && a.rest.outcome is Ok
        }),
{
}

/// What creating the class of a protocol is about.
pub open spec fn class_effect(name: Seq<char>) -> Effect {
    Effect::CreateKey { path: class_path(name), access: Access::AllAccess }
}

/// However the registrations go, each of the protocols is attempted.
pub proof fn law_register_custom_protocols(
    names: Seq<Seq<char>>,
    command: Seq<char>,
    keys: OpenKeys,
    replies: Seq<ReplyView>,
)
    requires
        keys.contains_key(Key::SoftwareClasses),
        keys[Key::SoftwareClasses] == SOFTWARE_CLASSES_REGISTRY_KEY@,
        run(
            plan_of(register_protocols(Key::SoftwareClasses, names, command)),
            keys,
            replies,
        ).ended(),
    ensures
        ({
            let a = run(
                plan_of(register_protocols(Key::SoftwareClasses, names, command)),
                keys,
                replies,
            );
            &&& a.rest.outcome is Ok
            &&& forall|name: Seq<char>| #[trigger]
                names.contains(name) ==> a.effects.contains(class_effect(name))
        }),
    decreases names.len(),
{
    let whole = plan_of(register_protocols(Key::SoftwareClasses, names, command));
    let a = run(whole, keys, replies);
    lemma_register_protocols_shape(names, command);
    law_quiet(whole, keys, replies);
    if names.len() > 0 {
        let first = plan_of(
            register_protocols(Key::SoftwareClasses, names.drop_last(), command),
        );
        let single = plan_of(register_protocol(Key::SoftwareClasses, names.last(), command));
        let last = single.absorbed();
        assert(whole =~= first.then_plan(last));
        lemma_register_protocols_shape(names.drop_last(), command);
        law_then(first, last, keys, replies);
        law_quiet(first, keys, replies);
        let b = run(first, keys, replies);
        assert(b.ended());
        lemma_run_keys(first, keys, replies, protocol_keys());
        law_register_custom_protocols(names.drop_last(), command, keys, replies);
        let rest = replies.skip(b.used as int);
        let c = run(last, b.keys, rest);
        law_absorb(single, b.keys, rest);
        law_register_single_protocol(names.last(), command, b.keys, rest);
        assert(b.keys.contains_key(Key::SoftwareClasses));
        assert(c.effects.len() > 0 && c.effects[0] == class_effect(names.last()));
        assert(a.effects =~= b.effects + c.effects);
        assert forall|name: Seq<char>| #[trigger] names.contains(name) implies a.effects.contains(
            class_effect(name),
        ) by {
            let i = choose|i: int| 0 <= i < names.len() && names[i] == name;
            if i < names.len() - 1 {
                assert(names.drop_last()[i] == name);
                assert(names.drop_last().contains(name));
                let j = choose|j: int|
                    0 <= j < b.effects.len() && b.effects[j] == class_effect(name);
                assert(a.effects[j] == class_effect(name));
            } else {
                assert(a.effects[b.effects.len() as int] == class_effect(name));
            }
        }
    }
}

/// Once `Software\Classes` is open, an update that comes to its end has attempted
/// every new protocol, whatever became of the removals and of the other protocols.
pub proof fn law_update_attempts_every_new_protocol(
    next_app: LocatorView,
    previous_app: Option<LocatorView>,
    replies: Seq<ReplyView>,
)
    requires
        protocols_of(previous_app) != next_app.custom_url_protocols,
        replies.len() > 0,
        !(replies[0] is Failed),
        run(update_protocols_plan(next_app, previous_app), only_root(), replies).ended(),
    ensures
        ({
            let added = addable(protocols_of(previous_app), next_app.custom_url_protocols);
            let a = run(update_protocols_plan(next_app, previous_app), only_root(), replies);
            forall|name: Seq<char>| #[trigger]
                added.contains(name) ==> a.effects.contains(class_effect(name))
        }),
{
    let prev = protocols_of(previous_app);
    let next = next_app.custom_url_protocols;
    let command = open_command(next_app.main_exe_path);
    let removed = removable(prev, next);
    let added = addable(prev, next);
    let plan = update_protocols_plan(next_app, previous_app);
    let first = open_software_classes("Failed to create/open registry key"@);
    let removal = plan_of(remove_protocols(Key::SoftwareClasses, removed));
    let registration = plan_of(register_protocols(Key::SoftwareClasses, added, command));
    let others = removal.absorbed().then_plan(registration.absorbed());
    assert(plan =~= plan_of(seq![first] + others.steps));
    assert(plan.advance(replies[0]) =~= others);
    let keys = keys_after(first.request, replies[0], only_root());
    assert(keys =~= classes_open());
    let rest = replies.drop_first();
    let a = run(plan, only_root(), replies);
    let b = run(others, keys, rest);
    assert(a.effects =~= seq![effect_of(first.request, only_root())] + b.effects);
    lemma_remove_protocols_in_order(removed, keys);
    lemma_absorb_shape(removal.steps, protocol_keys());
    law_then(removal.absorbed(), registration.absorbed(), keys, rest);
    law_quiet(removal.absorbed(), keys, rest);
    let c = run(removal.absorbed(), keys, rest);
    assert(c.ended());
    lemma_run_keys(removal.absorbed(), keys, rest, protocol_keys());
    assert(c.keys.contains_key(Key::SoftwareClasses));
    let last = rest.skip(c.used as int);
    law_absorb(registration, c.keys, last);
    law_register_custom_protocols(added, command, c.keys, last);
    let d = run(registration.absorbed(), c.keys, last);
    assert(b.effects =~= c.effects + d.effects);
    assert forall|name: Seq<char>| #[trigger] added.contains(name) implies a.effects.contains(
        class_effect(name),
    ) by {
        assert(d.effects.contains(class_effect(name)));
        let j = choose|j: int| 0 <= j < d.effects.len() && d.effects[j] == class_effect(name);
        assert(a.effects[1 + c.effects.len() + j] == class_effect(name));
    }
}

/// What registering protocols is about.
pub open spec fn registration_effects(names: Seq<Seq<char>>, command: Seq<char>) -> Seq<Effect>
    decreases names.len(),
{
    if names.len() == 0 {
        Seq::empty()
    } else {
        registration_effects(names.drop_last(), command) + protocol_effects(names.last(), command)
    }
}

proof fn lemma_register_protocols_in_order(
    names: Seq<Seq<char>>,
    command: Seq<char>,
    keys: OpenKeys,
)
    requires
        keys.contains_key(Key::SoftwareClasses),
        keys[Key::SoftwareClasses] == SOFTWARE_CLASSES_REGISTRY_KEY@,
    ensures
        ({
            let steps = register_protocols(Key::SoftwareClasses, names, command);
            &&& unconditional(steps)
            &&& effects_in_order(steps, keys) == registration_effects(names, command)
            &&& agree_outside(keys, keys_in_order(steps, keys), protocol_keys())
        }),
    decreases names.len(),
{
    if names.len() > 0 {
        let first = register_protocols(Key::SoftwareClasses, names.drop_last(), command);
        let last = register_protocol(Key::SoftwareClasses, names.last(), command);
        lemma_register_protocols_in_order(names.drop_last(), command, keys);
        let after = keys_in_order(first, keys);
        assert(after.contains_key(Key::SoftwareClasses));
        lemma_register_protocol_in_order(names.last(), command, after);
        lemma_effects_absorb(last, after);
        lemma_effects_append(first, absorb(last), keys);
        lemma_append_unconditional(first, absorb(last));
    }
}

/// Where every request succeeds, an update removes what is to be removed and then
/// registers what is to be added, each protocol with all that belongs to it.
pub proof fn law_update_custom_protocols_in_full(
    next_app: LocatorView,
    previous_app: Option<LocatorView>,
    replies: Seq<ReplyView>,
)
    requires
        protocols_of(previous_app) != next_app.custom_url_protocols,
        replies.len() >= update_protocols_plan(next_app, previous_app).steps.len(),
        forall|i: int| 0 <= i < replies.len() ==> !((#[trigger] replies[i]) is Failed),
    ensures
        ({
            let prev = protocols_of(previous_app);
            let next = next_app.custom_url_protocols;
            let a = run(update_protocols_plan(next_app, previous_app), only_root(), replies);
            &&& a.ended()
            &&& a.rest.outcome is Ok
            &&& a.effects == seq![classes_effect()] + removal_effects(removable(prev, next))
                + registration_effects(
                addable(prev, next),
                open_command(next_app.main_exe_path),
            )
        }),
{
    let prev = protocols_of(previous_app);
    let next = next_app.custom_url_protocols;
    let command = open_command(next_app.main_exe_path);
    let plan = update_protocols_plan(next_app, previous_app);
    let first = seq![open_software_classes("Failed to create/open registry key"@)];
    let removal = remove_protocols(Key::SoftwareClasses, removable(prev, next));
    let registration = register_protocols(Key::SoftwareClasses, addable(prev, next), command);
    reveal_with_fuel(effects_in_order, 2);
    reveal_with_fuel(keys_in_order, 2);
    assert(effects_in_order(first, only_root()) =~= seq![classes_effect()]);
    let keys = keys_in_order(first, only_root());
    assert(keys =~= classes_open());
    lemma_remove_protocols_in_order(removable(prev, next), keys);
    lemma_effects_absorb(removal, keys);
    lemma_effects_append(first, absorb(removal), only_root());
    lemma_append_unconditional(first, absorb(removal));
    lemma_register_protocols_in_order(addable(prev, next), command, keys);
    lemma_effects_absorb(registration, keys);
    lemma_effects_append(first + absorb(removal), absorb(registration), only_root());
    lemma_append_unconditional(first + absorb(removal), absorb(registration));
    law_all_succeed(plan, only_root(), replies);
}

/// Removing all protocols of the application asks to remove each, up to the first
/// that cannot be removed. It fails exactly if `Software\Classes` cannot be opened.
pub proof fn law_remove_all_custom_protocols(locator: LocatorView, replies: Seq<ReplyView>)
    requires
        replies.len() > 0,
    ensures
        ({
            let names = locator.custom_url_protocols;
            let a = run(remove_all_protocols_plan(locator), only_root(), replies);
            let n = successes(replies.drop_first());
            &&& a.grounded
            &&& match replies[0] {
                Reply::Failed(cause) => {
                    &&& a.effects == seq![classes_effect()]
                    &&& a.ended()
                    &&& a.rest.outcome == Err::<(), FailureView>(
                        Failure::Registry {
                            context: Some("Failed to create/open registry key"@),
                            cause,
                        },
                    )
                },
                _ => {
                    &&& a.effects == seq![classes_effect()] + if n >= names.len() {
                        removal_effects(names)
                    } else {
                        removal_effects(names.take(n as int + 1))
                    }
                    &&& a.rest.outcome is Ok
                },
            }
        }),
{
    reveal_with_fuel(run, 2);
    let names = locator.custom_url_protocols;
    let plan = remove_all_protocols_plan(locator);
    let first = open_software_classes("Failed to create/open registry key"@);
    let removal = plan_of(remove_protocols(Key::SoftwareClasses, names));
    assert(plan =~= plan_of(seq![first] + absorb(removal.steps)));
    lemma_absorb_shape(removal.steps, protocol_keys());
    law_guarded(first, absorb(removal.steps), only_root(), replies);
    let a = run(plan, only_root(), replies);
    if replies[0] is Failed {
        assert(plan.advance(replies[0]).ended());
        assert(a.effects =~= seq![classes_effect()]);
    } else {
        let keys = keys_after(first.request, replies[0], only_root());
        assert(keys =~= classes_open());
        assert(plan.advance(replies[0]) =~= removal.absorbed());
        law_absorb(removal, keys, replies.drop_first());
        law_remove_custom_protocols(names, keys, replies.drop_first());
    }
}

/// Removing a protocol deletes all that registering it creates: every key that is
/// created or written for the protocol is its class or below its class.
pub proof fn law_removal_covers_registration(name: Seq<char>, command: Seq<char>, i: int)
    requires
        0 <= i < protocol_effects(name, command).len(),
    ensures
        within(class_path(name), touched(protocol_effects(name, command)[i])),
{
}

/// Removing all protocols of an application undoes an update to it: however the
/// update went, every key below `Software\Classes` that it has asked to create or to
/// write is in a tree that the removal deletes, if no request of the removal fails.
pub proof fn law_remove_all_undoes_update(
    next_app: LocatorView,
    previous_app: Option<LocatorView>,
    replies: Seq<ReplyView>,
    later: Seq<ReplyView>,
    i: int,
)
    requires
        successes(later) > next_app.custom_url_protocols.len(),
        0 <= i < run(
            update_protocols_plan(next_app, previous_app),
            only_root(),
            replies,
        ).effects.len(),
    ensures
        ({
            let a = run(update_protocols_plan(next_app, previous_app), only_root(), replies);
            let b = run(remove_all_protocols_plan(next_app), only_root(), later);
            ||| a.effects[i] == classes_effect()
            ||| a.effects[i] is DeleteTree
            ||| exists|j: int|
                0 <= j < b.effects.len() && #[trigger] b.effects[j] is DeleteTree && within(
                    touched(b.effects[j]),
                    touched(a.effects[i]),
                )
        }),
{
    let prev = protocols_of(previous_app);
    let next = next_app.custom_url_protocols;
    let command = open_command(next_app.main_exe_path);
    let added = addable(prev, next);
    let a = run(update_protocols_plan(next_app, previous_app), only_root(), replies);
    let b = run(remove_all_protocols_plan(next_app), only_root(), later);
    let e = a.effects[i];
    if prev == next {
        law_same_protocols(next_app, previous_app, replies);
        law_bounded(update_protocols_plan(next_app, previous_app), only_root(), replies);
    } else {
        law_update_custom_protocols(next_app, previous_app, replies);
        assert(is_protocol_update(removable(prev, next), added, command, e));
        if e != classes_effect() && !(e is DeleteTree) {
            let name = choose|name: Seq<char>|
                added.contains(name) && #[trigger] protocol_effects(name, command).contains(e);
            let k = choose|k: int|
                0 <= k < protocol_effects(name, command).len() && protocol_effects(
                    name,
                    command,
                )[k] == e;
            law_removal_covers_registration(name, command, k);
            law_changes_lead_to_next(prev, next);
            assert(next.contains(name));
            let m = choose|m: int| 0 <= m < next.len() && next[m] == name;
            law_remove_all_custom_protocols(next_app, later);
            assert(b.effects[m + 1] == removal_effects(next)[m]);
        }
    }
}

} // verus!
