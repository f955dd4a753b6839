//! What holds of the file associations, whatever the registry replies.
use vstd::prelude::*;

use crate::changes::{addable, law_changes_lead_to_next, law_no_changes, removable};
use crate::compose::{
    agree_outside, contained, law_absorb, law_guarded, law_quiet, law_straight, law_then,
    lemma_absorb_shape, lemma_append_shape, lemma_run_keys, lemma_successes, opens_only, quiet,
    stopped_at, straight, successes,
};
use crate::confine::{
    keeps_to, kept, lemma_guarded_keeps, lemma_keeps_absorbed, lemma_keeps_after_opening,
    lemma_keeps_then, lemma_straight_keeps,
};
use crate::file_associations::{
    add_association, add_associations, add_each_association, association_keys, associations_of,
    extension_steps,
    open_file_associations, program_id, program_steps, remove_all_associations_plan,
    remove_association, remove_associations, remove_each_association, shell_open_command_steps,
    update_associations_plan, update_keys, DEFAULT_ICON_KEY, OPEN_WITH_PROG_KEY,
};
use crate::keys::{
    class_path, classes_effect, classes_open, open_software_classes, SHELL_OPEN_COMMAND_KEY,
    SOFTWARE_CLASSES_REGISTRY_KEY,
};
use crate::locator::{open_command, LocatorView};
use crate::order::{
    effects_in_order, grounded_in_order, keys_in_order, law_all_succeed, law_straight_effects,
    lemma_append_unconditional, lemma_effects_absorb, lemma_effects_append,
    lemma_grounded_append, lemma_straight_keys, unconditional,
};
use crate::plan::{
    absorb, may, plan_of, set_text, Access, Failure, FailureView, Key, Reply, ReplyView, Request,
    StepView, Value,
};
use crate::run::{
    below, effect_of, keys_after, law_bounded, lemma_requests_are_of_steps, only_root, run,
    touched, within, Effect, OpenKeys,
};

verus! {

/// The path of the file associations among the capabilities of the application.
pub open spec fn file_associations_path(locator: LocatorView) -> Seq<char> {
    below(locator.capability_path(), "FileAssociations"@)
}

/// What opening the file associations of the application is about.
pub open spec fn opening_effects(locator: LocatorView) -> Seq<Effect> {
    seq![
        Effect::CreateKey { path: locator.capability_path(), access: Access::CreateSubKey },
        Effect::CreateKey { path: file_associations_path(locator), access: Access::AllAccess },
    ]
}

/// What creating the class of a program ID is about.
pub open spec fn program_effects(
    id: Seq<char>,
    icon_url: Seq<char>,
    app_path: Seq<char>,
) -> Seq<Effect> {
    let class = class_path(id);
    let icon = below(class, DEFAULT_ICON_KEY@);
    let open = below(class, SHELL_OPEN_COMMAND_KEY@);
    seq![
        Effect::CreateKey { path: class, access: Access::AllAccess },
        Effect::CreateKey { path: icon, access: Access::AllAccess },
        Effect::SetValue { path: icon, name: Seq::empty(), value: Value::Sz(icon_url) },
        Effect::CreateKey { path: open, access: Access::AllAccess },
        Effect::SetValue {
            path: open,
            name: Seq::empty(),
            value: Value::Sz(open_command(app_path)),
        },
    ]
}

/// What creating the class of an extension, and referring to a program ID in it, is
/// about: the class and its default value, then the clearing of that value, then
/// the references.
pub open spec fn extension_effects(
    associations: Seq<char>,
    extension: Seq<char>,
    id: Seq<char>,
    cleared: bool,
) -> Seq<Effect> {
    let class = class_path(extension);
    let open_with = below(class, OPEN_WITH_PROG_KEY@);
    seq![
        Effect::CreateKey { path: class, access: Access::AllAccess },
        Effect::GetValue { path: class, name: Seq::empty() },
    ] + if cleared {
        seq![
            Effect::SetValue { path: class, name: Seq::empty(), value: Value::Sz(Seq::empty()) },
        ]
    } else {
        seq![]
    } + seq![
        Effect::CreateKey { path: open_with, access: Access::AllAccess },
        Effect::SetValue { path: open_with, name: id, value: Value::Sz(Seq::empty()) },
        Effect::SetValue { path: associations, name: "."@ + extension, value: Value::Sz(id) },
    ]
}

/// What associating an extension with the application is about.
pub open spec fn association_effects(
    locator: LocatorView,
    extension: Seq<char>,
    cleared: bool,
) -> Seq<Effect> {
    let id = program_id(locator.program_id_prefix(), extension);
    program_effects(id, locator.icon_url, locator.main_exe_path) + extension_effects(
        file_associations_path(locator),
        extension,
        id,
        cleared,
    )
}

/// What removing an extension is about.
pub open spec fn association_removal_effects(
    locator: LocatorView,
    extension: Seq<char>,
) -> Seq<Effect> {
    let id = program_id(locator.program_id_prefix(), extension);
    seq![
        Effect::DeleteTree { path: class_path(id) },
        Effect::DeleteTree { path: class_path(extension) },
        Effect::DeleteKey { path: below(file_associations_path(locator), id) },
    ]
}

/// `Software\Classes` and the file associations of the application are open.
pub open spec fn associations_open(locator: LocatorView) -> OpenKeys {
    classes_open().insert(Key::Capabilities, locator.capability_path()).insert(
        Key::FileAssociations,
        file_associations_path(locator),
    )
}

/// `Software\Classes` and the file associations of the application are among the
/// open keys.
pub open spec fn ready(locator: LocatorView, keys: OpenKeys) -> bool {
    &&& keys.contains_key(Key::SoftwareClasses)
    &&& keys[Key::SoftwareClasses] == SOFTWARE_CLASSES_REGISTRY_KEY@
    &&& keys.contains_key(Key::FileAssociations)
    &&& keys[Key::FileAssociations] == file_associations_path(locator)
}

/// The steps that associate an extension with the application.
pub open spec fn association_steps(locator: LocatorView, extension: Seq<char>) -> Seq<StepView> {
    add_association(
        Key::SoftwareClasses,
        Key::FileAssociations,
        extension,
        locator.program_id_prefix(),
        locator.icon_url,
        locator.main_exe_path,
    )
}

proof fn lemma_ready(locator: LocatorView, keys: OpenKeys)
    requires
        agree_outside(associations_open(locator), keys, association_keys()),
    ensures
        ready(locator, keys),
{
    assert(associations_open(locator).contains_key(Key::SoftwareClasses));
    assert(associations_open(locator).contains_key(Key::FileAssociations));
}

/// Creating the class of a program ID keeps to what it is about.
proof fn lemma_program_keeps(
    locator: LocatorView,
    extension: Seq<char>,
    allowed: spec_fn(Effect) -> bool,
)
    requires
        forall|e: Effect| #[trigger]
            program_effects(
                program_id(locator.program_id_prefix(), extension),
                locator.icon_url,
                locator.main_exe_path,
            ).contains(e) ==> allowed(e),
    ensures
        ({
            let id = program_id(locator.program_id_prefix(), extension);
            let steps = program_steps(
                Key::SoftwareClasses,
                extension,
                id,
                locator.icon_url,
                locator.main_exe_path,
            );
            &&& contained(steps)
            &&& opens_only(steps, association_keys())
            &&& keeps_to(
                plan_of(steps),
                associations_open(locator),
                association_keys(),
                allowed,
            )
        }),
{
    let id = program_id(locator.program_id_prefix(), extension);
    let full = program_effects(id, locator.icon_url, locator.main_exe_path);
    let steps = program_steps(
        Key::SoftwareClasses,
        extension,
        id,
        locator.icon_url,
        locator.main_exe_path,
    );
    let command = shell_open_command_steps(Key::Program, locator.main_exe_path);
    let opening = steps.take(3);
    assert(steps =~= opening + absorb(command));
    let opened = associations_open(locator).insert(Key::Program, class_path(id));
    let fresh = association_keys().remove(Key::Program);
    reveal_with_fuel(effects_in_order, 4);
    reveal_with_fuel(grounded_in_order, 4);
    reveal_with_fuel(keys_in_order, 4);
    assert forall|i: int| 0 <= i < full.len() implies allowed(#[trigger] full[i]) by {
        assert(full.contains(full[i]));
    }
    assert forall|k: OpenKeys|
        #![trigger effects_in_order(opening, k)]
        agree_outside(associations_open(locator), k, association_keys()) implies grounded_in_order(
        opening,
        k,
    ) && forall|i: int|
        0 <= i < effects_in_order(opening, k).len() ==> allowed(
            #[trigger] effects_in_order(opening, k)[i],
        ) by {
        lemma_ready(locator, k);
        assert(effects_in_order(opening, k) =~= full.take(3));
    }
    lemma_straight_keeps(opening, associations_open(locator), association_keys(), allowed);
    assert forall|k: OpenKeys|
        #![trigger effects_in_order(command, k)]
        agree_outside(opened, k, fresh) implies grounded_in_order(command, k) && forall|i: int|
        0 <= i < effects_in_order(command, k).len() ==> allowed(
            #[trigger] effects_in_order(command, k)[i],
        ) by {
        assert(opened.contains_key(Key::Program));
        assert(effects_in_order(command, k) =~= full.skip(3));
    }
    lemma_straight_keeps(command, opened, fresh, allowed);
    lemma_keeps_absorbed(plan_of(command), opened, fresh, allowed);
    lemma_absorb_shape(command, association_keys());
    lemma_append_shape(opening, absorb(command), association_keys());
    lemma_keeps_after_opening(
        opening,
        absorb(command),
        associations_open(locator),
        association_keys(),
        opened,
        fresh,
        allowed,
    );
}

/// Creating the class of an extension, and referring to a program ID in it, keeps
/// to what it is about.
proof fn lemma_extension_keeps(
    locator: LocatorView,
    extension: Seq<char>,
    id: Seq<char>,
    allowed: spec_fn(Effect) -> bool,
)
    requires
        forall|e: Effect| #[trigger]
            extension_effects(file_associations_path(locator), extension, id, true).contains(e)
                ==> allowed(e),
    ensures
        ({
            let steps = extension_steps(
                Key::SoftwareClasses,
                Key::FileAssociations,
                extension,
                id,
            );
            &&& contained(steps)
            &&& opens_only(steps, association_keys())
            &&& keeps_to(
                plan_of(steps),
                associations_open(locator),
                association_keys(),
                allowed,
            )
        }),
{
    let full = extension_effects(file_associations_path(locator), extension, id, true);
    let steps = extension_steps(Key::SoftwareClasses, Key::FileAssociations, extension, id);
    assert forall|i: int| 0 <= i < full.len() implies allowed(#[trigger] full[i]) by {
        assert(full.contains(full[i]));
    }
    let opened = associations_open(locator).insert(Key::Extension, class_path(extension));
    let fresh = association_keys().remove(Key::Extension);
    let opening = steps.take(1);
    let clearing = steps.subrange(2, 3);
    let referring = steps.subrange(3, 5);
    let last = steps.skip(5);
    let unread = referring + last;
    let read = clearing + unread;
    reveal_with_fuel(effects_in_order, 3);
    reveal_with_fuel(grounded_in_order, 3);
    reveal_with_fuel(keys_in_order, 3);
    assert forall|k: OpenKeys|
        #![trigger effects_in_order(opening, k)]
        agree_outside(associations_open(locator), k, association_keys()) implies grounded_in_order(
        opening,
        k,
    ) && forall|i: int|
        0 <= i < effects_in_order(opening, k).len() ==> allowed(
            #[trigger] effects_in_order(opening, k)[i],
        ) by {
        lemma_ready(locator, k);
        assert(effects_in_order(opening, k) =~= full.take(1));
    }
    lemma_straight_keeps(opening, associations_open(locator), association_keys(), allowed);
    assert(opened.contains_key(Key::Extension) && opened.contains_key(Key::FileAssociations));
    assert forall|k: OpenKeys|
        #![trigger effects_in_order(clearing, k)]
        agree_outside(opened, k, fresh) implies grounded_in_order(clearing, k) && forall|i: int|
        0 <= i < effects_in_order(clearing, k).len() ==> allowed(
            #[trigger] effects_in_order(clearing, k)[i],
        ) by {
        assert(effects_in_order(clearing, k) =~= full.subrange(2, 3));
    }
    lemma_straight_keeps(clearing, opened, fresh, allowed);
    assert forall|k: OpenKeys|
        #![trigger effects_in_order(referring, k)]
        agree_outside(opened, k, fresh) implies grounded_in_order(referring, k) && forall|i: int|
        0 <= i < effects_in_order(referring, k).len() ==> allowed(
            #[trigger] effects_in_order(referring, k)[i],
        ) by {
        assert(effects_in_order(referring, k) =~= full.subrange(3, 5));
    }
    lemma_straight_keeps(referring, opened, fresh, allowed);
    assert(keeps_to(plan_of(last), opened, fresh, allowed)) by {
        assert forall|k: OpenKeys, replies: Seq<ReplyView>|
            #![trigger run(plan_of(last), k, replies)]
            agree_outside(opened, k, fresh) implies kept(
            run(plan_of(last), k, replies),
            allowed,
        ) by {
            reveal_with_fuel(run, 2);
            assert(allowed(full[5]));
        }
    }
    lemma_keeps_then(plan_of(referring), plan_of(last), opened, fresh, allowed);
    assert(plan_of(referring).then_plan(plan_of(last)) =~= plan_of(unread));
    lemma_keeps_then(plan_of(clearing), plan_of(unread), opened, fresh, allowed);
    assert(plan_of(clearing).then_plan(plan_of(unread)) =~= plan_of(read));
    let reading = steps.skip(1);
    assert(keeps_to(plan_of(reading), opened, fresh, allowed)) by {
        assert forall|k: OpenKeys, replies: Seq<ReplyView>|
            #![trigger run(plan_of(reading), k, replies)]
            agree_outside(opened, k, fresh) implies kept(
            run(plan_of(reading), k, replies),
            allowed,
        ) by {
            assert(allowed(full[1]));
            assert(below(class_path(extension), Seq::<char>::empty()) =~= class_path(extension));
            if replies.len() > 0 {
                let next = plan_of(reading).advance(replies[0]);
                let rest = replies.drop_first();
                if replies[0] is Failed {
                    assert(next.ended());
                    assert(run(next, k, rest).effects.len() == 0);
                } else if replies[0] == Reply::Text(id) {
                    assert(next =~= plan_of(read));
                } else {
                    assert(next =~= plan_of(unread));
                }
                assert(kept(run(next, k, rest), allowed));
            }
        }
    }
    assert(steps =~= opening + reading);
    lemma_keeps_after_opening(
        opening,
        reading,
        associations_open(locator),
        association_keys(),
        opened,
        fresh,
        allowed,
    );
}

/// Associating an extension keeps to what it is about.
proof fn lemma_association_keeps(
    locator: LocatorView,
    extension: Seq<char>,
    allowed: spec_fn(Effect) -> bool,
)
    requires
        forall|e: Effect| #[trigger]
            association_effects(locator, extension, true).contains(e) ==> allowed(e),
    ensures
        contained(association_steps(locator, extension)),
        opens_only(association_steps(locator, extension), association_keys()),
        keeps_to(
            plan_of(association_steps(locator, extension)),
            associations_open(locator),
            association_keys(),
            allowed,
        ),
{
    let id = program_id(locator.program_id_prefix(), extension);
    let full = association_effects(locator, extension, true);
    let first = program_effects(id, locator.icon_url, locator.main_exe_path);
    let second = extension_effects(file_associations_path(locator), extension, id, true);
    assert forall|e: Effect| #[trigger] first.contains(e) implies allowed(e) by {
        let i = choose|i: int| 0 <= i < first.len() && first[i] == e;
        assert(full[i] == e);
        assert(full.contains(e));
    }
    assert forall|e: Effect| #[trigger] second.contains(e) implies allowed(e) by {
        let i = choose|i: int| 0 <= i < second.len() && second[i] == e;
        assert(full[first.len() + i] == e);
        assert(full.contains(e));
    }
    lemma_program_keeps(locator, extension, allowed);
    lemma_extension_keeps(locator, extension, id, allowed);
    let a = program_steps(
        Key::SoftwareClasses,
        extension,
        id,
        locator.icon_url,
        locator.main_exe_path,
    );
    let b = extension_steps(Key::SoftwareClasses, Key::FileAssociations, extension, id);
    lemma_append_shape(a, b, association_keys());
    lemma_keeps_then(
        plan_of(a),
        plan_of(b),
        associations_open(locator),
        association_keys(),
        allowed,
    );
    assert(plan_of(a).then_plan(plan_of(b)) =~= plan_of(association_steps(locator, extension)));
}

/// Associating an extension touches the class of its program ID, the class of the
/// extension and the file associations of the application, in the ways that belong
/// to the association, and does nothing else.
pub proof fn law_add_file_association(
    locator: LocatorView,
    extension: Seq<char>,
    keys: OpenKeys,
    replies: Seq<ReplyView>,
)
    requires
        agree_outside(associations_open(locator), keys, association_keys()),
    ensures
        ({
            let a = run(plan_of(association_steps(locator, extension)), keys, replies);
            &&& a.grounded
            &&& forall|i: int|
                0 <= i < a.effects.len() ==> association_effects(locator, extension, true).contains(
                    #[trigger] a.effects[i],
                )
        }),
{
    let allowed = |e: Effect| association_effects(locator, extension, true).contains(e);
    lemma_association_keeps(locator, extension, allowed);
    let a = run(plan_of(association_steps(locator, extension)), keys, replies);
    assert(kept(a, allowed));
    assert forall|i: int| 0 <= i < a.effects.len() implies association_effects(
        locator,
        extension,
        true,
    ).contains(#[trigger] a.effects[i]) by {
        assert(allowed(a.effects[i]));
    }
}

proof fn lemma_default_program_id_cleared(
    extension: Seq<char>,
    id: Seq<char>,
    keys: OpenKeys,
    replies: Seq<ReplyView>,
)
    ensures
        run(
            plan_of(
                extension_steps(Key::SoftwareClasses, Key::FileAssociations, extension, id),
            ),
            keys,
            replies,
        ).requests.contains(set_text(Key::Extension, Seq::empty(), Seq::empty())) <==> (
        replies.len() >= 2 && !(replies[0] is Failed) && replies[1] == Reply::Text(id)),
{
    let steps = extension_steps(Key::SoftwareClasses, Key::FileAssociations, extension, id);
    let plan = plan_of(steps);
    let clearing = set_text(Key::Extension, Seq::empty(), Seq::empty());
    let a = run(plan, keys, replies);
    let one = plan.advance(replies[0]);
    let keys1 = keys_after(steps[0].request, replies[0], keys);
    let b = run(one, keys1, replies.drop_first());
    assert(replies.len() > 0 ==> a.requests =~= seq![steps[0].request] + b.requests);
    if replies.len() == 0 {
        assert(a.requests =~= seq![steps[0].request]);
    } else if replies[0] is Failed {
        assert(one.ended());
        assert(b.requests.len() == 0);
    } else if replies.len() == 1 {
        assert(one.steps =~= steps.skip(1));
        assert(a.requests =~= seq![steps[0].request, steps[1].request]);
    } else {
        assert(one.steps =~= steps.skip(1));
        assert(replies.drop_first()[0] == replies[1]);
        let two = one.advance(replies[1]);
        let keys2 = keys_after(steps[1].request, replies[1], keys1);
        let c = run(two, keys2, replies.drop_first().drop_first());
        assert(b.requests =~= seq![steps[1].request] + c.requests);
        if replies[1] is Failed {
            assert(two.ended());
            assert(c.requests.len() == 0);
        } else if replies[1] == Reply::Text(id) {
            assert(two.steps =~= steps.skip(2));
            assert(c.requests[0] == clearing);
            assert(a.requests[2] == clearing);
        } else {
            assert(two.steps =~= steps.skip(3));
            lemma_requests_are_of_steps(two, keys2, replies.drop_first().drop_first());
            if a.requests.contains(clearing) {
                let i = choose|i: int| 0 <= i < a.requests.len() && a.requests[i] == clearing;
                assert(c.requests[i - 2] == clearing);
                let j = choose|j: int| 0 <= j < two.steps.len() && (
                #[trigger] two.steps[j]).request == c.requests[i - 2];
                assert(two.steps[j] == steps[j + 3]);
            }
        }
    }
}

/// The number of replies to creating the class of a program ID, where that goes
/// through: without the open command, writing it is not asked for.
pub open spec fn replies_to_program(replies: Seq<ReplyView>) -> int {
    if replies[3] is Failed {
        4
    } else {
        5
    }
}

/// Creating the class of a program ID goes through exactly if the class and its icon
/// can be created, whatever becomes of the open command.
proof fn lemma_program_goes_through(
    extension: Seq<char>,
    id: Seq<char>,
    icon_url: Seq<char>,
    app_path: Seq<char>,
    keys: OpenKeys,
    replies: Seq<ReplyView>,
)
    ensures
        ({
            let steps = program_steps(Key::SoftwareClasses, extension, id, icon_url, app_path);
            let a = run(plan_of(steps), keys, replies);
            let n = replies_to_program(replies);
            &&& contained(steps)
            &&& (a.ended() && a.rest.outcome is Ok) <==> (replies.len() >= n && !(
            replies[0] is Failed) && !(replies[1] is Failed) && !(replies[2] is Failed))
            &&& a.ended() && a.rest.outcome is Ok ==> a.used == n
        }),
{
    let steps = program_steps(Key::SoftwareClasses, extension, id, icon_url, app_path);
    let command = absorb(shell_open_command_steps(Key::Program, app_path));
    let opening = steps.take(3);
    assert(steps =~= opening + command);
    assert(plan_of(steps) =~= plan_of(opening).then_plan(plan_of(command)));
    law_then(plan_of(opening), plan_of(command), keys, replies);
    law_straight(plan_of(opening), keys, replies);
    law_bounded(plan_of(opening), keys, replies);
    reveal_with_fuel(successes, 4);
    lemma_successes(replies);
    let a = run(plan_of(opening), keys, replies);
    if a.ended() && a.rest.outcome is Ok {
        assert(successes(replies) >= 3);
        assert(a.used == 3);
        let rest = replies.skip(3);
        reveal_with_fuel(run, 3);
        let b = run(plan_of(command), a.keys, rest);
        if rest.len() > 0 {
            assert(rest[0] == replies[3]);
            let next = plan_of(command).advance(rest[0]);
            if rest[0] is Failed {
                assert(next.steps =~= Seq::empty());
            } else {
                assert(next.steps =~= command.skip(1));
                if rest.len() > 1 {
                    assert(next.advance(rest.drop_first()[0]).steps =~= Seq::empty());
                }
            }
        }
    } else {
        assert(successes(replies) < 3);
    }
}

/// The default value of an extension is cleared exactly if the class of the program
/// ID with its icon and the class of the extension could be created, and the default
/// value was read and is the program ID as a string; whether the open command could
/// be created does not matter.
pub proof fn law_default_program_id_cleared(
    locator: LocatorView,
    extension: Seq<char>,
    keys: OpenKeys,
    replies: Seq<ReplyView>,
)
    ensures
        ({
            let id = program_id(locator.program_id_prefix(), extension);
            let a = run(plan_of(association_steps(locator, extension)), keys, replies);
            let n = replies_to_program(replies);
            a.requests.contains(set_text(Key::Extension, Seq::empty(), Seq::empty())) <==> {
                &&& replies.len() >= n + 2
                &&& !(replies[0] is Failed)
                &&& !(replies[1] is Failed)
                &&& !(replies[2] is Failed)
                &&& !(replies[n] is Failed)
                &&& replies[n + 1] == Reply::Text(id)
            }
        }),
{
    let id = program_id(locator.program_id_prefix(), extension);
    let clearing = set_text(Key::Extension, Seq::empty(), Seq::empty());
    let first = program_steps(
        Key::SoftwareClasses,
        extension,
        id,
        locator.icon_url,
        locator.main_exe_path,
    );
    let second = extension_steps(Key::SoftwareClasses, Key::FileAssociations, extension, id);
    let plan = plan_of(association_steps(locator, extension));
    assert(plan =~= plan_of(first).then_plan(plan_of(second)));
    lemma_program_goes_through(
        extension,
        id,
        locator.icon_url,
        locator.main_exe_path,
        keys,
        replies,
    );
    law_then(plan_of(first), plan_of(second), keys, replies);
    lemma_requests_are_of_steps(plan_of(first), keys, replies);
    let a = run(plan, keys, replies);
    let b = run(plan_of(first), keys, replies);
    assert(!b.requests.contains(clearing)) by {
        if b.requests.contains(clearing) {
            let i = choose|i: int| 0 <= i < b.requests.len() && b.requests[i] == clearing;
            let j = choose|j: int|
                0 <= j < first.len() && (#[trigger] first[j]).request == b.requests[i];
            assert(first[j].request == clearing);
        }
    }
    if b.ended() && b.rest.outcome is Ok {
        let n = replies_to_program(replies);
        let rest = replies.skip(n);
        lemma_default_program_id_cleared(extension, id, b.keys, rest);
        let c = run(plan_of(second), b.keys, rest);
        assert(a.requests =~= b.requests + c.requests);
        if c.requests.contains(clearing) {
            let i = choose|i: int| 0 <= i < c.requests.len() && c.requests[i] == clearing;
            assert(a.requests[b.requests.len() + i] == clearing);
        }
        if a.requests.contains(clearing) {
            let i = choose|i: int| 0 <= i < a.requests.len() && a.requests[i] == clearing;
            if i < b.requests.len() {
                assert(b.requests[i] == clearing);
            }
            assert(c.requests[i - b.requests.len()] == clearing);
        }
    } else {
        assert(a.requests == b.requests);
    }
}

/// Where every request succeeds, an extension is associated with all that belongs
/// to it, and its default value is cleared if that was the program ID.
pub proof fn law_add_file_association_in_full(
    locator: LocatorView,
    extension: Seq<char>,
    keys: OpenKeys,
    replies: Seq<ReplyView>,
)
    requires
        agree_outside(associations_open(locator), keys, association_keys()),
        replies.len() >= association_steps(locator, extension).len(),
        forall|i: int| 0 <= i < replies.len() ==> !((#[trigger] replies[i]) is Failed),
    ensures
        ({
            let id = program_id(locator.program_id_prefix(), extension);
            let a = run(plan_of(association_steps(locator, extension)), keys, replies);
            &&& a.ended()
            &&& a.rest.outcome is Ok
            &&& a.effects == association_effects(
                locator,
                extension,
                replies[6] == Reply::Text(id),
            )
        }),
{
    let id = program_id(locator.program_id_prefix(), extension);
    let first = program_steps(
        Key::SoftwareClasses,
        extension,
        id,
        locator.icon_url,
        locator.main_exe_path,
    );
    let second = extension_steps(Key::SoftwareClasses, Key::FileAssociations, extension, id);
    let plan = plan_of(association_steps(locator, extension));
    assert(plan =~= plan_of(first).then_plan(plan_of(second)));
    lemma_ready(locator, keys);
    lemma_program_keeps(locator, extension, |e: Effect| true);
    law_then(plan_of(first), plan_of(second), keys, replies);
    law_all_succeed(plan_of(first), keys, replies);
    let a = run(plan_of(first), keys, replies);
    law_bounded(plan_of(first), keys, replies);
    reveal_with_fuel(effects_in_order, 6);
    assert(first.len() == 5);
    let full = program_effects(id, locator.icon_url, locator.main_exe_path);
    assert(effects_in_order(first, keys) =~= full);
    lemma_run_keys(plan_of(first), keys, replies, association_keys());
    assert(a.used == 5);
    let rest = replies.skip(5);
    assert(agree_outside(associations_open(locator), a.keys, association_keys()));
    lemma_ready(locator, a.keys);
    assert forall|i: int| 0 <= i < rest.len() implies !((#[trigger] rest[i]) is Failed) by {
        assert(rest[i] == replies[i + 5]);
    }
    assert(rest[1] == replies[6]);
    lemma_extension_in_full(locator, extension, id, a.keys, rest);
}

proof fn lemma_extension_in_full(
    locator: LocatorView,
    extension: Seq<char>,
    id: Seq<char>,
    keys: OpenKeys,
    replies: Seq<ReplyView>,
)
    requires
        ready(locator, keys),
        replies.len() >= 6,
        forall|i: int| 0 <= i < replies.len() ==> !((#[trigger] replies[i]) is Failed),
    ensures
        ({
            let a = run(
                plan_of(
                    extension_steps(Key::SoftwareClasses, Key::FileAssociations, extension, id),
                ),
                keys,
                replies,
            );
            &&& a.ended()
            &&& a.rest.outcome is Ok
            &&& a.effects == extension_effects(
                file_associations_path(locator),
                extension,
                id,
                replies[1] == Reply::Text(id),
            )
        }),
{
    let steps = extension_steps(Key::SoftwareClasses, Key::FileAssociations, extension, id);
    let plan = plan_of(steps);
    let cleared = replies[1] == Reply::Text(id);
    let full = extension_effects(file_associations_path(locator), extension, id, cleared);
    let class = class_path(extension);
    assert(below(class, Seq::<char>::empty()) =~= class);
    let one = plan.advance(replies[0]);
    let keys1 = keys_after(steps[0].request, replies[0], keys);
    assert(!(replies[0] is Failed) && !(replies[1] is Failed));
    assert(one.steps =~= steps.skip(1));
    let rest1 = replies.drop_first();
    assert(rest1[0] == replies[1]);
    let two = one.advance(rest1[0]);
    let rest2 = rest1.drop_first();
    assert forall|i: int| 0 <= i < rest2.len() implies !((#[trigger] rest2[i]) is Failed) by {
        assert(rest2[i] == replies[i + 2]);
    }
    let tail = if cleared {
        steps.skip(2)
    } else {
        steps.skip(3)
    };
    assert(two.steps =~= tail);
    law_all_succeed(two, keys1, rest2);
    reveal_with_fuel(effects_in_order, 5);
    let a = run(plan, keys, replies);
    let b = run(one, keys1, rest1);
    let c = run(two, keys1, rest2);
    assert(a.effects =~= seq![full[0]] + b.effects);
    assert(b.effects =~= seq![full[1]] + c.effects);
    assert(c.effects =~= full.skip(2));
    assert(a.effects =~= full);
}

/// Additions are quiet, lead nowhere else and open only their own keys.
proof fn lemma_add_each_shape(locator: LocatorView, extensions: Seq<Seq<char>>)
    ensures
        ({
            let steps = add_each_association(locator, Key::SoftwareClasses, extensions);
            &&& quiet(steps)
            &&& contained(steps)
            &&& opens_only(steps, association_keys())
        }),
    decreases extensions.len(),
{
    if extensions.len() > 0 {
        let first = add_each_association(
            locator,
            Key::SoftwareClasses,
            extensions.drop_last(),
        );
        let last = association_steps(locator, extensions.last());
        lemma_add_each_shape(locator, extensions.drop_last());
        lemma_association_keeps(locator, extensions.last(), |e: Effect| true);
        lemma_absorb_shape(last, association_keys());
        lemma_append_shape(first, absorb(last), association_keys());
    }
}

/// Additions keep to what associating each of the extensions is about.
proof fn lemma_add_each_keeps(
    locator: LocatorView,
    extensions: Seq<Seq<char>>,
    allowed: spec_fn(Effect) -> bool,
)
    requires
        forall|extension: Seq<char>, e: Effect|
            extensions.contains(extension) && #[trigger] association_effects(
                locator,
                extension,
                true,
            ).contains(e) ==> allowed(e),
    ensures
        keeps_to(
            plan_of(add_each_association(locator, Key::SoftwareClasses, extensions)),
            associations_open(locator),
            association_keys(),
            allowed,
        ),
    decreases extensions.len(),
{
    if extensions.len() > 0 {
        let whole = plan_of(add_each_association(locator, Key::SoftwareClasses, extensions));
        let first = plan_of(
            add_each_association(locator, Key::SoftwareClasses, extensions.drop_last()),
        );
        let last = plan_of(association_steps(locator, extensions.last()));
        assert forall|extension: Seq<char>, e: Effect|
            extensions.drop_last().contains(extension) && #[trigger] association_effects(
                locator,
                extension,
                true,
            ).contains(e) implies allowed(e) by {
            let i = choose|i: int|
                0 <= i < extensions.drop_last().len() && extensions.drop_last()[i] == extension;
            assert(extensions[i] == extension);
        }
        lemma_add_each_keeps(locator, extensions.drop_last(), allowed);
        assert(extensions[extensions.len() - 1] == extensions.last());
        lemma_association_keeps(locator, extensions.last(), allowed);
        lemma_keeps_absorbed(last, associations_open(locator), association_keys(), allowed);
        lemma_add_each_shape(locator, extensions.drop_last());
        lemma_keeps_then(
            first,
            last.absorbed(),
            associations_open(locator),
            association_keys(),
            allowed,
        );
        assert(first.then_plan(last.absorbed()) =~= whole);
    }
}

/// Removals are straight and open no key.
proof fn lemma_remove_each_shape(locator: LocatorView, extensions: Seq<Seq<char>>)
    ensures
        ({
            let steps = remove_each_association(locator, Key::SoftwareClasses, extensions);
            &&& straight(steps)
            &&& contained(steps)
            &&& opens_only(steps, association_keys())
        }),
    decreases extensions.len(),
{
    if extensions.len() > 0 {
        let first = remove_each_association(
            locator,
            Key::SoftwareClasses,
            extensions.drop_last(),
        );
        let last = remove_association(
            Key::SoftwareClasses,
            Key::FileAssociations,
            extensions.last(),
            locator.program_id_prefix(),
        );
        lemma_remove_each_shape(locator, extensions.drop_last());
        lemma_append_shape(first, last, association_keys());
    }
}

/// Removals keep to what removing each of the extensions is about.
proof fn lemma_remove_each_keeps(
    locator: LocatorView,
    extensions: Seq<Seq<char>>,
    allowed: spec_fn(Effect) -> bool,
)
    requires
        forall|extension: Seq<char>, e: Effect|
            extensions.contains(extension) && #[trigger] association_removal_effects(
                locator,
                extension,
            ).contains(e) ==> allowed(e),
    ensures
        keeps_to(
            plan_of(remove_each_association(locator, Key::SoftwareClasses, extensions)),
            associations_open(locator),
            association_keys(),
            allowed,
        ),
    decreases extensions.len(),
{
    if extensions.len() > 0 {
        let whole = plan_of(remove_each_association(locator, Key::SoftwareClasses, extensions));
        let first = plan_of(
            remove_each_association(locator, Key::SoftwareClasses, extensions.drop_last()),
        );
        let extension = extensions.last();
        let last = remove_association(
            Key::SoftwareClasses,
            Key::FileAssociations,
            extension,
            locator.program_id_prefix(),
        );
        assert forall|other: Seq<char>, e: Effect|
            extensions.drop_last().contains(other) && #[trigger] association_removal_effects(
                locator,
                other,
            ).contains(e) implies allowed(e) by {
            let i = choose|i: int|
                0 <= i < extensions.drop_last().len() && extensions.drop_last()[i] == other;
            assert(extensions[i] == other);
        }
        lemma_remove_each_keeps(locator, extensions.drop_last(), allowed);
        let full = association_removal_effects(locator, extension);
        assert(extensions[extensions.len() - 1] == extension);
        assert forall|i: int| 0 <= i < full.len() implies allowed(#[trigger] full[i]) by {
            assert(full.contains(full[i]));
        }
        reveal_with_fuel(effects_in_order, 4);
        reveal_with_fuel(grounded_in_order, 4);
        assert forall|k: OpenKeys|
            #![trigger effects_in_order(last, k)]
            agree_outside(
                associations_open(locator),
                k,
                association_keys(),
            ) implies grounded_in_order(last, k) && forall|i: int|
            0 <= i < effects_in_order(last, k).len() ==> allowed(
                #[trigger] effects_in_order(last, k)[i],
            ) by {
            lemma_ready(locator, k);
            assert(effects_in_order(last, k) =~= full);
        }
        lemma_straight_keeps(last, associations_open(locator), association_keys(), allowed);
        lemma_remove_each_shape(locator, extensions.drop_last());
        lemma_keeps_then(
            first,
            plan_of(last),
            associations_open(locator),
            association_keys(),
            allowed,
        );
        assert(first.then_plan(plan_of(last)) =~= whole);
    }
}

/// Steps that keep to what is allowed when the file associations are open do so
/// after opening them.
proof fn lemma_open_then_keeps(
    locator: LocatorView,
    others: Seq<StepView>,
    allowed: spec_fn(Effect) -> bool,
)
    requires
        allowed(opening_effects(locator)[0]),
        allowed(opening_effects(locator)[1]),
        keeps_to(plan_of(others), associations_open(locator), association_keys(), allowed),
        contained(others),
        opens_only(others, association_keys()),
    ensures
        ({
            let steps = open_file_associations(locator) + others;
            &&& keeps_to(plan_of(steps), classes_open(), update_keys(), allowed)
            &&& contained(steps)
            &&& opens_only(steps, update_keys())
        }),
{
    let opening = open_file_associations(locator);
    reveal_with_fuel(effects_in_order, 3);
    reveal_with_fuel(grounded_in_order, 3);
    reveal_with_fuel(keys_in_order, 3);
    assert(classes_open().contains_key(Key::CurrentUser));
    assert forall|k: OpenKeys|
        #![trigger effects_in_order(opening, k)]
        agree_outside(classes_open(), k, update_keys()) implies grounded_in_order(opening, k)
        && forall|i: int|
        0 <= i < effects_in_order(opening, k).len() ==> allowed(
            #[trigger] effects_in_order(opening, k)[i],
        ) by {
        assert(k[Key::CurrentUser] == Seq::<char>::empty());
        assert(effects_in_order(opening, k) =~= opening_effects(locator));
    }
    lemma_straight_keeps(opening, classes_open(), update_keys(), allowed);
    assert forall|k: OpenKeys| agree_outside(classes_open(), k, update_keys()) implies agree_outside(
        associations_open(locator),
        #[trigger] keys_in_order(opening, k),
        association_keys(),
    ) by {
        assert(k[Key::CurrentUser] == Seq::<char>::empty());
    }
    lemma_keeps_after_opening(
        opening,
        others,
        classes_open(),
        update_keys(),
        associations_open(locator),
        association_keys(),
        allowed,
    );
    lemma_append_shape(opening, others, update_keys());
}

/// What an update of the file associations may be about: opening `Software\Classes`
/// and the file associations of the application, removing an extension that is to
/// be removed, associating one that is to be added.
pub open spec fn is_association_update(
    locator: LocatorView,
    removed: Seq<Seq<char>>,
    added: Seq<Seq<char>>,
    e: Effect,
) -> bool {
    ||| e == classes_effect()
    ||| opening_effects(locator).contains(e)
    ||| exists|extension: Seq<char>|
        removed.contains(extension) && #[trigger] association_removal_effects(
            locator,
            extension,
        ).contains(e)
    ||| exists|extension: Seq<char>|
        added.contains(extension) && #[trigger] association_effects(
            locator,
            extension,
            true,
        ).contains(e)
}

/// The steps of an update below `Software\Classes` keep to the update.
proof fn lemma_update_keeps(
    locator: LocatorView,
    removed: Seq<Seq<char>>,
    added: Seq<Seq<char>>,
    allowed: spec_fn(Effect) -> bool,
)
    requires
        forall|e: Effect| is_association_update(locator, removed, added, e) ==> #[trigger] allowed(
            e,
        ),
    ensures
        ({
            let removal = absorb(remove_associations(locator, Key::SoftwareClasses, removed));
            let addition = absorb(add_associations(locator, Key::SoftwareClasses, added));
            &&& quiet(removal)
            &&& quiet(removal + addition)
            &&& keeps_to(plan_of(removal), classes_open(), update_keys(), allowed)
            &&& keeps_to(plan_of(removal + addition), classes_open(), update_keys(), allowed)
        }),
{
    let removal = remove_associations(locator, Key::SoftwareClasses, removed);
    let addition = add_associations(locator, Key::SoftwareClasses, added);
    let opening = opening_effects(locator);
    assert(opening.contains(opening[0]) && opening.contains(opening[1]));
    assert(allowed(opening[0]) && allowed(opening[1]));
    assert forall|extension: Seq<char>, e: Effect|
        removed.contains(extension) && #[trigger] association_removal_effects(
            locator,
            extension,
        ).contains(e) implies allowed(e) by {
        assert(is_association_update(locator, removed, added, e));
    }
    assert forall|extension: Seq<char>, e: Effect|
        added.contains(extension) && #[trigger] association_effects(
            locator,
            extension,
            true,
        ).contains(e) implies allowed(e) by {
        assert(is_association_update(locator, removed, added, e));
    }
    if removed.len() > 0 {
        let each = remove_each_association(locator, Key::SoftwareClasses, removed);
        lemma_remove_each_keeps(locator, removed, allowed);
        lemma_remove_each_shape(locator, removed);
        lemma_open_then_keeps(locator, each, allowed);
    }
    if added.len() > 0 {
        let each = add_each_association(locator, Key::SoftwareClasses, added);
        lemma_add_each_keeps(locator, added, allowed);
        lemma_add_each_shape(locator, added);
        lemma_open_then_keeps(locator, each, allowed);
    }
    lemma_keeps_absorbed(plan_of(removal), classes_open(), update_keys(), allowed);
    lemma_keeps_absorbed(plan_of(addition), classes_open(), update_keys(), allowed);
    lemma_absorb_shape(removal, update_keys());
    lemma_absorb_shape(addition, update_keys());
    lemma_append_shape(absorb(removal), absorb(addition), update_keys());
    lemma_keeps_then(
        plan_of(removal).absorbed(),
        plan_of(addition).absorbed(),
        classes_open(),
        update_keys(),
        allowed,
    );
    assert(plan_of(removal).absorbed().then_plan(plan_of(addition).absorbed()) =~= plan_of(
        absorb(removal) + absorb(addition),
    ));
}

/// An update of the file associations removes only extensions that are no longer
/// opened, adds only new ones, and touches nothing else. It fails exactly if
/// `Software\Classes` cannot be opened.
pub proof fn law_update_file_associations(
    next_app: LocatorView,
    previous_app: Option<LocatorView>,
    replies: Seq<ReplyView>,
)
    ensures
        ({
            let prev = associations_of(previous_app);
            let next = next_app.file_associations;
            let a = run(update_associations_plan(next_app, previous_app), only_root(), replies);
            &&& a.grounded
            &&& forall|i: int|
                0 <= i < a.effects.len() ==> is_association_update(
                    next_app,
                    removable(prev, next),
                    addable(prev, next),
                    #[trigger] a.effects[i],
                )
            &&& replies.len() > 0 ==> match replies[0] {
                Reply::Failed(cause) => {
                    &&& a.requests.len() == 1
                    &&& a.ended()
                    &&& a.rest.outcome == Err::<(), FailureView>(
                        Failure::Registry {
                            context: Some(
                                "Failed to create/open software classes registry key"@,
                            ),
                            cause,
                        },
                    )
                },
                _ => a.rest.outcome is Ok,
            }
        }),
{
    let prev = associations_of(previous_app);
    let next = next_app.file_associations;
    let removed = removable(prev, next);
    let added = addable(prev, next);
    let first = open_software_classes("Failed to create/open software classes registry key"@);
    let others = absorb(remove_associations(next_app, Key::SoftwareClasses, removed)) + absorb(
        add_associations(next_app, Key::SoftwareClasses, added),
    );
    let plan = update_associations_plan(next_app, previous_app);
    let allowed = |e: Effect| is_association_update(next_app, removed, added, e);
    lemma_update_keeps(next_app, removed, added, allowed);
    assert(plan =~= plan_of(seq![first] + others));
    assert(keys_after(first.request, Reply::Done, only_root()) =~= classes_open());
    lemma_guarded_keeps(first, others, only_root(), update_keys(), allowed, replies);
    let a = run(plan, only_root(), replies);
    assert forall|i: int| 0 <= i < a.effects.len() implies is_association_update(
        next_app,
        removed,
        added,
        #[trigger] a.effects[i],
    ) by {
        assert(allowed(a.effects[i]));
    }
    if replies.len() > 0 {
        law_guarded(first, others, only_root(), replies);
    }
}

/// Where the file associations stay the same, nothing but `Software\Classes` is
/// opened.
pub proof fn law_same_file_associations(
    next_app: LocatorView,
    previous_app: Option<LocatorView>,
    replies: Seq<ReplyView>,
)
    requires
        associations_of(previous_app) == next_app.file_associations,
    ensures
        run(update_associations_plan(next_app, previous_app), only_root(), replies).effects == seq![
            classes_effect(),
        ],
{
    let list = next_app.file_associations;
    if list.len() > 0 {
        law_no_changes(list);
    }
    let plan = update_associations_plan(next_app, previous_app);
    assert(plan.steps.len() == 1);
    reveal_with_fuel(run, 2);
    assert(run(plan, only_root(), replies).effects =~= seq![classes_effect()]);
}

/// Removing all file associations touches only what removing each of them is about,
/// and the tree with the path of the capabilities below `Software\Classes`. It fails
/// exactly if `Software\Classes` cannot be opened.
pub proof fn law_remove_all_file_associations(locator: LocatorView, replies: Seq<ReplyView>)
    ensures
        ({
            let a = run(remove_all_associations_plan(locator), only_root(), replies);
            let capabilities = Effect::DeleteTree { path: class_path(locator.capability_path()) };
            &&& a.grounded
            &&& forall|i: int|
                0 <= i < a.effects.len() ==> #[trigger] a.effects[i] == capabilities
                    || is_association_update(
                    locator,
                    locator.file_associations,
                    Seq::empty(),
                    a.effects[i],
                )
            &&& replies.len() > 0 ==> match replies[0] {
                Reply::Failed(cause) => {
                    &&& a.requests.len() == 1
                    &&& a.ended()
                    &&& a.rest.outcome == Err::<(), FailureView>(
                        Failure::Registry {
                            context: Some("Failed to create/open registry key"@),
                            cause,
                        },
                    )
                },
                _ => a.rest.outcome is Ok,
            }
        }),
{
    let extensions = locator.file_associations;
    let capabilities = Effect::DeleteTree { path: class_path(locator.capability_path()) };
    let allowed = |e: Effect|
        e == capabilities || is_association_update(locator, extensions, Seq::empty(), e);
    lemma_update_keeps(locator, extensions, Seq::empty(), allowed);
    let first = open_software_classes("Failed to create/open registry key"@);
    let deletion = seq![
        may(
            Request::DeleteTree { key: Key::SoftwareClasses, sub_key: locator.capability_path() },
        ),
    ];
    let removal = absorb(remove_associations(locator, Key::SoftwareClasses, extensions));
    assert(keeps_to(plan_of(deletion), classes_open(), update_keys(), allowed)) by {
        assert forall|k: OpenKeys, others: Seq<ReplyView>|
            #![trigger run(plan_of(deletion), k, others)]
            agree_outside(classes_open(), k, update_keys()) implies kept(
            run(plan_of(deletion), k, others),
            allowed,
        ) by {
            reveal_with_fuel(run, 2);
            assert(classes_open().contains_key(Key::SoftwareClasses));
            assert(allowed(capabilities));
        }
    }
    lemma_keeps_then(
        plan_of(deletion),
        plan_of(removal),
        classes_open(),
        update_keys(),
        allowed,
    );
    lemma_append_shape(deletion, removal, update_keys());
    let others = deletion + removal;
    assert(plan_of(deletion).then_plan(plan_of(removal)) =~= plan_of(others));
    let plan = remove_all_associations_plan(locator);
    assert(plan =~= plan_of(seq![first] + others));
    assert(keys_after(first.request, Reply::Done, only_root()) =~= classes_open());
    lemma_guarded_keeps(first, others, only_root(), update_keys(), allowed, replies);
    let a = run(plan, only_root(), replies);
    assert forall|i: int| 0 <= i < a.effects.len() implies #[trigger] a.effects[i] == capabilities
        || is_association_update(locator, extensions, Seq::empty(), a.effects[i]) by {
        assert(allowed(a.effects[i]));
    }
    if replies.len() > 0 {
        law_guarded(first, others, only_root(), replies);
    }
}

/// What creating the class of the program ID of an extension is about.
pub open spec fn program_class_effect(locator: LocatorView, extension: Seq<char>) -> Effect {
    Effect::CreateKey {
        path: class_path(program_id(locator.program_id_prefix(), extension)),
        access: Access::AllAccess,
    }
}

/// However the additions go, each of the extensions is attempted.
proof fn lemma_add_each_attempts(
    locator: LocatorView,
    extensions: Seq<Seq<char>>,
    keys: OpenKeys,
    replies: Seq<ReplyView>,
)
    requires
        agree_outside(associations_open(locator), keys, association_keys()),
        run(
            plan_of(add_each_association(locator, Key::SoftwareClasses, extensions)),
            keys,
            replies,
        ).ended(),
    ensures
        ({
            let a = run(
                plan_of(add_each_association(locator, Key::SoftwareClasses, extensions)),
                keys,
                replies,
            );
            forall|extension: Seq<char>| #[trigger]
                extensions.contains(extension) ==> a.effects.contains(
                    program_class_effect(locator, extension),
                )
        }),
    decreases extensions.len(),
{
    let whole = plan_of(add_each_association(locator, Key::SoftwareClasses, extensions));
    let a = run(whole, keys, replies);
    if extensions.len() > 0 {
        let first = plan_of(
            add_each_association(locator, Key::SoftwareClasses, extensions.drop_last()),
        );
        let single = plan_of(association_steps(locator, extensions.last()));
        let last = single.absorbed();
        assert(whole =~= first.then_plan(last));
        lemma_add_each_shape(locator, extensions.drop_last());
        law_then(first, last, keys, replies);
        law_quiet(first, keys, replies);
        let b = run(first, keys, replies);
        lemma_run_keys(first, keys, replies, association_keys());
        assert(agree_outside(associations_open(locator), b.keys, association_keys()));
        lemma_add_each_attempts(locator, extensions.drop_last(), keys, replies);
        let rest = replies.skip(b.used as int);
        let c = run(last, b.keys, rest);
        law_absorb(single, b.keys, rest);
        lemma_ready(locator, b.keys);
        assert(single.steps[0].request == (Request::CreateKey {
            parent: Key::SoftwareClasses,
            sub_key: program_id(locator.program_id_prefix(), extensions.last()),
            access: Access::AllAccess,
            opened: Key::Program,
        }));
        assert(c.effects.len() > 0 && c.effects[0] == program_class_effect(
            locator,
            extensions.last(),
        ));
        assert(a.effects =~= b.effects + c.effects);
        assert forall|extension: Seq<char>| #[trigger]
            extensions.contains(extension) implies a.effects.contains(
            program_class_effect(locator, extension),
        ) by {
            let e = program_class_effect(locator, extension);
            let i = choose|i: int| 0 <= i < extensions.len() && extensions[i] == extension;
            if i < extensions.len() - 1 {
                assert(extensions.drop_last()[i] == extension);
                assert(extensions.drop_last().contains(extension));
                let j = choose|j: int| 0 <= j < b.effects.len() && b.effects[j] == e;
                assert(a.effects[j] == e);
            } else {
                assert(a.effects[b.effects.len() as int] == e);
            }
        }
    }
}

/// Once the file associations of the application are open, additions that come to
/// their end have attempted every extension, whatever became of the others.
pub proof fn law_additions_attempt_every_extension(
    locator: LocatorView,
    extensions: Seq<Seq<char>>,
    keys: OpenKeys,
    replies: Seq<ReplyView>,
)
    requires
        agree_outside(classes_open(), keys, update_keys()),
        replies.len() >= 2,
        !(replies[0] is Failed),
        !(replies[1] is Failed),
        run(
            plan_of(add_associations(locator, Key::SoftwareClasses, extensions)),
            keys,
            replies,
        ).ended(),
    ensures
        ({
            let a = run(
                plan_of(add_associations(locator, Key::SoftwareClasses, extensions)),
                keys,
                replies,
            );
            forall|extension: Seq<char>| #[trigger]
                extensions.contains(extension) ==> a.effects.contains(
                    program_class_effect(locator, extension),
                )
        }),
{
    let plan = plan_of(add_associations(locator, Key::SoftwareClasses, extensions));
    let a = run(plan, keys, replies);
    if extensions.len() > 0 {
        let each = plan_of(add_each_association(locator, Key::SoftwareClasses, extensions));
        let one = plan.advance(replies[0]);
        let request0 = plan.steps[0].request;
        let keys1 = keys_after(request0, replies[0], keys);
        let rest1 = replies.drop_first();
        let two = one.advance(rest1[0]);
        assert(one.steps =~= plan.steps.skip(1));
        let keys2 = keys_after(one.steps[0].request, rest1[0], keys1);
        let rest2 = rest1.drop_first();
        assert(two =~= each);
        assert(classes_open().contains_key(Key::CurrentUser));
        assert(keys[Key::CurrentUser] == Seq::<char>::empty());
        assert(agree_outside(associations_open(locator), keys2, association_keys()));
        lemma_add_each_attempts(locator, extensions, keys2, rest2);
        let b = run(one, keys1, rest1);
        let c = run(two, keys2, rest2);
        assert(b.effects =~= seq![effect_of(one.steps[0].request, keys1)] + c.effects);
        assert(a.effects =~= seq![effect_of(request0, keys)] + b.effects);
        assert forall|extension: Seq<char>| #[trigger]
            extensions.contains(extension) implies a.effects.contains(
            program_class_effect(locator, extension),
        ) by {
            let e = program_class_effect(locator, extension);
            let j = choose|j: int| 0 <= j < c.effects.len() && c.effects[j] == e;
            assert(a.effects[j + 2] == e);
        }
    }
}

/// Removing an extension deletes all that associating it creates below
/// `Software\Classes`: every key that is created, read or written there for the
/// association is in one of the two trees that the removal deletes.
pub proof fn law_removal_covers_addition(
    locator: LocatorView,
    extension: Seq<char>,
    cleared: bool,
    i: int,
)
    requires
        0 <= i < association_effects(locator, extension, cleared).len() - 1,
    ensures
        ({
            let removal = association_removal_effects(locator, extension);
            let path = touched(association_effects(locator, extension, cleared)[i]);
            within(touched(removal[0]), path) || within(touched(removal[1]), path)
        }),
{
}

/// What removing extensions is about, once the file associations are open.
pub open spec fn removals_effects(
    locator: LocatorView,
    extensions: Seq<Seq<char>>,
) -> Seq<Effect>
    decreases extensions.len(),
{
    if extensions.len() == 0 {
        Seq::empty()
    } else {
        removals_effects(locator, extensions.drop_last()) + association_removal_effects(
            locator,
            extensions.last(),
        )
    }
}

/// How many replies the association of extensions takes, where every request
/// succeeds and these default values are cleared.
pub open spec fn replies_taken(cleared: Seq<bool>) -> nat
    decreases cleared.len(),
{
    if cleared.len() == 0 {
        0
    } else {
        replies_taken(cleared.drop_last()) + if cleared.last() {
            11nat
        } else {
            10nat
        }
    }
}

/// For each of these extensions, whether its default value is cleared: whether the
/// reply to reading it is its program ID as a string.
pub open spec fn clearings(
    locator: LocatorView,
    extensions: Seq<Seq<char>>,
    replies: Seq<ReplyView>,
) -> Seq<bool>
    decreases extensions.len(),
{
    if extensions.len() == 0 {
        Seq::empty()
    } else {
        let before = clearings(locator, extensions.drop_last(), replies);
        let id = program_id(locator.program_id_prefix(), extensions.last());
        before.push(replies[replies_taken(before) as int + 6] == Reply::Text(id))
    }
}

/// What associating extensions is about, once the file associations are open, where
/// these default values are cleared.
pub open spec fn additions_effects(
    locator: LocatorView,
    extensions: Seq<Seq<char>>,
    cleared: Seq<bool>,
) -> Seq<Effect>
    decreases extensions.len(),
{
    if extensions.len() == 0 {
        Seq::empty()
    } else {
        additions_effects(locator, extensions.drop_last(), cleared.drop_last())
            + association_effects(locator, extensions.last(), cleared.last())
    }
}

proof fn lemma_remove_each_in_order(
    locator: LocatorView,
    extensions: Seq<Seq<char>>,
    keys: OpenKeys,
)
    requires
        ready(locator, keys),
    ensures
        ({
            let steps = remove_each_association(locator, Key::SoftwareClasses, extensions);
            &&& grounded_in_order(steps, keys)
            &&& effects_in_order(steps, keys) == removals_effects(locator, extensions)
            &&& keys_in_order(steps, keys) == keys
            &&& unconditional(steps)
        }),
    decreases extensions.len(),
{
    if extensions.len() > 0 {
        let first = remove_each_association(
            locator,
            Key::SoftwareClasses,
            extensions.drop_last(),
        );
        let last = remove_association(
            Key::SoftwareClasses,
            Key::FileAssociations,
            extensions.last(),
            locator.program_id_prefix(),
        );
        lemma_remove_each_in_order(locator, extensions.drop_last(), keys);
        lemma_append_unconditional(first, last);
        reveal_with_fuel(effects_in_order, 4);
        reveal_with_fuel(grounded_in_order, 4);
        reveal_with_fuel(keys_in_order, 4);
        assert(effects_in_order(last, keys) =~= association_removal_effects(
            locator,
            extensions.last(),
        ));
        lemma_effects_append(first, last, keys);
        lemma_grounded_append(first, last, keys);
    }
}

proof fn lemma_opening_in_order(locator: LocatorView, keys: OpenKeys)
    requires
        agree_outside(classes_open(), keys, update_keys()),
    ensures
        ({
            let steps = open_file_associations(locator);
            let after = keys_in_order(steps, keys);
            &&& straight(steps)
            &&& contained(steps)
            &&& unconditional(steps)
            &&& grounded_in_order(steps, keys)
            &&& effects_in_order(steps, keys) == opening_effects(locator)
            &&& agree_outside(associations_open(locator), after, association_keys())
            &&& ready(locator, after)
        }),
{
    let steps = open_file_associations(locator);
    reveal_with_fuel(effects_in_order, 3);
    reveal_with_fuel(grounded_in_order, 3);
    reveal_with_fuel(keys_in_order, 3);
    assert(classes_open().contains_key(Key::CurrentUser));
    assert(keys.contains_key(Key::CurrentUser) && keys[Key::CurrentUser] == Seq::<char>::empty());
    assert(effects_in_order(steps, keys) =~= opening_effects(locator));
    let after = keys_in_order(steps, keys);
    assert(agree_outside(associations_open(locator), after, association_keys()));
    lemma_ready(locator, after);
}

/// Extensions are removed in order up to and including the first request that
/// fails; where none fails, all of them are removed.
pub proof fn law_remove_file_associations(
    locator: LocatorView,
    extensions: Seq<Seq<char>>,
    keys: OpenKeys,
    replies: Seq<ReplyView>,
)
    requires
        extensions.len() > 0,
        agree_outside(classes_open(), keys, update_keys()),
    ensures
        ({
            let steps = remove_associations(locator, Key::SoftwareClasses, extensions);
            let a = run(plan_of(steps), keys, replies);
            let full = opening_effects(locator) + removals_effects(locator, extensions);
            let n = successes(replies);
            &&& a.grounded
            &&& a.effects.is_prefix_of(full)
            &&& n >= steps.len() ==> a.effects == full && a.ended() && a.rest.outcome is Ok
            &&& n < steps.len() && n < replies.len() ==> a.effects.len() == n + 1 && a.rest
                == stopped_at(steps[n as int], replies[n as int]->Failed_0)
        }),
{
    let opening = open_file_associations(locator);
    let each = remove_each_association(locator, Key::SoftwareClasses, extensions);
    let plan = plan_of(remove_associations(locator, Key::SoftwareClasses, extensions));
    lemma_opening_in_order(locator, keys);
    lemma_remove_each_in_order(locator, extensions, keys_in_order(opening, keys));
    lemma_remove_each_shape(locator, extensions);
    lemma_append_shape(opening, each, update_keys());
    lemma_effects_append(opening, each, keys);
    lemma_grounded_append(opening, each, keys);
    law_straight_effects(plan, keys, replies);
    law_straight(plan, keys, replies);
    law_bounded(plan, keys, replies);
}

/// Each association has eleven steps.
proof fn lemma_add_each_len(locator: LocatorView, extensions: Seq<Seq<char>>)
    ensures
        add_each_association(locator, Key::SoftwareClasses, extensions).len() == 11
            * extensions.len(),
    decreases extensions.len(),
{
    if extensions.len() > 0 {
        lemma_add_each_len(locator, extensions.drop_last());
        assert(association_steps(locator, extensions.last()).len() == 11);
    }
}

proof fn lemma_additions_in_full(
    locator: LocatorView,
    extensions: Seq<Seq<char>>,
    keys: OpenKeys,
    replies: Seq<ReplyView>,
)
    requires
        agree_outside(associations_open(locator), keys, association_keys()),
        replies.len() >= 11 * extensions.len(),
        forall|i: int| 0 <= i < replies.len() ==> !((#[trigger] replies[i]) is Failed),
    ensures
        ({
            let a = run(
                plan_of(add_each_association(locator, Key::SoftwareClasses, extensions)),
                keys,
                replies,
            );
            let cleared = clearings(locator, extensions, replies);
            &&& a.ended()
            &&& a.rest.outcome is Ok
            &&& a.effects == additions_effects(locator, extensions, cleared)
            &&& a.used == replies_taken(cleared)
            &&& a.used <= 11 * extensions.len()
        }),
    decreases extensions.len(),
{
    let whole = plan_of(add_each_association(locator, Key::SoftwareClasses, extensions));
    let a = run(whole, keys, replies);
    let cleared = clearings(locator, extensions, replies);
    if extensions.len() == 0 {
        assert(a.effects =~= additions_effects(locator, extensions, cleared));
    } else {
        let extension = extensions.last();
        let id = program_id(locator.program_id_prefix(), extension);
        let first = plan_of(
            add_each_association(locator, Key::SoftwareClasses, extensions.drop_last()),
        );
        let single = plan_of(association_steps(locator, extension));
        let last = single.absorbed();
        assert(whole =~= first.then_plan(last));
        lemma_additions_in_full(locator, extensions.drop_last(), keys, replies);
        lemma_add_each_shape(locator, extensions.drop_last());
        law_then(first, last, keys, replies);
        let b = run(first, keys, replies);
        lemma_run_keys(first, keys, replies, association_keys());
        assert(agree_outside(associations_open(locator), b.keys, association_keys()));
        let rest = replies.skip(b.used as int);
        assert(single.steps.len() == 11);
        assert forall|i: int| 0 <= i < rest.len() implies !((#[trigger] rest[i]) is Failed) by {
            assert(rest[i] == replies[b.used + i]);
        }
        law_add_file_association_in_full(locator, extension, b.keys, rest);
        law_absorb(single, b.keys, rest);
        law_bounded(last, b.keys, rest);
        assert(rest[6] == replies[b.used as int + 6]);
        assert(cleared.drop_last() =~= clearings(locator, extensions.drop_last(), replies));
        assert(cleared.last() == (rest[6] == Reply::Text(id)));
        assert(association_effects(locator, extension, cleared.last()).len() == if cleared.last() {
            11nat
        } else {
            10nat
        });
    }
}

/// What changing the file associations is about, if there is anything to change:
/// opening them, then the changes.
pub open spec fn opened_effects(
    locator: LocatorView,
    extensions: Seq<Seq<char>>,
    effects: Seq<Effect>,
) -> Seq<Effect> {
    if extensions.len() == 0 {
        Seq::empty()
    } else {
        opening_effects(locator) + effects
    }
}

proof fn lemma_removal_in_full(
    locator: LocatorView,
    extensions: Seq<Seq<char>>,
    keys: OpenKeys,
    replies: Seq<ReplyView>,
)
    requires
        agree_outside(classes_open(), keys, update_keys()),
        replies.len() >= remove_associations(locator, Key::SoftwareClasses, extensions).len(),
        forall|i: int| 0 <= i < replies.len() ==> !((#[trigger] replies[i]) is Failed),
    ensures
        ({
            let a = run(
                plan_of(remove_associations(locator, Key::SoftwareClasses, extensions)),
                keys,
                replies,
            );
            let full = opened_effects(locator, extensions, removals_effects(locator, extensions));
            &&& a.ended()
            &&& a.rest.outcome is Ok
            &&& a.effects == full
            &&& a.used == full.len()
        }),
{
    let plan = plan_of(remove_associations(locator, Key::SoftwareClasses, extensions));
    if extensions.len() > 0 {
        let opening = open_file_associations(locator);
        let each = remove_each_association(locator, Key::SoftwareClasses, extensions);
        lemma_opening_in_order(locator, keys);
        lemma_remove_each_in_order(locator, extensions, keys_in_order(opening, keys));
        lemma_effects_append(opening, each, keys);
        lemma_append_unconditional(opening, each);
        law_all_succeed(plan, keys, replies);
    } else {
        assert(run(plan, keys, replies).effects =~= Seq::empty());
    }
    law_bounded(plan, keys, replies);
}

proof fn lemma_addition_in_full(
    locator: LocatorView,
    extensions: Seq<Seq<char>>,
    keys: OpenKeys,
    replies: Seq<ReplyView>,
)
    requires
        agree_outside(classes_open(), keys, update_keys()),
        replies.len() >= add_associations(locator, Key::SoftwareClasses, extensions).len(),
        forall|i: int| 0 <= i < replies.len() ==> !((#[trigger] replies[i]) is Failed),
    ensures
        ({
            let a = run(
                plan_of(add_associations(locator, Key::SoftwareClasses, extensions)),
                keys,
                replies,
            );
            let cleared = clearings(locator, extensions, replies.skip(2));
            &&& a.ended()
            &&& a.rest.outcome is Ok
            &&& a.effects == opened_effects(
                locator,
                extensions,
                additions_effects(locator, extensions, cleared),
            )
        }),
{
    let plan = plan_of(add_associations(locator, Key::SoftwareClasses, extensions));
    if extensions.len() > 0 {
        let opening = plan_of(open_file_associations(locator));
        let each = plan_of(add_each_association(locator, Key::SoftwareClasses, extensions));
        assert(plan =~= opening.then_plan(each));
        lemma_add_each_len(locator, extensions);
        lemma_opening_in_order(locator, keys);
        law_then(opening, each, keys, replies);
        law_all_succeed(opening, keys, replies);
        law_bounded(opening, keys, replies);
        lemma_straight_keys(opening, keys, replies);
        let a = run(opening, keys, replies);
        assert(a.used == 2);
        let rest = replies.skip(2);
        assert forall|i: int| 0 <= i < rest.len() implies !((#[trigger] rest[i]) is Failed) by {
            assert(rest[i] == replies[i + 2]);
        }
        lemma_additions_in_full(locator, extensions, a.keys, rest);
    } else {
        assert(run(plan, keys, replies).effects =~= Seq::empty());
    }
}

/// Where every request succeeds, an update removes what is to be removed and then
/// adds what is to be added, each extension with all that belongs to it. The default
/// value of an added extension is cleared exactly if it is its program ID.
pub proof fn law_update_file_associations_in_full(
    next_app: LocatorView,
    previous_app: Option<LocatorView>,
    replies: Seq<ReplyView>,
)
    requires
        replies.len() >= update_associations_plan(next_app, previous_app).steps.len(),
        forall|i: int| 0 <= i < replies.len() ==> !((#[trigger] replies[i]) is Failed),
    ensures
        ({
            let prev = associations_of(previous_app);
            let next = next_app.file_associations;
            let removed = removable(prev, next);
            let added = addable(prev, next);
            let removals = opened_effects(next_app, removed, removals_effects(next_app, removed));
            let cleared = clearings(next_app, added, replies.skip(removals.len() as int + 3));
            let a = run(update_associations_plan(next_app, previous_app), only_root(), replies);
            &&& a.ended()
            &&& a.rest.outcome is Ok
            &&& a.effects == seq![classes_effect()] + removals + opened_effects(
                next_app,
                added,
                additions_effects(next_app, added, cleared),
            )
        }),
{
    let prev = associations_of(previous_app);
    let next = next_app.file_associations;
    let removed = removable(prev, next);
    let added = addable(prev, next);
    let first = open_software_classes("Failed to create/open software classes registry key"@);
    let removal = plan_of(remove_associations(next_app, Key::SoftwareClasses, removed));
    let addition = plan_of(add_associations(next_app, Key::SoftwareClasses, added));
    let removals = opened_effects(next_app, removed, removals_effects(next_app, removed));
    let others = removal.absorbed().then_plan(addition.absorbed());
    let plan = update_associations_plan(next_app, previous_app);
    assert(plan =~= plan_of(seq![first] + others.steps));
    assert(!(replies[0] is Failed));
    assert(plan.advance(replies[0]) =~= others);
    let keys = keys_after(first.request, replies[0], only_root());
    assert(keys =~= classes_open());
    let rest = replies.drop_first();
    assert forall|i: int| 0 <= i < rest.len() implies !((#[trigger] rest[i]) is Failed) by {
        assert(rest[i] == replies[i + 1]);
    }
    lemma_removal_in_full(next_app, removed, keys, rest);
    lemma_removal_shape(next_app, removed);
    law_absorb(removal, keys, rest);
    law_bounded(removal, keys, rest);
    law_then(removal.absorbed(), addition.absorbed(), keys, rest);
    lemma_run_keys(removal.absorbed(), keys, rest, update_keys());
    let b = run(removal.absorbed(), keys, rest);
    let last = rest.skip(b.used as int);
    assert forall|i: int| 0 <= i < last.len() implies !((#[trigger] last[i]) is Failed) by {
        assert(last[i] == rest[b.used + i]);
    }
    lemma_addition_in_full(next_app, added, b.keys, last);
    law_absorb(addition, b.keys, last);
    if added.len() > 0 {
        assert(last.skip(2) =~= replies.skip(removals.len() as int + 3));
    }
    let c = run(addition.absorbed(), b.keys, last);
    let a = run(plan, only_root(), replies);
    assert(a.effects =~= seq![classes_effect()] + (b.effects + c.effects));
    assert(a.effects =~= seq![classes_effect()] + removals + c.effects);
}

/// Once `Software\Classes` is open, an update that comes to its end has gone on to
/// the extensions that are to be added, whatever became of the removals; and if it
/// could open the file associations for them, it has attempted every one of them,
/// whatever became of the others.
pub proof fn law_update_attempts_every_new_extension(
    next_app: LocatorView,
    previous_app: Option<LocatorView>,
    replies: Seq<ReplyView>,
)
    requires
        replies.len() > 0,
        !(replies[0] is Failed),
        run(update_associations_plan(next_app, previous_app), only_root(), replies).ended(),
        addable(associations_of(previous_app), next_app.file_associations).len() > 0,
    ensures
        ({
            let prev = associations_of(previous_app);
            let next = next_app.file_associations;
            let added = addable(prev, next);
            let a = run(update_associations_plan(next_app, previous_app), only_root(), replies);
            let b = run(
                plan_of(
                    remove_associations(next_app, Key::SoftwareClasses, removable(prev, next)),
                ),
                classes_open(),
                replies.drop_first(),
            );
            let n = b.used as int + 1;
            &&& b.ended()
            &&& n < a.effects.len()
            &&& n < replies.len()
            &&& a.effects[n] == opening_effects(next_app)[0]
            &&& !(replies[n] is Failed) && !(replies[n + 1] is Failed) ==> forall|
                extension: Seq<char>,
            | #[trigger]
                added.contains(extension) ==> a.effects.contains(
                    program_class_effect(next_app, extension),
                )
        }),
{
    let prev = associations_of(previous_app);
    let next = next_app.file_associations;
    let removed = removable(prev, next);
    let added = addable(prev, next);
    let plan = update_associations_plan(next_app, previous_app);
    let first = open_software_classes("Failed to create/open software classes registry key"@);
    let removal = plan_of(remove_associations(next_app, Key::SoftwareClasses, removed));
    let addition = plan_of(add_associations(next_app, Key::SoftwareClasses, added));
    let others = removal.absorbed().then_plan(addition.absorbed());
    assert(plan =~= plan_of(seq![first] + others.steps));
    assert(plan.advance(replies[0]) =~= others);
    let keys = keys_after(first.request, replies[0], only_root());
    assert(keys =~= classes_open());
    let rest = replies.drop_first();
    let a = run(plan, only_root(), replies);
    let o = run(others, keys, rest);
    assert(a.effects =~= seq![effect_of(first.request, only_root())] + o.effects);
    lemma_removal_shape(next_app, removed);
    lemma_absorb_shape(removal.steps, update_keys());
    law_then(removal.absorbed(), addition.absorbed(), keys, rest);
    law_quiet(removal.absorbed(), keys, rest);
    law_absorb(removal, keys, rest);
    let c = run(removal.absorbed(), keys, rest);
    assert(c.ended());
    law_bounded(removal.absorbed(), keys, rest);
    lemma_run_keys(removal.absorbed(), keys, rest, update_keys());
    assert(agree_outside(classes_open(), c.keys, update_keys()));
    let last = rest.skip(c.used as int);
    law_absorb(addition, c.keys, last);
    let d = run(addition, c.keys, last);
    assert(d.ended());
    law_bounded(addition, c.keys, last);
    assert(o.effects =~= c.effects + d.effects);
    let n = c.used as int + 1;
    assert(addition.steps[0] == open_file_associations(next_app)[0]);
    assert(classes_open().contains_key(Key::CurrentUser));
    assert(c.keys[Key::CurrentUser] == Seq::<char>::empty());
    assert(d.effects.len() > 0 && d.effects[0] == opening_effects(next_app)[0]);
    assert(a.effects[n] == d.effects[0]);
    assert(last[0] == replies[n]);
    if !(replies[n] is Failed) && !(replies[n + 1] is Failed) {
        assert(last.len() >= 2) by {
            let one = addition.advance(last[0]);
            assert(one.steps.len() > 0);
            if last.len() == 1 {
                assert(last.drop_first().len() == 0);
                assert(!run(
                    one,
                    keys_after(addition.steps[0].request, last[0], c.keys),
                    last.drop_first(),
                ).ended());
            }
        }
        assert(last[1] == replies[n + 1]);
        law_additions_attempt_every_extension(next_app, added, c.keys, last);
        assert forall|extension: Seq<char>| #[trigger]
            added.contains(extension) implies a.effects.contains(
            program_class_effect(next_app, extension),
        ) by {
            let e = program_class_effect(next_app, extension);
            let j = choose|j: int| 0 <= j < d.effects.len() && d.effects[j] == e;
            assert(a.effects[n + j] == e);
        }
    }
}

proof fn lemma_removal_shape(locator: LocatorView, extensions: Seq<Seq<char>>)
    ensures
        ({
            let steps = absorb(remove_associations(locator, Key::SoftwareClasses, extensions));
            &&& contained(steps)
            &&& opens_only(steps, update_keys())
        }),
{
    let opening = open_file_associations(locator);
    let each = remove_each_association(locator, Key::SoftwareClasses, extensions);
    lemma_remove_each_shape(locator, extensions);
    lemma_append_shape(opening, each, update_keys());
    lemma_absorb_shape(
        remove_associations(locator, Key::SoftwareClasses, extensions),
        update_keys(),
    );
}

/// Where every request succeeds, removing all file associations deletes the tree
/// with the path of the capabilities below `Software\Classes`, then removes every
/// extension.
pub proof fn law_remove_all_file_associations_in_full(
    locator: LocatorView,
    replies: Seq<ReplyView>,
)
    requires
        replies.len() >= remove_all_associations_plan(locator).steps.len(),
        forall|i: int| 0 <= i < replies.len() ==> !((#[trigger] replies[i]) is Failed),
    ensures
        ({
            let extensions = locator.file_associations;
            let a = run(remove_all_associations_plan(locator), only_root(), replies);
            &&& a.ended()
            &&& a.rest.outcome is Ok
            &&& a.effects == seq![
                classes_effect(),
                Effect::DeleteTree { path: class_path(locator.capability_path()) },
            ] + opened_effects(locator, extensions, removals_effects(locator, extensions))
        }),
{
    let extensions = locator.file_associations;
    let plan = remove_all_associations_plan(locator);
    let first = plan.steps.take(2);
    let removal = remove_associations(locator, Key::SoftwareClasses, extensions);
    let keys = keys_in_order(first, only_root());
    reveal_with_fuel(effects_in_order, 3);
    reveal_with_fuel(keys_in_order, 3);
    assert(plan.steps =~= first + absorb(removal));
    assert(keys =~= classes_open());
    assert(effects_in_order(first, only_root()) =~= seq![
        classes_effect(),
        Effect::DeleteTree { path: class_path(locator.capability_path()) },
    ]);
    if extensions.len() > 0 {
        let opening = open_file_associations(locator);
        let each = remove_each_association(locator, Key::SoftwareClasses, extensions);
        lemma_opening_in_order(locator, keys);
        lemma_remove_each_in_order(locator, extensions, keys_in_order(opening, keys));
        lemma_effects_append(opening, each, keys);
        lemma_append_unconditional(opening, each);
    }
    lemma_effects_absorb(removal, keys);
    lemma_effects_append(first, absorb(removal), only_root());
    lemma_append_unconditional(first, absorb(removal));
    law_all_succeed(plan, only_root(), replies);
}

proof fn lemma_removals_contain(
    locator: LocatorView,
    extensions: Seq<Seq<char>>,
    extension: Seq<char>,
    k: int,
)
    requires
        extensions.contains(extension),
        0 <= k < 3,
    ensures
        removals_effects(locator, extensions).contains(
            association_removal_effects(locator, extension)[k],
        ),
    decreases extensions.len(),
{
    let e = association_removal_effects(locator, extension)[k];
    let whole = removals_effects(locator, extensions);
    let first = removals_effects(locator, extensions.drop_last());
    let i = choose|i: int| 0 <= i < extensions.len() && extensions[i] == extension;
    if i < extensions.len() - 1 {
        assert(extensions.drop_last()[i] == extension);
        lemma_removals_contain(locator, extensions.drop_last(), extension, k);
        let j = choose|j: int| 0 <= j < first.len() && first[j] == e;
        assert(whole[j] == e);
    } else {
        assert(whole[first.len() + k] == e);
    }
}

/// Removing all file associations of an application undoes, below
/// `Software\Classes`, an update to it: however the update went, every key there that
/// it has asked to create, to read or to write is in a tree that the removal deletes,
/// if no request of the removal fails. What stays are the capabilities of the
/// application and the values among its file associations.
pub proof fn law_remove_all_undoes_update(
    next_app: LocatorView,
    previous_app: Option<LocatorView>,
    replies: Seq<ReplyView>,
    later: Seq<ReplyView>,
    i: int,
)
    requires
        later.len() >= remove_all_associations_plan(next_app).steps.len(),
        forall|k: int| 0 <= k < later.len() ==> !((#[trigger] later[k]) is Failed),
        0 <= i < run(
            update_associations_plan(next_app, previous_app),
            only_root(),
            replies,
        ).effects.len(),
    ensures
        ({
            let a = run(update_associations_plan(next_app, previous_app), only_root(), replies);
            let b = run(remove_all_associations_plan(next_app), only_root(), later);
            ||| a.effects[i] == classes_effect()
            ||| a.effects[i] is DeleteTree || a.effects[i] is DeleteKey
            ||| opening_effects(next_app).contains(a.effects[i])
            ||| a.effects[i] is SetValue && touched(a.effects[i]) == file_associations_path(
                next_app,
            )
            ||| exists|j: int|
                0 <= j < b.effects.len() && #[trigger] b.effects[j] is DeleteTree && within(
                    touched(b.effects[j]),
                    touched(a.effects[i]),
                )
        }),
{
    let prev = associations_of(previous_app);
    let next = next_app.file_associations;
    let added = addable(prev, next);
    let a = run(update_associations_plan(next_app, previous_app), only_root(), replies);
    let b = run(remove_all_associations_plan(next_app), only_root(), later);
    let e = a.effects[i];
    law_update_file_associations(next_app, previous_app, replies);
    assert(is_association_update(next_app, removable(prev, next), added, e));
    if e != classes_effect() && !(e is DeleteTree) && !(e is DeleteKey) && !opening_effects(
        next_app,
    ).contains(e) {
        let extension = choose|extension: Seq<char>|
            added.contains(extension) && #[trigger] association_effects(
                next_app,
                extension,
                true,
            ).contains(e);
        let full = association_effects(next_app, extension, true);
        let k = choose|k: int| 0 <= k < full.len() && full[k] == e;
        if k < full.len() - 1 {
            law_changes_lead_to_next(prev, next);
            assert(next.contains(extension));
            law_removal_covers_addition(next_app, extension, true, k);
            law_remove_all_file_associations_in_full(next_app, later);
            let removal = association_removal_effects(next_app, extension);
            let m: int = if within(touched(removal[0]), touched(e)) {
                0
            } else {
                1
            };
            lemma_removals_contain(next_app, next, extension, m);
            let all = removals_effects(next_app, next);
            let j = choose|j: int| 0 <= j < all.len() && all[j] == removal[m];
            assert(b.effects[j + 4] == removal[m]);
        }
    }
}

} // verus!
