//! What the operations do to what the registry holds.
use vstd::prelude::*;

use crate::association_laws::{
    association_effects, association_removal_effects, file_associations_path,
    is_association_update, law_update_file_associations,
};
use crate::changes::{addable, removable};
use crate::clock::Date;
use crate::compose::successes;
use crate::contents::{
    apply, apply_all, changes_key, creates, folded, keeps_separator, last_written, law_lacks_only,
    law_unchanged_key, law_writes_twice, lemma_apply_append, lemma_apply_one, lemma_below_under,
    lemma_create_well_formed, lemma_only_writes, lemma_same, lemma_stays_in,
    lemma_under_comparable, lemma_under_transitive, nothing_in, same_apart_from,
    stays_in, under, Contents, Folding,
};
use crate::custom_protocols::{protocols_of, remove_all_protocols_plan, update_protocols_plan};
use crate::default_program::{
    default_program_effects, default_program_plan, law_register_default_program,
    SOFTWARE_REGISTERED_APPLICATIONS_KEY,
};
use crate::file_associations::{
    associations_of, program_id, update_associations_plan, DEFAULT_ICON_KEY, OPEN_WITH_PROG_KEY,
};
use crate::keys::{
    class_path, classes_effect, SHELL_OPEN_COMMAND_KEY, SOFTWARE_CLASSES_REGISTRY_KEY,
};
use crate::locator::{open_command, LocatorView};
use crate::plan::{ReplyView, Value};
use crate::protocol_laws::{
    is_protocol_update, law_remove_all_custom_protocols, law_same_protocols,
    law_update_custom_protocols, law_update_custom_protocols_in_full, protocol_effects,
    registration_effects, removal_effects,
};
use crate::run::{below, law_bounded, only_root, run, Effect, Run};
use crate::uninstall::{
    entry_path, law_remove_uninstall_entry, law_write_uninstall_entry, list_effect,
    remove_entry_plan, uninstall_entry_effects, uninstall_entry_plan, UNINSTALL_REGISTRY_KEY,
};

verus! {

/// What was done before the first request that failed. The request that failed is
/// taken to have changed nothing.
pub open spec fn done(a: Run, replies: Seq<ReplyView>) -> Seq<Effect> {
    if successes(replies) < a.effects.len() {
        a.effects.take(successes(replies) as int)
    } else {
        a.effects
    }
}

/// Writing the entry of the application twice, on the same day and with the same
/// size, leaves what writing it once leaves, where no request fails.
pub proof fn law_write_uninstall_entry_twice(
    fold: Folding,
    locator: LocatorView,
    folder_size: Option<u64>,
    today: Date,
    replies: Seq<ReplyView>,
    later: Seq<ReplyView>,
    held: Contents,
)
    requires
        successes(replies) >= uninstall_entry_plan(locator, folder_size, today).steps.len(),
        successes(later) >= uninstall_entry_plan(locator, folder_size, today).steps.len(),
    ensures
        ({
            let plan = uninstall_entry_plan(locator, folder_size, today);
            let once = apply_all(fold, run(plan, only_root(), replies).effects, held);
            apply_all(fold, run(plan, only_root(), later).effects, once) == once
        }),
{
    let full = uninstall_entry_effects(locator, folder_size, today);
    law_write_uninstall_entry(locator, folder_size, today, replies);
    law_write_uninstall_entry(locator, folder_size, today, later);
    law_writes_twice(fold, full, held);
}

/// Registering the application as a default program twice leaves what registering it
/// once leaves, where no request fails.
pub proof fn law_register_default_program_twice(
    fold: Folding,
    locator: LocatorView,
    replies: Seq<ReplyView>,
    later: Seq<ReplyView>,
    held: Contents,
)
    requires
        successes(replies) >= default_program_plan(locator).steps.len(),
        successes(later) >= default_program_plan(locator).steps.len(),
    ensures
        ({
            let plan = default_program_plan(locator);
            let once = apply_all(fold, run(plan, only_root(), replies).effects, held);
            apply_all(fold, run(plan, only_root(), later).effects, once) == once
        }),
{
    law_register_default_program(locator, replies);
    law_register_default_program(locator, later);
    law_writes_twice(fold, default_program_effects(locator), held);
}

/// However far it comes, registering the application leaves what is registered under
/// other IDs alone.
pub proof fn law_other_registered_applications_stay(
    fold: Folding,
    locator: LocatorView,
    replies: Seq<ReplyView>,
    held: Contents,
    name: Seq<char>,
)
    requires
        keeps_separator(fold),
        folded(fold, name) != folded(fold, locator.manifest_id),
    ensures
        ({
            let a = run(default_program_plan(locator), only_root(), replies);
            let after = apply_all(fold, done(a, replies), held);
            let entry = (
                folded(fold, SOFTWARE_REGISTERED_APPLICATIONS_KEY@),
                folded(fold, name),
            );
            &&& after.values.contains_key(entry) == held.values.contains_key(entry)
            &&& after.values.contains_key(entry) ==> after.values[entry] == held.values[entry]
        }),
{
    let a = run(default_program_plan(locator), only_root(), replies);
    let full = default_program_effects(locator);
    let some = done(a, replies);
    let list = SOFTWARE_REGISTERED_APPLICATIONS_KEY@;
    let capabilities = locator.capability_path();
    let entry = (folded(fold, list), folded(fold, name));
    law_register_default_program(locator, replies);
    assert(folded(fold, capabilities) != folded(fold, list)) by {
        reveal_strlit("Software\\RegisteredApplications");
        reveal_strlit("\\Capabilities");
        let i = capabilities.len() - 13;
        assert(capabilities[i] == '\\');
        if folded(fold, capabilities) == folded(fold, list) {
            assert(folded(fold, list).len() == folded(fold, capabilities).len());
            assert(list.len() == capabilities.len());
            assert(list[i] == 'd');
            assert(folded(fold, capabilities)[i] == fold('\\'));
            assert(folded(fold, list)[i] == fold('d'));
        }
    }
    assert forall|i: int| #![trigger some[i]] 0 <= i < some.len() implies !(
    some[i] is DeleteTree) && !(some[i] is DeleteKey) by {
        assert(some[i] == full[i]);
    }
    lemma_only_writes(fold, some, held);
    assert forall|i: int| 0 <= i < some.len() && (#[trigger] some[i]) is SetValue implies (
        folded(fold, some[i]->SetValue_path),
        folded(fold, some[i]->SetValue_name),
    ) != entry by {
        assert(some[i] == full[i]);
    }
    lemma_not_written(fold, some, entry);
    assert(apply_all(fold, some, held).values.contains_key(entry)
        == held.values.contains_key(entry));
}

proof fn lemma_not_written(fold: Folding, effects: Seq<Effect>, entry: (Seq<char>, Seq<char>))
    requires
        forall|i: int|
            0 <= i < effects.len() && (#[trigger] effects[i]) is SetValue ==> (
                folded(fold, effects[i]->SetValue_path),
                folded(fold, effects[i]->SetValue_name),
            ) != entry,
    ensures
        last_written(fold, effects, entry) is None,
    decreases effects.len(),
{
    if effects.len() > 0 {
        let first = effects.drop_last();
        assert forall|i: int| 0 <= i < first.len() && (#[trigger] first[i]) is SetValue implies (
            folded(fold, first[i]->SetValue_path),
            folded(fold, first[i]->SetValue_name),
        ) != entry by {
            assert(first[i] == effects[i]);
        }
        lemma_not_written(fold, first, entry);
        assert(effects[effects.len() - 1] == effects.last());
    }
}

/// Deleting the entry of the application restores what the registry held before the
/// entry was written, however far the writing came, if it created the key of the
/// entry and nothing but that key was lacking.
pub proof fn law_remove_restores_uninstall_entry(
    fold: Folding,
    locator: LocatorView,
    folder_size: Option<u64>,
    today: Date,
    replies: Seq<ReplyView>,
    later: Seq<ReplyView>,
    held: Contents,
)
    requires
        keeps_separator(fold),
        held.well_formed(),
        held.lacks_only(folded(fold, entry_path(locator))),
        successes(replies) >= 2,
        successes(later) >= 2,
    ensures
        ({
            let a = run(
                uninstall_entry_plan(locator, folder_size, today),
                only_root(),
                replies,
            );
            let b = run(remove_entry_plan(locator), only_root(), later);
            apply_all(fold, b.effects, apply_all(fold, done(a, replies), held)) == held
        }),
{
    let a = run(uninstall_entry_plan(locator, folder_size, today), only_root(), replies);
    let b = run(remove_entry_plan(locator), only_root(), later);
    let full = uninstall_entry_effects(locator, folder_size, today);
    let some = done(a, replies);
    let list = UNINSTALL_REGISTRY_KEY@;
    let entry = folded(fold, entry_path(locator));
    let area = |path: Seq<char>| path == entry;
    reveal_strlit("Software\\Microsoft\\Windows\\CurrentVersion\\Uninstall");
    law_write_uninstall_entry(locator, folder_size, today, replies);
    law_remove_uninstall_entry(locator, folder_size, today, later);
    lemma_below_under(fold, list, locator.manifest_id);
    assert(stays_in(fold, list_effect(), held, area)) by {
        assert forall|tree: Seq<char>| #[trigger] under(tree, folded(fold, list)) implies area(tree)
            || held.keys.contains(tree) by {
            lemma_under_transitive(tree, folded(fold, list), entry);
        }
    }
    assert forall|i: int| 0 <= i < some.len() implies stays_in(
        fold,
        #[trigger] some[i],
        held,
        area,
    ) by {
        assert(some[i] == full[i]);
    }
    assert(same_apart_from(held, held, area));
    lemma_stays_in(fold, some, held, held, area);
    let written = apply_all(fold, some, held);
    assert(b.effects =~= seq![list_effect(), Effect::DeleteKey { path: entry_path(locator) }]);
    assert forall|i: int| 0 <= i < b.effects.len() implies stays_in(
        fold,
        #[trigger] b.effects[i],
        held,
        area,
    ) by {}
    lemma_stays_in(fold, b.effects, held, written, area);
    let restored = apply_all(fold, b.effects, written);
    assert(nothing_in(restored, area)) by {
        assert(b.effects.last() == Effect::DeleteKey { path: entry_path(locator) });
    }
    assert(nothing_in(held, area)) by {
        assert forall|e: (Seq<char>, Seq<char>)| #[trigger]
            held.values.contains_key(e) implies !area(e.0) by {
            assert(held.values.contains_key((e.0, e.1)));
        }
    }
    lemma_same(held, restored, area);
}

/// The path is that of the class of one of these names, or below it.
pub open spec fn in_classes(fold: Folding, names: Seq<Seq<char>>, path: Seq<char>) -> bool {
    exists|name: Seq<char>| #[trigger]
        names.contains(name) && under(folded(fold, class_path(name)), path)
}

proof fn lemma_class_paths(fold: Folding, name: Seq<char>, sub_key: Seq<char>)
    requires
        keeps_separator(fold),
    ensures
        class_path(name).len() > 0,
        under(folded(fold, SOFTWARE_CLASSES_REGISTRY_KEY@), folded(fold, class_path(name))),
        under(folded(fold, class_path(name)), folded(fold, below(class_path(name), sub_key))),
        sub_key.len() > 0 ==> folded(fold, below(class_path(name), sub_key)).len() > folded(
            fold,
            class_path(name),
        ).len(),
{
    reveal_strlit("Software\\Classes");
    lemma_below_under(fold, SOFTWARE_CLASSES_REGISTRY_KEY@, name);
    lemma_below_under(fold, class_path(name), sub_key);
}

/// Registering a protocol stays in its class, if the keys above the class exist.
proof fn lemma_protocol_stays_in(
    fold: Folding,
    name: Seq<char>,
    command: Seq<char>,
    held: Contents,
    area: spec_fn(Seq<char>) -> bool,
)
    requires
        keeps_separator(fold),
        held.lacks_only(folded(fold, class_path(name))),
        forall|path: Seq<char>| #[trigger]
            under(folded(fold, class_path(name)), path) ==> area(path),
    ensures
        forall|i: int|
            0 <= i < 5 ==> stays_in(fold, #[trigger] protocol_effects(name, command)[i], held, area),
{
    let class = folded(fold, class_path(name));
    let open = folded(fold, below(class_path(name), SHELL_OPEN_COMMAND_KEY@));
    lemma_class_paths(fold, name, SHELL_OPEN_COMMAND_KEY@);
    assert(under(class, class));
    assert forall|i: int| 0 <= i < 5 implies stays_in(
        fold,
        #[trigger] protocol_effects(name, command)[i],
        held,
        area,
    ) by {
        assert forall|tree: Seq<char>| #[trigger] under(tree, class) implies area(tree)
            || held.keys.contains(tree) by {}
        assert forall|tree: Seq<char>| #[trigger] under(tree, open) implies area(tree)
            || held.keys.contains(tree) by {
            lemma_under_comparable(tree, class, open);
            if under(tree, class) {
                assert(tree == class || held.keys.contains(tree));
            }
        }
    }
}

/// Registrations stay in the classes of the protocols.
proof fn lemma_registrations_stay_in(
    fold: Folding,
    names: Seq<Seq<char>>,
    command: Seq<char>,
    held: Contents,
    area: spec_fn(Seq<char>) -> bool,
)
    requires
        keeps_separator(fold),
        forall|name: Seq<char>| #[trigger]
            names.contains(name) ==> held.lacks_only(folded(fold, class_path(name))),
        forall|path: Seq<char>| #[trigger] in_classes(fold, names, path) ==> area(path),
    ensures
        forall|i: int|
            0 <= i < registration_effects(names, command).len() ==> stays_in(
                fold,
                #[trigger] registration_effects(names, command)[i],
                held,
                area,
            ),
    decreases names.len(),
{
    if names.len() > 0 {
        let shorter = names.drop_last();
        let first = registration_effects(shorter, command);
        let last = protocol_effects(names.last(), command);
        assert forall|name: Seq<char>| #[trigger] shorter.contains(name) implies names.contains(
            name,
        ) by {
            let i = choose|i: int| 0 <= i < shorter.len() && shorter[i] == name;
            assert(names[i] == name);
        }
        assert forall|name: Seq<char>| #[trigger]
            shorter.contains(name) implies held.lacks_only(folded(fold, class_path(name))) by {
            assert(names.contains(name));
        }
        assert forall|path: Seq<char>| #[trigger] in_classes(fold, shorter, path) implies area(
            path,
        ) by {
            let name = choose|name: Seq<char>| #[trigger]
                shorter.contains(name) && under(folded(fold, class_path(name)), path);
            assert(names.contains(name));
            assert(in_classes(fold, names, path));
        }
        lemma_registrations_stay_in(fold, shorter, command, held, area);
        assert(names[names.len() - 1] == names.last());
        assert(names.contains(names.last()));
        assert forall|path: Seq<char>| #[trigger]
            under(folded(fold, class_path(names.last())), path) implies area(path) by {
            assert(in_classes(fold, names, path));
        }
        lemma_protocol_stays_in(fold, names.last(), command, held, area);
        let both = registration_effects(names, command);
        assert forall|i: int| 0 <= i < both.len() implies stays_in(
            fold,
            #[trigger] both[i],
            held,
            area,
        ) by {
            if i < first.len() {
                assert(both[i] == first[i]);
            } else {
                assert(both[i] == last[i - first.len()]);
            }
        }
    }
}

/// Removals leave nothing in the classes of the protocols.
proof fn lemma_removals_clear(
    fold: Folding,
    names: Seq<Seq<char>>,
    held: Contents,
    name: Seq<char>,
)
    requires
        names.contains(name),
    ensures
        nothing_in(
            apply_all(fold, removal_effects(names), held),
            |path: Seq<char>| under(folded(fold, class_path(name)), path),
        ),
    decreases names.len(),
{
    let shorter = names.drop_last();
    let last = names.last();
    assert(removal_effects(names).drop_last() =~= removal_effects(shorter));
    assert(removal_effects(names).last() == Effect::DeleteTree { path: class_path(last) });
    let i = choose|i: int| 0 <= i < names.len() && names[i] == name;
    if i < names.len() - 1 {
        assert(shorter[i] == name);
        lemma_removals_clear(fold, shorter, held, name);
    }
}

/// Removing all protocols after registering them restores what the registry held,
/// where no request fails and nothing but the classes of the protocols was lacking.
/// If `Software\Classes` itself was lacking, it stays.
pub proof fn law_remove_all_restores_classes(
    fold: Folding,
    app: LocatorView,
    replies: Seq<ReplyView>,
    later: Seq<ReplyView>,
    held: Contents,
)
    requires
        keeps_separator(fold),
        held.well_formed(),
        forall|name: Seq<char>| #[trigger]
            app.custom_url_protocols.contains(name) ==> apply(
                fold,
                classes_effect(),
                held,
            ).lacks_only(folded(fold, class_path(name))),
        replies.len() >= update_protocols_plan(app, None).steps.len(),
        forall|i: int| 0 <= i < replies.len() ==> !((#[trigger] replies[i]) is Failed),
        successes(later) > app.custom_url_protocols.len(),
    ensures
        ({
            let a = run(update_protocols_plan(app, None), only_root(), replies);
            let b = run(remove_all_protocols_plan(app), only_root(), later);
            let after = apply_all(fold, b.effects, apply_all(fold, a.effects, held));
            &&& after == apply(fold, classes_effect(), held)
            &&& held.keys.contains(folded(fold, SOFTWARE_CLASSES_REGISTRY_KEY@)) ==> after == held
        }),
{
    let names = app.custom_url_protocols;
    let command = open_command(app.main_exe_path);
    let classes = folded(fold, SOFTWARE_CLASSES_REGISTRY_KEY@);
    let opened = apply(fold, classes_effect(), held);
    let area = |path: Seq<char>| in_classes(fold, names, path);
    let a = run(update_protocols_plan(app, None), only_root(), replies);
    let b = run(remove_all_protocols_plan(app), only_root(), later);
    lemma_create_well_formed(fold, classes_effect(), held);
    law_remove_all_custom_protocols(app, later);
    lemma_apply_one(fold, classes_effect(), held);
    assert(opened.keys.contains(classes));
    assert(apply(fold, classes_effect(), opened) == opened) by {
        assert(apply(fold, classes_effect(), opened).keys =~= opened.keys);
    }
    assert(held.keys.contains(classes) ==> opened == held) by {
        if held.keys.contains(classes) {
            assert(opened.keys =~= held.keys);
        }
    }
    assert(b.effects == seq![classes_effect()] + removal_effects(names));
    let registered = apply_all(fold, a.effects, held);
    if names.len() == 0 {
        assert(protocols_of(None) =~= names);
        law_same_protocols(app, None, replies);
        law_bounded(update_protocols_plan(app, None), only_root(), replies);
        assert(removal_effects(names) =~= Seq::<Effect>::empty());
        assert(b.effects =~= seq![classes_effect()]);
        assert(apply_all(fold, b.effects, registered) == opened);
    } else {
        assert(protocols_of(None).len() == 0);
        law_update_custom_protocols_in_full(app, None, replies);
        let registration = registration_effects(names, command);
        assert(removable(protocols_of(None), names) =~= Seq::<Seq<char>>::empty());
        assert(removal_effects(Seq::<Seq<char>>::empty()) =~= Seq::<Effect>::empty());
        assert(a.effects =~= seq![classes_effect()] + registration);
        lemma_apply_append(fold, seq![classes_effect()], registration, held);
        lemma_registrations_stay_in(fold, names, command, opened, area);
        assert(same_apart_from(opened, opened, area));
        lemma_stays_in(fold, registration, opened, opened, area);
        assert forall|i: int| 0 <= i < b.effects.len() implies stays_in(
            fold,
            #[trigger] b.effects[i],
            opened,
            area,
        ) by {
            if i == 0 {
                assert forall|tree: Seq<char>| #[trigger] under(tree, classes) implies area(tree)
                    || opened.keys.contains(tree) by {}
            } else {
                let name = names[i - 1];
                assert(b.effects[i] == removal_effects(names)[i - 1]);
                assert(names.contains(name));
                assert forall|path: Seq<char>| #[trigger]
                    under(folded(fold, class_path(name)), path) implies area(path) by {}
            }
        }
        lemma_stays_in(fold, b.effects, opened, registered, area);
        let after = apply_all(fold, b.effects, registered);
        lemma_apply_append(fold, seq![classes_effect()], removal_effects(names), registered);
        let middle = apply_all(fold, seq![classes_effect()], registered);
        assert(nothing_in(after, area)) by {
            assert forall|key: Seq<char>| #[trigger] after.keys.contains(key) implies !area(key) by {
                if area(key) {
                    let name = choose|name: Seq<char>| #[trigger]
                        names.contains(name) && under(folded(fold, class_path(name)), key);
                    lemma_removals_clear(fold, names, middle, name);
                }
            }
            assert forall|entry: (Seq<char>, Seq<char>)| #[trigger]
                after.values.contains_key(entry) implies !area(entry.0) by {
                if area(entry.0) {
                    let name = choose|name: Seq<char>| #[trigger]
                        names.contains(name) && under(folded(fold, class_path(name)), entry.0);
                    lemma_removals_clear(fold, names, middle, name);
                }
            }
        }
        assert(nothing_in(opened, area)) by {
            assert forall|key: Seq<char>| #[trigger] opened.keys.contains(key) implies !area(
                key,
            ) by {
                if area(key) {
                    let name = choose|name: Seq<char>| #[trigger]
                        names.contains(name) && under(folded(fold, class_path(name)), key);
                    assert(opened.lacks_only(folded(fold, class_path(name))));
                }
            }
            assert forall|entry: (Seq<char>, Seq<char>)| #[trigger]
                opened.values.contains_key(entry) implies !area(entry.0) by {
                assert(opened.values.contains_key((entry.0, entry.1)));
                assert(opened.keys.contains(entry.0));
            }
        }
        lemma_same(opened, after, area);
    }
}

/// Removing all protocols after registering them restores what the registry held,
/// where no request fails, `Software\Classes` exists, and the protocols have names of
/// their own under which it had no class.
pub proof fn law_remove_all_restores_registry(
    fold: Folding,
    app: LocatorView,
    replies: Seq<ReplyView>,
    later: Seq<ReplyView>,
    held: Contents,
)
    requires
        keeps_separator(fold),
        held.well_formed(),
        held.keys.contains(folded(fold, SOFTWARE_CLASSES_REGISTRY_KEY@)),
        forall|name: Seq<char>| #[trigger]
            app.custom_url_protocols.contains(name) ==> name.len() > 0 && !name.contains('\\')
                && !held.keys.contains(folded(fold, class_path(name))),
        replies.len() >= update_protocols_plan(app, None).steps.len(),
        forall|i: int| 0 <= i < replies.len() ==> !((#[trigger] replies[i]) is Failed),
        successes(later) > app.custom_url_protocols.len(),
    ensures
        ({
            let a = run(update_protocols_plan(app, None), only_root(), replies);
            let b = run(remove_all_protocols_plan(app), only_root(), later);
            apply_all(fold, b.effects, apply_all(fold, a.effects, held)) == held
        }),
{
    let classes = SOFTWARE_CLASSES_REGISTRY_KEY@;
    let opened = apply(fold, classes_effect(), held);
    reveal_strlit("Software\\Classes");
    assert(opened.keys =~= held.keys);
    assert forall|name: Seq<char>| #[trigger]
        app.custom_url_protocols.contains(name) implies opened.lacks_only(
        folded(fold, class_path(name)),
    ) by {
        law_lacks_only(fold, held, classes, name);
    }
    law_remove_all_restores_classes(fold, app, replies, later, held);
}

/// Neither of two keys is in the tree of the other.
pub open spec fn apart(a: Seq<char>, b: Seq<char>) -> bool {
    !under(a, b) && !under(b, a)
}

/// What belongs to a registered protocol is there.
pub open spec fn is_registered(
    fold: Folding,
    name: Seq<char>,
    command: Seq<char>,
    held: Contents,
) -> bool {
    let class = folded(fold, class_path(name));
    let open = folded(fold, below(class_path(name), SHELL_OPEN_COMMAND_KEY@));
    let description = (class, Seq::<char>::empty());
    let mark = (class, folded(fold, "URL Protocol"@));
    let opening = (open, Seq::<char>::empty());
    &&& held.keys.contains(class)
    &&& held.keys.contains(open)
    &&& held.values.contains_key(description)
    &&& held.values[description] == Value::<Seq<char>>::Sz("URL:"@ + name + " protocol"@)
    &&& held.values.contains_key(mark)
    &&& held.values[mark] == Value::<Seq<char>>::Sz(Seq::empty())
    &&& held.values.contains_key(opening)
    &&& held.values[opening] == Value::<Seq<char>>::Sz(command)
}

proof fn lemma_registered(fold: Folding, name: Seq<char>, command: Seq<char>, held: Contents)
    requires
        keeps_separator(fold),
    ensures
        is_registered(
            fold,
            name,
            command,
            apply_all(fold, protocol_effects(name, command), held),
        ),
{
    let effects = protocol_effects(name, command);
    let class = folded(fold, class_path(name));
    let open = folded(fold, below(class_path(name), SHELL_OPEN_COMMAND_KEY@));
    let none = Seq::<char>::empty();
    let mark = folded(fold, "URL Protocol"@);
    reveal_strlit("shell\\open\\command");
    reveal_strlit("URL Protocol");
    lemma_class_paths(fold, name, SHELL_OPEN_COMMAND_KEY@);
    assert(open != class);
    assert(folded(fold, none) =~= none);
    assert(mark.len() > 0);
    lemma_only_writes(fold, effects, held);
    assert(effects[0] is CreateKey && under(class, folded(fold, effects[0]->CreateKey_path)));
    assert(effects[3] is CreateKey && under(open, folded(fold, effects[3]->CreateKey_path)));
    assert(creates(fold, effects, class) && creates(fold, effects, open));
    reveal_with_fuel(last_written, 6);
    let four = effects.drop_last();
    let three = four.drop_last();
    let two = three.drop_last();
    assert(four.last() == effects[3] && three.last() == effects[2] && two.last() == effects[1]);
    assert(last_written(fold, effects, (open, none)) is Some);
    assert(last_written(fold, effects, (class, mark)) == last_written(
        fold,
        three,
        (class, mark),
    ));
    assert(last_written(fold, effects, (class, none)) == last_written(fold, two, (class, none)));
    let after = apply_all(fold, effects, held);
    assert(after.values.contains_key((open, none)));
    assert(after.values.contains_key((class, mark)));
    assert(after.values.contains_key((class, none)));
}

/// Registering a protocol changes nothing in the tree of a key apart from its class.
proof fn lemma_protocol_unchanged(
    fold: Folding,
    name: Seq<char>,
    command: Seq<char>,
    tree: Seq<char>,
    key: Seq<char>,
)
    requires
        keeps_separator(fold),
        apart(folded(fold, class_path(name)), tree),
        under(tree, key),
    ensures
        forall|i: int|
            0 <= i < 5 ==> !changes_key(fold, #[trigger] protocol_effects(name, command)[i], key),
{
    let class = folded(fold, class_path(name));
    let open = folded(fold, below(class_path(name), SHELL_OPEN_COMMAND_KEY@));
    lemma_class_paths(fold, name, SHELL_OPEN_COMMAND_KEY@);
    if key == class || key == open {
        lemma_under_comparable(class, tree, key);
    }
}

/// Each protocol that is apart from the others is registered in the end.
proof fn lemma_all_registered(
    fold: Folding,
    names: Seq<Seq<char>>,
    command: Seq<char>,
    held: Contents,
    name: Seq<char>,
)
    requires
        keeps_separator(fold),
        names.contains(name),
        forall|other: Seq<char>| #[trigger]
            names.contains(other) && other != name ==> apart(
                folded(fold, class_path(other)),
                folded(fold, class_path(name)),
            ),
    ensures
        is_registered(
            fold,
            name,
            command,
            apply_all(fold, registration_effects(names, command), held),
        ),
    decreases names.len(),
{
    let shorter = names.drop_last();
    let last = names.last();
    let first = registration_effects(shorter, command);
    let before = apply_all(fold, first, held);
    lemma_apply_append(fold, first, protocol_effects(last, command), held);
    if last == name {
        lemma_registered(fold, name, command, before);
    } else {
        let i = choose|i: int| 0 <= i < names.len() && names[i] == name;
        assert(shorter[i] == name);
        assert forall|other: Seq<char>| #[trigger]
            shorter.contains(other) && other != name implies apart(
            folded(fold, class_path(other)),
            folded(fold, class_path(name)),
        ) by {
            let j = choose|j: int| 0 <= j < shorter.len() && shorter[j] == other;
            assert(names[j] == other);
            assert(names.contains(other));
        }
        lemma_all_registered(fold, shorter, command, held, name);
        assert(names[names.len() - 1] == last);
        assert(names.contains(last));
        let class = folded(fold, class_path(name));
        let open = folded(fold, below(class_path(name), SHELL_OPEN_COMMAND_KEY@));
        lemma_class_paths(fold, name, SHELL_OPEN_COMMAND_KEY@);
        let effects = protocol_effects(last, command);
        lemma_protocol_unchanged(fold, last, command, class, class);
        lemma_protocol_unchanged(fold, last, command, class, open);
        law_unchanged_key(fold, effects, before, class);
        law_unchanged_key(fold, effects, before, open);
        let after = apply_all(fold, effects, before);
        assert(after.values.contains_key((class, Seq::<char>::empty())));
        assert(after.values.contains_key((class, folded(fold, "URL Protocol"@))));
        assert(after.values.contains_key((open, Seq::<char>::empty())));
    }
}

/// Registrations leave the tree of a key alone that is apart from their classes.
proof fn lemma_registrations_apart(
    fold: Folding,
    names: Seq<Seq<char>>,
    command: Seq<char>,
    held: Contents,
    tree: Seq<char>,
)
    requires
        keeps_separator(fold),
        forall|name: Seq<char>| #[trigger]
            names.contains(name) ==> apart(folded(fold, class_path(name)), tree),
    ensures
        forall|i: int|
            0 <= i < registration_effects(names, command).len() ==> stays_in(
                fold,
                #[trigger] registration_effects(names, command)[i],
                held,
                |path: Seq<char>| !under(tree, path),
            ),
    decreases names.len(),
{
    let area = |path: Seq<char>| !under(tree, path);
    if names.len() > 0 {
        let shorter = names.drop_last();
        let name = names.last();
        let first = registration_effects(shorter, command);
        let last = protocol_effects(name, command);
        assert forall|other: Seq<char>| #[trigger] shorter.contains(other) implies apart(
            folded(fold, class_path(other)),
            tree,
        ) by {
            let j = choose|j: int| 0 <= j < shorter.len() && shorter[j] == other;
            assert(names[j] == other);
            assert(names.contains(other));
        }
        lemma_registrations_apart(fold, shorter, command, held, tree);
        assert(names[names.len() - 1] == name);
        assert(names.contains(name));
        let class = folded(fold, class_path(name));
        let open = folded(fold, below(class_path(name), SHELL_OPEN_COMMAND_KEY@));
        lemma_class_paths(fold, name, SHELL_OPEN_COMMAND_KEY@);
        assert forall|path: Seq<char>, above: Seq<char>|
            (path == class || path == open) && #[trigger] under(above, path) implies area(
            above,
        ) by {
            if under(tree, above) {
                lemma_under_transitive(tree, above, path);
                lemma_under_comparable(tree, class, path);
            }
        }
        assert(under(class, class) && under(open, open));
        let both = registration_effects(names, command);
        assert forall|i: int| 0 <= i < both.len() implies stays_in(
            fold,
            #[trigger] both[i],
            held,
            area,
        ) by {
            if i < first.len() {
                assert(both[i] == first[i]);
            } else {
                assert(both[i] == last[i - first.len()]);
            }
        }
    }
}

/// Where no request fails, an update of the protocols leaves every new protocol
/// registered that is apart from the other new ones, and nothing of a protocol that
/// was to be removed and is apart from the new ones. A protocol that only changes its
/// spelling is removed and registered again.
pub proof fn law_update_leaves_protocols(
    fold: Folding,
    next_app: LocatorView,
    previous_app: Option<LocatorView>,
    replies: Seq<ReplyView>,
    held: Contents,
    name: Seq<char>,
)
    requires
        keeps_separator(fold),
        protocols_of(previous_app) != next_app.custom_url_protocols,
        replies.len() >= update_protocols_plan(next_app, previous_app).steps.len(),
        forall|i: int| 0 <= i < replies.len() ==> !((#[trigger] replies[i]) is Failed),
        forall|other: Seq<char>| #[trigger]
            addable(protocols_of(previous_app), next_app.custom_url_protocols).contains(other)
                && other != name ==> apart(
                folded(fold, class_path(other)),
                folded(fold, class_path(name)),
            ),
    ensures
        ({
            let prev = protocols_of(previous_app);
            let next = next_app.custom_url_protocols;
            let a = run(update_protocols_plan(next_app, previous_app), only_root(), replies);
            let after = apply_all(fold, a.effects, held);
            &&& addable(prev, next).contains(name) ==> is_registered(
                fold,
                name,
                open_command(next_app.main_exe_path),
                after,
            )
            &&& removable(prev, next).contains(name) && !addable(prev, next).contains(name)
                ==> nothing_in(
                after,
                |path: Seq<char>| under(folded(fold, class_path(name)), path),
            )
        }),
{
    let prev = protocols_of(previous_app);
    let next = next_app.custom_url_protocols;
    let command = open_command(next_app.main_exe_path);
    let removed = removable(prev, next);
    let added = addable(prev, next);
    let a = run(update_protocols_plan(next_app, previous_app), only_root(), replies);
    let removal = removal_effects(removed);
    let registration = registration_effects(added, command);
    law_update_custom_protocols_in_full(next_app, previous_app, replies);
    lemma_apply_append(fold, seq![classes_effect()] + removal, registration, held);
    lemma_apply_append(fold, seq![classes_effect()], removal, held);
    let cleared = apply_all(fold, seq![classes_effect()] + removal, held);
    if added.contains(name) {
        lemma_all_registered(fold, added, command, cleared, name);
    } else if removed.contains(name) {
        let class = folded(fold, class_path(name));
        let area = |path: Seq<char>| !under(class, path);
        lemma_removals_clear(
            fold,
            removed,
            apply_all(fold, seq![classes_effect()], held),
            name,
        );
        lemma_registrations_apart(fold, added, command, cleared, class);
        assert(same_apart_from(cleared, cleared, area));
        lemma_stays_in(fold, registration, cleared, cleared, area);
        let after = apply_all(fold, a.effects, held);
        assert forall|key: Seq<char>| #[trigger] after.keys.contains(key) implies !under(
            class,
            key,
        ) by {
            assert(!area(key) ==> cleared.keys.contains(key));
        }
        assert forall|entry: (Seq<char>, Seq<char>)| #[trigger]
            after.values.contains_key(entry) implies !under(class, entry.0) by {
            assert(!area(entry.0) ==> cleared.values.contains_key(entry));
        }
    }
}

/// Whichever requests of an update of the protocols are done, a key that is in the
/// class of no protocol to be removed or added stays, with its values.
pub proof fn law_protocol_update_leaves_other_keys(
    fold: Folding,
    next_app: LocatorView,
    previous_app: Option<LocatorView>,
    replies: Seq<ReplyView>,
    effects: Seq<Effect>,
    held: Contents,
    key: Seq<char>,
)
    requires
        keeps_separator(fold),
        held.keys.contains(key),
        forall|i: int|
            0 <= i < effects.len() ==> run(
                update_protocols_plan(next_app, previous_app),
                only_root(),
                replies,
            ).effects.contains(#[trigger] effects[i]),
        !in_classes(
            fold,
            removable(protocols_of(previous_app), next_app.custom_url_protocols),
            key,
        ),
        !in_classes(
            fold,
            addable(protocols_of(previous_app), next_app.custom_url_protocols),
            key,
        ),
    ensures
        apply_all(fold, effects, held).keys.contains(key),
        apply_all(fold, effects, held).same_values(held, key),
{
    let prev = protocols_of(previous_app);
    let next = next_app.custom_url_protocols;
    let command = open_command(next_app.main_exe_path);
    let removed = removable(prev, next);
    let added = addable(prev, next);
    let a = run(update_protocols_plan(next_app, previous_app), only_root(), replies);
    assert forall|i: int| 0 <= i < effects.len() implies !changes_key(
        fold,
        #[trigger] effects[i],
        key,
    ) by {
        let e = effects[i];
        let j = choose|j: int| 0 <= j < a.effects.len() && a.effects[j] == e;
        if prev == next {
            law_same_protocols(next_app, previous_app, replies);
            law_bounded(update_protocols_plan(next_app, previous_app), only_root(), replies);
        } else {
            law_update_custom_protocols(next_app, previous_app, replies);
            assert(is_protocol_update(removed, added, command, e));
            if exists|name: Seq<char>|
                added.contains(name) && #[trigger] protocol_effects(name, command).contains(e) {
                let name = choose|name: Seq<char>|
                    added.contains(name) && #[trigger] protocol_effects(name, command).contains(e);
                lemma_class_paths(fold, name, SHELL_OPEN_COMMAND_KEY@);
                assert(under(
                    folded(fold, class_path(name)),
                    folded(fold, class_path(name)),
                ));
            }
        }
    }
    law_unchanged_key(fold, effects, held, key);
}

/// Whichever requests of an update of the file associations are done, a key stays,
/// with its values, that is neither in the class of an extension to be removed or
/// added, nor in that of its program ID under the title of the next version, nor among
/// the file associations of the next version. So the program IDs under another title
/// of the previous version stay.
pub proof fn law_association_update_leaves_other_keys(
    fold: Folding,
    next_app: LocatorView,
    previous_app: Option<LocatorView>,
    replies: Seq<ReplyView>,
    effects: Seq<Effect>,
    held: Contents,
    key: Seq<char>,
)
    requires
        keeps_separator(fold),
        held.keys.contains(key),
        forall|i: int|
            0 <= i < effects.len() ==> run(
                update_associations_plan(next_app, previous_app),
                only_root(),
                replies,
            ).effects.contains(#[trigger] effects[i]),
        !under(folded(fold, file_associations_path(next_app)), key),
        forall|extension: Seq<char>|
            #![trigger class_path(extension)]
            removable(associations_of(previous_app), next_app.file_associations).contains(extension)
                || addable(associations_of(previous_app), next_app.file_associations).contains(
                extension,
            ) ==> !under(folded(fold, class_path(extension)), key) && !under(
                folded(fold, class_path(program_id(next_app.program_id_prefix(), extension))),
                key,
            ),
    ensures
        apply_all(fold, effects, held).keys.contains(key),
        apply_all(fold, effects, held).same_values(held, key),
{
    let prev = associations_of(previous_app);
    let next = next_app.file_associations;
    let removed = removable(prev, next);
    let added = addable(prev, next);
    let list = file_associations_path(next_app);
    let a = run(update_associations_plan(next_app, previous_app), only_root(), replies);
    law_update_file_associations(next_app, previous_app, replies);
    reveal_strlit("Software\\");
    reveal_strlit("FileAssociations");
    assert(list.len() > 0);
    assert(under(folded(fold, list), folded(fold, list)));
    assert forall|i: int| 0 <= i < effects.len() implies !changes_key(
        fold,
        #[trigger] effects[i],
        key,
    ) by {
        let e = effects[i];
        let j = choose|j: int| 0 <= j < a.effects.len() && a.effects[j] == e;
        assert(is_association_update(next_app, removed, added, e));
        if exists|extension: Seq<char>|
            removed.contains(extension) && #[trigger] association_removal_effects(
                next_app,
                extension,
            ).contains(e) {
            let extension = choose|extension: Seq<char>|
                removed.contains(extension) && #[trigger] association_removal_effects(
                    next_app,
                    extension,
                ).contains(e);
            let id = program_id(next_app.program_id_prefix(), extension);
            lemma_below_under(fold, list, id);
            assert(!under(folded(fold, class_path(extension)), key));
        } else if exists|extension: Seq<char>|
            added.contains(extension) && #[trigger] association_effects(
                next_app,
                extension,
                true,
            ).contains(e) {
            let extension = choose|extension: Seq<char>|
                added.contains(extension) && #[trigger] association_effects(
                    next_app,
                    extension,
                    true,
                ).contains(e);
            let id = program_id(next_app.program_id_prefix(), extension);
            lemma_class_paths(fold, id, DEFAULT_ICON_KEY@);
            lemma_class_paths(fold, id, SHELL_OPEN_COMMAND_KEY@);
            lemma_class_paths(fold, extension, OPEN_WITH_PROG_KEY@);
            assert(!under(folded(fold, class_path(extension)), key));
            assert(under(
                folded(fold, class_path(extension)),
                folded(fold, class_path(extension)),
            ));
        }
    }
    law_unchanged_key(fold, effects, held, key);
}

} // verus!
