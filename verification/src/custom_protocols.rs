//! The URL protocols that the application handles.
use vstd::prelude::*;
use vstd::string::*;

use crate::changes::{addable, changes, removable};
use crate::keys::{open_classes, open_software_classes, SHELL_OPEN_COMMAND_KEY};
use crate::locator::{open_command, option_locator, shell_open_command, Locator, LocatorView};
use crate::plan::{
    absorb, must, plan_of, set_text, Access, Key, Plan, PlanView, Request, Step, StepView,
};
use crate::text::{same_texts, texts};

verus! {

/// Deletes the class of a protocol.
pub open spec fn remove_protocol(classes: Key, name: Seq<char>) -> StepView {
    must(
        Request::DeleteTree { key: classes, sub_key: name },
        Some("Failed to recursively delete protocol "@ + name),
    )
}

/// Deletes the classes of these protocols, up to the first that cannot be deleted.
pub open spec fn remove_protocols(classes: Key, names: Seq<Seq<char>>) -> Seq<StepView> {
    names.map_values(|name: Seq<char>| remove_protocol(classes, name))
}

/// Creates the class of a protocol: its description, its mark as a URL protocol,
/// and the command that opens a URL.
pub open spec fn register_protocol(
    classes: Key,
    name: Seq<char>,
    command: Seq<char>,
) -> Seq<StepView> {
    seq![
        must(
            Request::CreateKey {
                parent: classes,
                sub_key: name,
                access: Access::AllAccess,
                opened: Key::Protocol,
            },
            Some("Failed to create subkey for protocol "@ + name),
        ),
        must(set_text(Key::Protocol, Seq::empty(), "URL:"@ + name + " protocol"@), None),
        must(set_text(Key::Protocol, "URL Protocol"@, Seq::empty()), None),
        must(
            Request::CreateKey {
                parent: Key::Protocol,
                sub_key: SHELL_OPEN_COMMAND_KEY@,
                access: Access::AllAccess,
                opened: Key::ProtocolCommand,
            },
            Some("Failed to create shell open command subkey for protocol "@ + name),
        ),
        must(
            set_text(Key::ProtocolCommand, Seq::empty(), command),
            Some("Failed to set shell open command for protocol "@ + name),
        ),
    ]
}

/// The keys that registering a protocol opens.
pub open spec fn protocol_keys() -> Set<Key> {
    set![Key::Protocol, Key::ProtocolCommand]
}

/// Creates the classes of these protocols, each whether or not the others succeed.
pub open spec fn register_protocols(
    classes: Key,
    names: Seq<Seq<char>>,
    command: Seq<char>,
) -> Seq<StepView>
    decreases names.len(),
{
    if names.len() == 0 {
        Seq::empty()
    } else {
        register_protocols(classes, names.drop_last(), command) + absorb(
            register_protocol(classes, names.last(), command),
        )
    }
}

/// The protocols of an application, of which there may be none.
pub open spec fn protocols_of(app: Option<LocatorView>) -> Seq<Seq<char>> {
    match app {
        Some(app) => app.custom_url_protocols,
        None => Seq::empty(),
    }
}

/// Nothing where the protocols are the same. Otherwise the protocols that are no
/// longer handled are removed and the new ones registered; neither can fail the
/// operation.
pub open spec fn update_protocols_plan(
    next_app: LocatorView,
    previous_app: Option<LocatorView>,
) -> PlanView {
    let prev = protocols_of(previous_app);
    let next = next_app.custom_url_protocols;
    if prev == next {
        plan_of(Seq::empty())
    } else {
        plan_of(
            seq![open_software_classes("Failed to create/open registry key"@)] + absorb(
                remove_protocols(Key::SoftwareClasses, removable(prev, next)),
            ) + absorb(
                register_protocols(
                    Key::SoftwareClasses,
                    addable(prev, next),
                    open_command(next_app.main_exe_path),
                ),
            ),
        )
    }
}

/// All protocols of the application are removed; that cannot fail the operation.
pub open spec fn remove_all_protocols_plan(locator: LocatorView) -> PlanView {
    plan_of(
        seq![open_software_classes("Failed to create/open registry key"@)] + absorb(
            remove_protocols(Key::SoftwareClasses, locator.custom_url_protocols),
        ),
    )
}

/// Replaces the protocols of the previous version of the application by those of
/// the next one.
pub fn create_or_update_custom_protocols(
    next_app: &Locator,
    previous_app: Option<&Locator>,
) -> (plan: Plan)
    ensures
        plan@ == update_protocols_plan(next_app@, option_locator(previous_app)),
{
    let none: Vec<String> = Vec::new();
    assert(texts(none@) =~= Seq::empty());
    let prev = match previous_app {
        Some(app) => &app.custom_url_protocols,
        None => &none,
    };
    let next = &next_app.custom_url_protocols;
    let mut plan = Plan::new();
    if prev.len() == 0 && next.len() == 0 {
        assert(texts(prev@) =~= texts(next@));
        return plan;
    }
    if same_texts(prev, next) {
        return plan;
    }
    let (removable_protocols, new_protocols) = changes(prev, next);
    plan.push(open_classes("Failed to create/open registry key"));
    plan.append(remove_custom_protocols(Key::SoftwareClasses, &removable_protocols).absorb());
    plan.append(
        register_custom_protocols(next_app, Key::SoftwareClasses, &new_protocols).absorb(),
    );
    assert(plan@ =~= update_protocols_plan(next_app@, option_locator(previous_app)));
    plan
}

/// Removes protocols, up to the first that cannot be removed.
pub fn remove_custom_protocols(
    reg_software_classes_key: Key,
    protocols: &Vec<String>,
) -> (plan: Plan)
    ensures
        plan@ == plan_of(remove_protocols(reg_software_classes_key, texts(protocols@))),
{
    let mut plan = Plan::new();
    let ghost all = remove_protocols(reg_software_classes_key, texts(protocols@));
    assert(plan@.steps =~= all.take(0));
    let mut i: usize = 0;
    while i < protocols.len()
        invariant
            i <= protocols.len(),
            all == remove_protocols(reg_software_classes_key, texts(protocols@)),
            plan@ == plan_of(all.take(i as int)),
        decreases protocols.len() - i,
    {
        let protocol_name = protocols[i].as_str();
        plan.push(
            Step::must(
                Request::delete_tree(reg_software_classes_key, protocol_name),
                "Failed to recursively delete protocol ".to_string().concat(protocol_name),
            ),
        );
        i = i + 1;
        assert(plan@.steps =~= all.take(i as int));
    }
    assert(plan@.steps =~= all);
    plan
}

/// Registers protocols with the main executable of the application, each whether
/// or not the others succeed. Registering one opens keys of its own, so the key that
/// holds the classes is none of these.
pub fn register_custom_protocols(
    locator: &Locator,
    reg_software_classes_key: Key,
    new_protocols: &Vec<String>,
) -> (plan: Plan)
    requires
        !protocol_keys().contains(reg_software_classes_key),
    ensures
        plan@ == plan_of(
            register_protocols(
                reg_software_classes_key,
                texts(new_protocols@),
                open_command(locator@.main_exe_path),
            ),
        ),
{
    let app_shell_open_cmd = shell_open_command(locator.main_exe_path.as_str());
    let mut plan = Plan::new();
    let mut i: usize = 0;
    while i < new_protocols.len()
        invariant
            i <= new_protocols.len(),
            plan@ == plan_of(
                register_protocols(
                    reg_software_classes_key,
                    texts(new_protocols@).take(i as int),
                    app_shell_open_cmd@,
                ),
            ),
        decreases new_protocols.len() - i,
    {
        plan.append(
            register_single_protocol(
                reg_software_classes_key,
                &new_protocols[i],
                &app_shell_open_cmd,
            ).absorb(),
        );
        i = i + 1;
        assert(texts(new_protocols@).take(i as int).drop_last() =~= texts(new_protocols@).take(
            i - 1,
        ));
    }
    assert(texts(new_protocols@).take(i as int) =~= texts(new_protocols@));
    plan
}

/// Registers one protocol with a command.
pub fn register_single_protocol(
    reg_software_classes_key: Key,
    protocol_name: &String,
    app_shell_open_cmd: &String,
) -> (plan: Plan)
    ensures
        plan@ == plan_of(
            register_protocol(reg_software_classes_key, protocol_name@, app_shell_open_cmd@),
        ),
{
    let name = protocol_name.as_str();
    let mut plan = Plan::new();
    plan.push(
        Step::must(
            Request::create_key(
                reg_software_classes_key,
                name,
                Access::AllAccess,
                Key::Protocol,
            ),
            "Failed to create subkey for protocol ".to_string().concat(name),
        ),
    );
    let description = "URL:".to_string().concat(name).concat(" protocol");
    plan.push(
        Step::must_bare(Request::set_default(Key::Protocol, description.as_str())),
    );
    plan.push(
        Step::must_bare(Request::set_empty(Key::Protocol, "URL Protocol")),
    );
    plan.push(
        Step::must(
            Request::create_key(
                Key::Protocol,
                SHELL_OPEN_COMMAND_KEY,
                Access::AllAccess,
                Key::ProtocolCommand,
            ),
            "Failed to create shell open command subkey for protocol ".to_string().concat(name),
        ),
    );
    plan.push(
        Step::must(
            Request::set_default(Key::ProtocolCommand, app_shell_open_cmd.as_str()),
            "Failed to set shell open command for protocol ".to_string().concat(name),
        ),
    );
    assert(plan@.steps =~= register_protocol(
        reg_software_classes_key,
        protocol_name@,
        app_shell_open_cmd@,
    ));
    plan
}

/// Removes all protocols of the application.
pub fn remove_all_custom_protocols(locator: &Locator) -> (plan: Plan)
    ensures
        plan@ == remove_all_protocols_plan(locator@),
{
    let mut plan = Plan::new();
    plan.push(open_classes("Failed to create/open registry key"));
    plan.append(
        remove_custom_protocols(Key::SoftwareClasses, &locator.custom_url_protocols).absorb(),
    );
    assert(plan@ =~= remove_all_protocols_plan(locator@));
    plan
}

} // verus!
