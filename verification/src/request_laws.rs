//! What each operation asks for, request by request.
use vstd::prelude::*;

use crate::association_laws::{
    association_removal_effects, is_association_update, law_update_file_associations,
};
use crate::changes::{addable, law_changes, removable};
use crate::clock::Date;
use crate::custom_protocols::{
    register_protocol, register_protocols, remove_all_protocols_plan, remove_protocols,
    update_protocols_plan,
};
use crate::default_program::{
    default_program_plan, law_register_default_program, remove_default_program_plan,
};
use crate::file_associations::{
    add_association, add_associations, add_each_association, associations_of,
    open_file_associations, program_id, remove_all_associations_plan, remove_association,
    remove_associations, remove_each_association, shell_open_command_steps,
    update_associations_plan,
};
use crate::keys::{class_path, open_capabilities, open_software_classes};
use crate::locator::{open_command, LocatorView};
use crate::plan::{
    absorb, Access, Failure, FailureView, Key, OnFailure, OnSuccess, ReplyView, Request,
    RequestView, StepView, Value,
};
use crate::run::{only_root, run, touched, Effect};
use crate::uninstall::{
    estimated_size, install_date, quiet_uninstall_command, remove_entry_plan, uninstall_command,
    uninstall_entry_plan,
};
use crate::wording::{
    law_capability_path, law_capability_paths_differ, law_program_id_of_title,
    law_program_ids_differ,
};

verus! {

/// A step asks for this; if it fails, the operation fails with this context.
pub open spec fn fails_with(
    step: StepView,
    request: RequestView,
    context: Option<Seq<char>>,
) -> bool {
    &&& step.request == request
    &&& step.on_success is Continue
    &&& step.on_failure == (OnFailure::<Seq<char>, nat>::Abort { context })
}

/// A step asks for this; if it fails, so many steps are left out.
pub open spec fn skips(step: StepView, request: RequestView, n: int) -> bool {
    &&& step.request == request
    &&& step.on_success is Continue
    &&& step.on_failure == OnFailure::<Seq<char>, nat>::Skip(n as nat)
}

/// A step asks for the same as another and goes on after success in the same way. If
/// the other would fail the operation, so many steps are left out instead.
pub open spec fn ignores(step: StepView, other: StepView, n: int) -> bool {
    &&& step.request == other.request
    &&& step.on_success == other.on_success
    &&& match other.on_failure {
        OnFailure::Abort { .. } => step.on_failure == OnFailure::<Seq<char>, nat>::Skip(n as nat),
        OnFailure::Skip(_) => step.on_failure == other.on_failure,
    }
}

/// Opening a key, creating it where it does not exist.
pub open spec fn opening(
    parent: Key,
    sub_key: Seq<char>,
    access: Access,
    opened: Key,
) -> RequestView {
    Request::CreateKey { parent, sub_key, access, opened }
}

/// Writing a string.
pub open spec fn writing(key: Key, name: Seq<char>, text: Seq<char>) -> RequestView {
    Request::SetValue { key, name, value: Value::Sz(text) }
}

/// Writing a number.
pub open spec fn counting(key: Key, name: Seq<char>, number: u32) -> RequestView {
    Request::SetValue { key, name, value: Value::Dword(number) }
}

/// `Software\Classes` and the capabilities of an application are opened below the key
/// of the current user, to create keys in them; a failure is told with its context.
pub proof fn law_opened_keys(locator: LocatorView, context: Seq<char>)
    ensures
        fails_with(
            open_software_classes(context),
            opening(
                Key::CurrentUser,
                "Software\\Classes"@,
                Access::CreateSubKey,
                Key::SoftwareClasses,
            ),
            Some(context),
        ),
        fails_with(
            open_capabilities(locator),
            opening(
                Key::CurrentUser,
                locator.capability_path(),
                Access::CreateSubKey,
                Key::Capabilities,
            ),
            Some("Failed to create/open application capability key"@),
        ),
{
}

/// Registering as a default program writes the title to the capabilities, and to the
/// list of registered applications, under the ID, the very path at which the
/// capabilities were created.
pub proof fn law_default_program_requests(locator: LocatorView)
    ensures
        ({
            let plan = default_program_plan(locator);
            let path = plan.steps[0].request->CreateKey_sub_key;
            &&& plan.outcome is Ok
            &&& plan.steps.len() == 5
            &&& path == locator.capability_path()
            &&& fails_with(
                plan.steps[0],
                opening(Key::CurrentUser, path, Access::CreateSubKey, Key::Capabilities),
                Some("Failed to create/open application capability key"@),
            )
            &&& fails_with(
                plan.steps[1],
                writing(Key::Capabilities, "ApplicationDescription"@, "some description"@),
                None,
            )
            &&& fails_with(
                plan.steps[2],
                writing(Key::Capabilities, "ApplicationName"@, locator.manifest_title),
                None,
            )
            &&& fails_with(
                plan.steps[3],
                opening(
                    Key::CurrentUser,
                    "Software\\RegisteredApplications"@,
                    Access::CreateSubKey,
                    Key::RegisteredApplications,
                ),
                Some("Failed to create/open software registered applications key"@),
            )
            &&& fails_with(
                plan.steps[4],
                writing(Key::RegisteredApplications, locator.manifest_id, path),
                None,
            )
        }),
{
}

/// Unregistering deletes, below `Software\Classes`, the tree with the path of the
/// capabilities, as far as that can be done.
pub proof fn law_unregister_requests(locator: LocatorView)
    ensures
        ({
            let plan = remove_default_program_plan(locator);
            &&& plan.outcome is Ok
            &&& plan.steps.len() == 2
            &&& fails_with(
                plan.steps[0],
                opening(
                    Key::CurrentUser,
                    "Software\\Classes"@,
                    Access::CreateSubKey,
                    Key::SoftwareClasses,
                ),
                Some("Failed to create/open registry key"@),
            )
            &&& skips(
                plan.steps[1],
                Request::DeleteTree {
                    key: Key::SoftwareClasses,
                    sub_key: locator.capability_path(),
                },
                0,
            )
        }),
{
}

/// However registering goes, it touches no capabilities but its own: not those of an
/// application by the same authors with another title, nor those of one with the same
/// title by other authors.
pub proof fn law_registering_leaves_other_capabilities(
    locator: LocatorView,
    other: LocatorView,
    replies: Seq<ReplyView>,
    i: int,
)
    requires
        locator.manifest_authors == other.manifest_authors && locator.manifest_title
            != other.manifest_title || locator.manifest_title == other.manifest_title
            && locator.manifest_authors != other.manifest_authors,
        0 <= i < run(default_program_plan(locator), only_root(), replies).effects.len(),
    ensures
        touched(run(default_program_plan(locator), only_root(), replies).effects[i])
            != other.capability_path(),
{
    law_register_default_program(locator, replies);
    law_capability_path(other);
    if locator.capability_path() == other.capability_path() {
        law_capability_paths_differ(locator, other);
    }
    let path = other.capability_path();
    reveal_strlit("Software\\RegisteredApplications");
    if path == "Software\\RegisteredApplications"@ {
        assert(path[path.len() - 13] == '\\');
    }
}

/// Registering a protocol creates its class under its whole name, describes it as
/// `URL:`, the name and ` protocol`, marks it, and writes the command to its open
/// command. Each step fails the registration.
pub proof fn law_protocol_requests(classes: Key, name: Seq<char>, command: Seq<char>)
    ensures
        ({
            let steps = register_protocol(classes, name, command);
            let n = name.len() as int;
            let description = steps[1].request->SetValue_value->Sz_0;
            &&& steps.len() == 5
            &&& fails_with(
                steps[0],
                opening(classes, name, Access::AllAccess, Key::Protocol),
                Some("Failed to create subkey for protocol "@ + name),
            )
            &&& fails_with(steps[1], writing(Key::Protocol, seq![], description), None)
            &&& description.len() == n + 13
            &&& description.subrange(0, 4) == "URL:"@
            &&& description.subrange(4, n + 4) == name
            &&& description.subrange(n + 4, n + 13) == " protocol"@
            &&& fails_with(steps[2], writing(Key::Protocol, "URL Protocol"@, seq![]), None)
            &&& fails_with(
                steps[3],
                opening(
                    Key::Protocol,
                    "shell\\open\\command"@,
                    Access::AllAccess,
                    Key::ProtocolCommand,
                ),
                Some("Failed to create shell open command subkey for protocol "@ + name),
            )
            &&& fails_with(
                steps[4],
                writing(Key::ProtocolCommand, seq![], command),
                Some("Failed to set shell open command for protocol "@ + name),
            )
        }),
{
    let n = name.len() as int;
    let description = register_protocol(classes, name, command)[1].request->SetValue_value->Sz_0;
    reveal_strlit("URL:");
    reveal_strlit(" protocol");
    assert(description.subrange(0, 4) =~= "URL:"@);
    assert(description.subrange(4, n + 4) =~= name);
    assert(description.subrange(n + 4, n + 13) =~= " protocol"@);
}

/// Protocols are registered one after the other, each in five steps as it would be
/// alone; a failure leaves out what is left of that protocol.
pub proof fn law_protocols_requests(classes: Key, names: Seq<Seq<char>>, command: Seq<char>)
    ensures
        ({
            let steps = register_protocols(classes, names, command);
            &&& steps.len() == 5 * names.len()
            &&& forall|j: int|
                #![trigger steps[j]]
                0 <= j < steps.len() ==> ignores(
                    steps[j],
                    register_protocol(classes, names[j / 5], command)[j % 5],
                    4 - j % 5,
                ) && steps[j].on_failure is Skip
        }),
    decreases names.len(),
{
    if names.len() > 0 {
        let first = register_protocols(classes, names.drop_last(), command);
        let last = register_protocol(classes, names.last(), command);
        let steps = register_protocols(classes, names, command);
        law_protocols_requests(classes, names.drop_last(), command);
        assert forall|j: int| #![trigger steps[j]] 0 <= j < steps.len() implies ignores(
            steps[j],
            register_protocol(classes, names[j / 5], command)[j % 5],
            4 - j % 5,
        ) && steps[j].on_failure is Skip by {
            if j < first.len() {
                assert(steps[j] == first[j]);
                assert(names.drop_last()[j / 5] == names[j / 5]);
            } else {
                let k = j - first.len();
                assert(steps[j] == absorb(last)[k]);
                assert(j / 5 == names.len() - 1 && j % 5 == k);
            }
        }
    }
}

/// Protocols are removed one after the other, each by deleting the tree with its whole
/// name; a failure names the protocol.
pub proof fn law_protocol_removal_requests(classes: Key, names: Seq<Seq<char>>)
    ensures
        ({
            let steps = remove_protocols(classes, names);
            &&& steps.len() == names.len()
            &&& forall|i: int|
                #![trigger steps[i]]
                0 <= i < names.len() ==> fails_with(
                    steps[i],
                    Request::DeleteTree { key: classes, sub_key: names[i] },
                    Some("Failed to recursively delete protocol "@ + names[i]),
                )
        }),
{
}

/// An update of the protocols asks for nothing where the lists are the same.
/// Otherwise it opens `Software\Classes`, deletes the tree of each protocol that was
/// and is no longer, and registers each that is and was not, with the main executable
/// of the next version.
pub proof fn law_protocol_update_requests(
    next_app: LocatorView,
    previous_app: Option<LocatorView>,
)
    ensures
        ({
            let prev = match previous_app {
                Some(app) => app.custom_url_protocols,
                None => Seq::empty(),
            };
            let next = next_app.custom_url_protocols;
            let plan = update_protocols_plan(next_app, previous_app);
            let removed = removable(prev, next);
            let added = addable(prev, next);
            let r = removed.len() as int;
            let registration = register_protocols(
                Key::SoftwareClasses,
                added,
                open_command(next_app.main_exe_path),
            );
            &&& plan.outcome is Ok
            &&& prev == next ==> plan.steps.len() == 0
            &&& prev != next ==> {
                &&& plan.steps.len() == 1 + r + 5 * added.len()
                &&& fails_with(
                    plan.steps[0],
                    opening(
                        Key::CurrentUser,
                        "Software\\Classes"@,
                        Access::CreateSubKey,
                        Key::SoftwareClasses,
                    ),
                    Some("Failed to create/open registry key"@),
                )
                &&& forall|j: int|
                    #![trigger plan.steps[j]]
                    1 <= j < 1 + r ==> skips(
                        plan.steps[j],
                        Request::DeleteTree { key: Key::SoftwareClasses, sub_key: removed[j - 1] },
                        r - j,
                    )
                &&& forall|j: int|
                    #![trigger plan.steps[j]]
                    1 + r <= j < plan.steps.len() ==> plan.steps[j] == registration[j - 1 - r]
            }
        }),
{
    let prev = match previous_app {
        Some(app) => app.custom_url_protocols,
        None => Seq::empty(),
    };
    let next = next_app.custom_url_protocols;
    let removed = removable(prev, next);
    let added = addable(prev, next);
    law_protocol_removal_requests(Key::SoftwareClasses, removed);
    law_protocols_requests(Key::SoftwareClasses, added, open_command(next_app.main_exe_path));
}

/// Removing all protocols opens `Software\Classes` and deletes the tree of each, up to
/// the first that cannot be deleted.
pub proof fn law_all_protocols_removal_requests(locator: LocatorView)
    ensures
        ({
            let plan = remove_all_protocols_plan(locator);
            let names = locator.custom_url_protocols;
            &&& plan.outcome is Ok
            &&& plan.steps.len() == 1 + names.len()
            &&& fails_with(
                plan.steps[0],
                opening(
                    Key::CurrentUser,
                    "Software\\Classes"@,
                    Access::CreateSubKey,
                    Key::SoftwareClasses,
                ),
                Some("Failed to create/open registry key"@),
            )
            &&& forall|j: int|
                #![trigger plan.steps[j]]
                1 <= j <= names.len() ==> skips(
                    plan.steps[j],
                    Request::DeleteTree { key: Key::SoftwareClasses, sub_key: names[j - 1] },
                    names.len() - j,
                )
        }),
{
    law_protocol_removal_requests(Key::SoftwareClasses, locator.custom_url_protocols);
}

/// The open command of a class is created below it and holds the command that opens
/// something with the executable; a failure names the executable.
pub proof fn law_open_command_requests(class: Key, app_path: Seq<char>)
    ensures
        ({
            let steps = shell_open_command_steps(class, app_path);
            &&& steps.len() == 2
            &&& fails_with(
                steps[0],
                opening(
                    class,
                    "shell\\open\\command"@,
                    Access::AllAccess,
                    Key::ProgramCommand,
                ),
                Some("Failed to create shell open command subkey for app path "@ + app_path),
            )
            &&& fails_with(
                steps[1],
                writing(Key::ProgramCommand, seq![], open_command(app_path)),
                Some("Failed to set shell open command app path "@ + app_path),
            )
        }),
{
}

/// Associating an extension creates the class of the program ID, which is the prefix,
/// a dot and the extension, with its icon and its open command; then the class of the
/// extension, in which the program ID is cleared as default and offered to open; then
/// the entry of the extension, after a dot, among the file associations.
pub proof fn law_association_requests(
    classes: Key,
    file_associations: Key,
    extension: Seq<char>,
    prefix: Seq<char>,
    icon_url: Seq<char>,
    app_path: Seq<char>,
)
    ensures
        ({
            let steps = add_association(
                classes,
                file_associations,
                extension,
                prefix,
                icon_url,
                app_path,
            );
            let command = shell_open_command_steps(Key::Program, app_path);
            let id = prefix + "."@ + extension;
            &&& steps.len() == 11
            &&& fails_with(
                steps[0],
                opening(classes, id, Access::AllAccess, Key::Program),
                Some("Failed to create program subkey for file extension "@ + extension),
            )
            &&& fails_with(
                steps[1],
                opening(Key::Program, "DefaultIcon"@, Access::AllAccess, Key::ProgramIcon),
                Some("Failed to create icon subkey for file extension "@ + extension),
            )
            &&& fails_with(steps[2], writing(Key::ProgramIcon, seq![], icon_url), None)
            &&& ignores(steps[3], command[0], 1)
            &&& ignores(steps[4], command[1], 0)
            &&& fails_with(
                steps[5],
                opening(classes, extension, Access::AllAccess, Key::Extension),
                Some("Failed to create subkey for file extension "@ + extension),
            )
            &&& steps[6].request == (Request::<Seq<char>>::GetValue {
                key: Key::Extension,
                sub_key: seq![],
                name: seq![],
            })
            &&& steps[6].on_success == (OnSuccess::<Seq<char>, nat>::ContinueIfText {
                text: id,
                otherwise_skip: 1,
            })
            &&& steps[6].on_failure == (OnFailure::<Seq<char>, nat>::Abort { context: None })
            &&& fails_with(steps[7], writing(Key::Extension, seq![], seq![]), None)
            &&& fails_with(
                steps[8],
                opening(
                    Key::Extension,
                    "OpenWithProgIds"@,
                    Access::AllAccess,
                    Key::OpenWith,
                ),
                Some("Failed to create open with subkey for file extension "@ + extension),
            )
            &&& fails_with(steps[9], writing(Key::OpenWith, id, seq![]), None)
            &&& skips(steps[10], writing(file_associations, seq!['.'] + extension, id), 0)
        }),
{
    reveal_strlit(".");
    assert("."@ =~= seq!['.']);
}

/// Extensions are associated one after the other, each in eleven steps as it would be
/// alone, with the title, the icon and the main executable of the application; a
/// failure leaves out what is left of that extension.
pub proof fn law_associations_requests(
    locator: LocatorView,
    classes: Key,
    extensions: Seq<Seq<char>>,
)
    ensures
        ({
            let steps = add_each_association(locator, classes, extensions);
            &&& steps.len() == 11 * extensions.len()
            &&& forall|j: int|
                #![trigger steps[j]]
                0 <= j < steps.len() ==> ignores(
                    steps[j],
                    add_association(
                        classes,
                        Key::FileAssociations,
                        extensions[j / 11],
                        locator.program_id_prefix(),
                        locator.icon_url,
                        locator.main_exe_path,
                    )[j % 11],
                    10 - j % 11,
                ) && steps[j].on_failure is Skip
        }),
    decreases extensions.len(),
{
    if extensions.len() > 0 {
        let shorter = extensions.drop_last();
        let first = add_each_association(locator, classes, shorter);
        let last = add_association(
            classes,
            Key::FileAssociations,
            extensions.last(),
            locator.program_id_prefix(),
            locator.icon_url,
            locator.main_exe_path,
        );
        let steps = add_each_association(locator, classes, extensions);
        law_associations_requests(locator, classes, shorter);
        assert(last.len() == 11);
        assert forall|j: int| #![trigger steps[j]] 0 <= j < steps.len() implies ignores(
            steps[j],
            add_association(
                classes,
                Key::FileAssociations,
                extensions[j / 11],
                locator.program_id_prefix(),
                locator.icon_url,
                locator.main_exe_path,
            )[j % 11],
            10 - j % 11,
        ) && steps[j].on_failure is Skip by {
            if j < first.len() {
                assert(steps[j] == first[j]);
                assert(shorter[j / 11] == extensions[j / 11]);
            } else {
                let k = j - first.len();
                assert(steps[j] == absorb(last)[k]);
                assert(j / 11 == extensions.len() - 1 && j % 11 == k);
            }
        }
    }
}

/// The file associations of the application are opened below its capabilities.
pub proof fn law_opening_requests(locator: LocatorView)
    ensures
        ({
            let steps = open_file_associations(locator);
            &&& steps.len() == 2
            &&& fails_with(
                steps[0],
                opening(
                    Key::CurrentUser,
                    locator.capability_path(),
                    Access::CreateSubKey,
                    Key::Capabilities,
                ),
                Some("Failed to create/open application capability key"@),
            )
            &&& fails_with(
                steps[1],
                opening(
                    Key::Capabilities,
                    "FileAssociations"@,
                    Access::AllAccess,
                    Key::FileAssociations,
                ),
                Some("Failed to create subkey for file associations"@),
            )
        }),
{
}

/// Adding extensions opens the file associations of the application, then associates
/// them; removing extensions opens them too, then removes them. With no extension
/// nothing is asked for.
pub proof fn law_opened_requests(
    locator: LocatorView,
    classes: Key,
    extensions: Seq<Seq<char>>,
)
    ensures
        ({
            let first = open_file_associations(locator);
            let added = add_associations(locator, classes, extensions);
            let removed = remove_associations(locator, classes, extensions);
            &&& extensions.len() == 0 ==> added.len() == 0 && removed.len() == 0
            &&& extensions.len() > 0 ==> {
                &&& added.len() == 2 + 11 * extensions.len()
                &&& forall|j: int|
                    0 <= j < added.len() ==> #[trigger] added[j] == if j < 2 {
                        first[j]
                    } else {
                        add_each_association(locator, classes, extensions)[j - 2]
                    }
                &&& removed.len() == 2 + 3 * extensions.len()
                &&& forall|j: int|
                    0 <= j < removed.len() ==> #[trigger] removed[j] == if j < 2 {
                        first[j]
                    } else {
                        remove_each_association(locator, classes, extensions)[j - 2]
                    }
            }
        }),
{
    law_opening_requests(locator);
    law_associations_requests(locator, classes, extensions);
    law_extension_removal_requests(locator, classes, extensions);
}

/// Removing an extension deletes the tree of its program ID, which is the prefix, a
/// dot and the extension, then the tree of the extension, then the program ID among
/// the file associations. Each failure names the extension.
pub proof fn law_single_extension_removal_requests(
    classes: Key,
    file_associations: Key,
    extension: Seq<char>,
    prefix: Seq<char>,
)
    ensures
        ({
            let steps = remove_association(classes, file_associations, extension, prefix);
            let id = prefix + "."@ + extension;
            &&& steps.len() == 3
            &&& fails_with(
                steps[0],
                Request::DeleteTree { key: classes, sub_key: id },
                Some("Failed to recursively delete program ID for extension "@ + extension),
            )
            &&& fails_with(
                steps[1],
                Request::DeleteTree { key: classes, sub_key: extension },
                Some("Failed to recursively delete sub key for extension "@ + extension),
            )
            &&& fails_with(
                steps[2],
                Request::DeleteKey { key: file_associations, sub_key: id },
                Some("Failed to delete app capabilities key for extension "@ + extension),
            )
        }),
{
}

/// Extensions are removed one after the other, each in three steps as it would be
/// alone, under the title of the application.
pub proof fn law_extension_removal_requests(
    locator: LocatorView,
    classes: Key,
    extensions: Seq<Seq<char>>,
)
    ensures
        ({
            let steps = remove_each_association(locator, classes, extensions);
            &&& steps.len() == 3 * extensions.len()
            &&& forall|j: int|
                #![trigger steps[j]]
                0 <= j < steps.len() ==> steps[j] == remove_association(
                    classes,
                    Key::FileAssociations,
                    extensions[j / 3],
                    locator.program_id_prefix(),
                )[j % 3]
        }),
    decreases extensions.len(),
{
    if extensions.len() > 0 {
        let shorter = extensions.drop_last();
        let first = remove_each_association(locator, classes, shorter);
        let last = remove_association(
            classes,
            Key::FileAssociations,
            extensions.last(),
            locator.program_id_prefix(),
        );
        let steps = remove_each_association(locator, classes, extensions);
        law_extension_removal_requests(locator, classes, shorter);
        assert forall|j: int| #![trigger steps[j]] 0 <= j < steps.len() implies steps[j]
            == remove_association(
            classes,
            Key::FileAssociations,
            extensions[j / 3],
            locator.program_id_prefix(),
        )[j % 3] by {
            if j < first.len() {
                assert(steps[j] == first[j]);
                assert(shorter[j / 3] == extensions[j / 3]);
            } else {
                assert(steps[j] == last[j - first.len()]);
                assert(j / 3 == extensions.len() - 1 && j % 3 == j - first.len());
            }
        }
    }
}

/// An update of the file associations opens `Software\Classes`, removes each extension
/// that was and is no longer, and adds each that is and was not, under the title of the
/// next version. A failure leaves out what is left of the removals, or of the
/// additions.
pub proof fn law_association_update_requests(
    next_app: LocatorView,
    previous_app: Option<LocatorView>,
)
    ensures
        ({
            let prev = match previous_app {
                Some(app) => app.file_associations,
                None => Seq::empty(),
            };
            let next = next_app.file_associations;
            let plan = update_associations_plan(next_app, previous_app);
            let removal = remove_associations(
                next_app,
                Key::SoftwareClasses,
                removable(prev, next),
            );
            let addition = add_associations(next_app, Key::SoftwareClasses, addable(prev, next));
            let r = removal.len() as int;
            let n = plan.steps.len() as int;
            &&& plan.outcome is Ok
            &&& n == 1 + r + addition.len()
            &&& fails_with(
                plan.steps[0],
                opening(
                    Key::CurrentUser,
                    "Software\\Classes"@,
                    Access::CreateSubKey,
                    Key::SoftwareClasses,
                ),
                Some("Failed to create/open software classes registry key"@),
            )
            &&& forall|j: int|
                #![trigger plan.steps[j]]
                1 <= j < 1 + r ==> ignores(plan.steps[j], removal[j - 1], r - j)
            &&& forall|j: int|
                #![trigger plan.steps[j]]
                1 + r <= j < n ==> ignores(plan.steps[j], addition[j - 1 - r], n - 1 - j)
        }),
{
}

/// Removing all file associations opens `Software\Classes`, deletes the tree with the
/// path of the capabilities there, as far as that can be done, and removes each
/// extension, up to the first failure.
pub proof fn law_all_associations_removal_requests(locator: LocatorView)
    ensures
        ({
            let plan = remove_all_associations_plan(locator);
            let removal = remove_associations(
                locator,
                Key::SoftwareClasses,
                locator.file_associations,
            );
            let n = plan.steps.len() as int;
            &&& plan.outcome is Ok
            &&& n == 2 + removal.len()
            &&& fails_with(
                plan.steps[0],
                opening(
                    Key::CurrentUser,
                    "Software\\Classes"@,
                    Access::CreateSubKey,
                    Key::SoftwareClasses,
                ),
                Some("Failed to create/open registry key"@),
            )
            &&& skips(
                plan.steps[1],
                Request::DeleteTree {
                    key: Key::SoftwareClasses,
                    sub_key: locator.capability_path(),
                },
                0,
            )
            &&& forall|j: int|
                #![trigger plan.steps[j]]
                2 <= j < n ==> ignores(plan.steps[j], removal[j - 2], n - 1 - j)
        }),
{
}

/// However an update goes, it never asks to delete the program ID of an extension that
/// stays, which is the title, `.File.` and the extension below `Software\Classes`;
/// unless an extension that is to be removed is itself spelled like that program ID.
pub proof fn law_update_keeps_program_ids(
    next_app: LocatorView,
    previous_app: Option<LocatorView>,
    extension: Seq<char>,
    replies: Seq<ReplyView>,
    i: int,
)
    requires
        next_app.file_associations.contains(extension),
        !removable(associations_of(previous_app), next_app.file_associations).contains(
            next_app.manifest_title + ".File."@ + extension,
        ),
        0 <= i < run(
            update_associations_plan(next_app, previous_app),
            only_root(),
            replies,
        ).effects.len(),
    ensures
        run(update_associations_plan(next_app, previous_app), only_root(), replies).effects[i] != (
        Effect::DeleteTree {
            path: "Software\\Classes\\"@ + next_app.manifest_title + ".File."@ + extension,
        }),
{
    let prev = associations_of(previous_app);
    let next = next_app.file_associations;
    let removed = removable(prev, next);
    let added = addable(prev, next);
    let id = next_app.manifest_title + ".File."@ + extension;
    let path = "Software\\Classes\\"@ + next_app.manifest_title + ".File."@ + extension;
    let a = run(update_associations_plan(next_app, previous_app), only_root(), replies);
    let e = a.effects[i];
    law_update_file_associations(next_app, previous_app, replies);
    law_changes(prev, next);
    assert(is_association_update(next_app, removed, added, e));
    reveal_strlit("Software\\Classes\\");
    reveal_strlit("Software\\Classes");
    reveal_strlit(".File.");
    if e == (Effect::DeleteTree { path }) {
        assert(exists|x: Seq<char>|
            removed.contains(x) && #[trigger] association_removal_effects(
                next_app,
                x,
            ).contains(e));
        let x = choose|x: Seq<char>|
            removed.contains(x) && #[trigger] association_removal_effects(
                next_app,
                x,
            ).contains(e);
        let x_id = program_id(next_app.program_id_prefix(), x);
        law_program_id_of_title(next_app, x);
        law_program_id_of_title(next_app, extension);
        assert(path == class_path(x_id) || path == class_path(x));
        assert(path.skip(17) =~= id);
        if path == class_path(x_id) {
            assert(class_path(x_id).skip(17) =~= x_id);
            law_program_ids_differ(next_app, next_app, extension, x);
        } else {
            assert(class_path(x).skip(17) =~= x);
        }
    }
}

/// The entry of the application holds its executable, title, version, install date,
/// directory, authors and the commands that uninstall it; then, unless the size has
/// more than 32 bits, the size and three settled numbers. With a size of more than 32
/// bits the operation fails instead.
pub proof fn law_uninstall_entry_requests(
    locator: LocatorView,
    folder_size: Option<u64>,
    today: Date,
)
    ensures
        ({
            let plan = uninstall_entry_plan(locator, folder_size, today);
            let size = estimated_size(folder_size);
            &&& plan.steps.len() == if size > 0xffff_ffff {
                10int
            } else {
                14int
            }
            &&& plan.outcome == if size > 0xffff_ffff {
                Err::<(), FailureView>(Failure::SizeOutOfRange)
            } else {
                Ok(())
            }
            &&& fails_with(
                plan.steps[0],
                opening(
                    Key::CurrentUser,
                    "Software\\Microsoft\\Windows\\CurrentVersion\\Uninstall"@,
                    Access::CreateSubKey,
                    Key::Uninstall,
                ),
                None,
            )
            &&& fails_with(
                plan.steps[1],
                opening(
                    Key::Uninstall,
                    locator.manifest_id,
                    Access::AllAccess,
                    Key::UninstallEntry,
                ),
                None,
            )
            &&& holds(plan.steps[2], "DisplayIcon"@, locator.main_exe_path)
            &&& holds(plan.steps[3], "DisplayName"@, locator.manifest_title)
            &&& holds(plan.steps[4], "DisplayVersion"@, locator.manifest_version_short)
            &&& holds(plan.steps[5], "InstallDate"@, install_date(today))
            &&& holds(plan.steps[6], "InstallLocation"@, locator.root_dir)
            &&& holds(plan.steps[7], "Publisher"@, locator.manifest_authors)
            &&& holds(
                plan.steps[8],
                "QuietUninstallString"@,
                quiet_uninstall_command(locator.update_path),
            )
            &&& holds(plan.steps[9], "UninstallString"@, uninstall_command(locator.update_path))
            &&& size <= 0xffff_ffff ==> {
                &&& counts(plan.steps[10], "EstimatedSize"@, size as int)
                &&& counts(plan.steps[11], "NoModify"@, 1)
                &&& counts(plan.steps[12], "NoRepair"@, 1)
                &&& counts(plan.steps[13], "Language"@, 1033)
            }
        }),
{
}

/// A step writes a string of the entry; if that fails, the operation fails.
pub open spec fn holds(step: StepView, name: Seq<char>, text: Seq<char>) -> bool {
    fails_with(step, writing(Key::UninstallEntry, name, text), None)
}

/// A step writes a number of the entry; if that fails, the operation fails.
pub open spec fn counts(step: StepView, name: Seq<char>, number: int) -> bool {
    fails_with(step, counting(Key::UninstallEntry, name, number as u32), None)
}

/// Removing the entry deletes the key with the whole ID from the list of installed
/// programs.
pub proof fn law_entry_removal_requests(locator: LocatorView)
    ensures
        ({
            let plan = remove_entry_plan(locator);
            &&& plan.outcome is Ok
            &&& plan.steps.len() == 2
            &&& fails_with(
                plan.steps[0],
                opening(
                    Key::CurrentUser,
                    "Software\\Microsoft\\Windows\\CurrentVersion\\Uninstall"@,
                    Access::CreateSubKey,
                    Key::Uninstall,
                ),
                None,
            )
            &&& fails_with(
                plan.steps[1],
                Request::DeleteKey { key: Key::Uninstall, sub_key: locator.manifest_id },
                None,
            )
        }),
{
}

} // verus!
