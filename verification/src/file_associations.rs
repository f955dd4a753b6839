//! The file extensions that the application opens.
use vstd::prelude::*;
use vstd::string::*;

use crate::changes::{addable, changes, removable};
use crate::keys::{
    open_application_capabilities, open_capabilities, open_classes, open_software_classes,
    SHELL_OPEN_COMMAND_KEY,
};
use crate::locator::{
    get_application_capability_path, open_command, option_locator, program_id_prefix,
    shell_open_command, Locator, LocatorView,
};
use crate::plan::{
    absorb, may, must, plan_of, set_text, Access, Key, OnFailure, OnSuccess, Plan, PlanView,
    Request, Step, StepView,
};
use crate::text::texts;

verus! {

pub const DEFAULT_ICON_KEY: &'static str = "DefaultIcon";

pub const OPEN_WITH_PROG_KEY: &'static str = "OpenWithProgIds";

/// The program ID of a file extension.
pub open spec fn program_id(prefix: Seq<char>, extension: Seq<char>) -> Seq<char> {
    prefix + "."@ + extension
}

/// The program ID of a file extension.
pub fn file_program_id(prefix: &str, extension: &str) -> (id: String)
    ensures
        id@ == program_id(prefix@, extension@),
{
    prefix.to_string().concat(".").concat(extension)
}

/// Creates the open command of a class.
pub open spec fn shell_open_command_steps(class: Key, app_path: Seq<char>) -> Seq<StepView> {
    seq![
        must(
            Request::CreateKey {
                parent: class,
                sub_key: SHELL_OPEN_COMMAND_KEY@,
                access: Access::AllAccess,
                opened: Key::ProgramCommand,
            },
            Some("Failed to create shell open command subkey for app path "@ + app_path),
        ),
        must(
            set_text(Key::ProgramCommand, Seq::empty(), open_command(app_path)),
            Some("Failed to set shell open command app path "@ + app_path),
        ),
    ]
}

/// Creates the class of a program ID with its icon and, as far as that succeeds,
/// its open command.
pub open spec fn program_steps(
    classes: Key,
    extension: Seq<char>,
    id: Seq<char>,
    icon_url: Seq<char>,
    app_path: Seq<char>,
) -> Seq<StepView> {
    seq![
        must(
            Request::CreateKey {
                parent: classes,
                sub_key: id,
                access: Access::AllAccess,
                opened: Key::Program,
            },
            Some("Failed to create program subkey for file extension "@ + extension),
        ),
        must(
            Request::CreateKey {
                parent: Key::Program,
                sub_key: DEFAULT_ICON_KEY@,
                access: Access::AllAccess,
                opened: Key::ProgramIcon,
            },
            Some("Failed to create icon subkey for file extension "@ + extension),
        ),
        must(set_text(Key::ProgramIcon, Seq::empty(), icon_url), None),
    ] + absorb(shell_open_command_steps(Key::Program, app_path))
}

/// Reads the default value of the class of an extension; only where it is this
/// program ID is the next step taken.
pub open spec fn read_default_program_id(id: Seq<char>) -> StepView {
    Step {
        request: Request::GetValue {
            key: Key::Extension,
            sub_key: Seq::empty(),
            name: Seq::empty(),
        },
        on_success: OnSuccess::ContinueIfText { text: id, otherwise_skip: 1 },
        on_failure: OnFailure::Abort { context: None },
    }
}

/// Creates the class of an extension, clears its default value where that is the
/// program ID, offers the program ID to open files of the extension, and adds the
/// extension, as far as that succeeds, to the capabilities of the application.
pub open spec fn extension_steps(
    classes: Key,
    file_associations: Key,
    extension: Seq<char>,
    id: Seq<char>,
) -> Seq<StepView> {
    seq![
        must(
            Request::CreateKey {
                parent: classes,
                sub_key: extension,
                access: Access::AllAccess,
                opened: Key::Extension,
            },
            Some("Failed to create subkey for file extension "@ + extension),
        ),
        read_default_program_id(id),
        must(set_text(Key::Extension, Seq::empty(), Seq::empty()), None),
        must(
            Request::CreateKey {
                parent: Key::Extension,
                sub_key: OPEN_WITH_PROG_KEY@,
                access: Access::AllAccess,
                opened: Key::OpenWith,
            },
            Some("Failed to create open with subkey for file extension "@ + extension),
        ),
        must(set_text(Key::OpenWith, id, Seq::empty()), None),
        may(set_text(file_associations, "."@ + extension, id)),
    ]
}

/// The keys that creating the class of a program ID opens.
pub open spec fn program_keys() -> Set<Key> {
    set![Key::Program, Key::ProgramIcon, Key::ProgramCommand]
}

/// The keys that associating an extension opens.
pub open spec fn association_keys() -> Set<Key> {
    program_keys().insert(Key::Extension).insert(Key::OpenWith)
}

/// The keys that opening the file associations of the application opens.
pub open spec fn capability_keys() -> Set<Key> {
    set![Key::Capabilities, Key::FileAssociations]
}

/// The keys that an update of the file associations opens below `Software\Classes`
/// and for the capabilities.
pub open spec fn update_keys() -> Set<Key> {
    association_keys().insert(Key::Capabilities).insert(Key::FileAssociations)
}

/// Associates an extension with a program ID of the application.
pub open spec fn add_association(
    classes: Key,
    file_associations: Key,
    extension: Seq<char>,
    prefix: Seq<char>,
    icon_url: Seq<char>,
    app_path: Seq<char>,
) -> Seq<StepView> {
    program_steps(classes, extension, program_id(prefix, extension), icon_url, app_path)
        + extension_steps(classes, file_associations, extension, program_id(prefix, extension))
}

/// Associates these extensions, each whether or not the others succeed.
pub open spec fn add_each_association(
    locator: LocatorView,
    classes: Key,
    extensions: Seq<Seq<char>>,
) -> Seq<StepView>
    decreases extensions.len(),
{
    if extensions.len() == 0 {
        Seq::empty()
    } else {
        add_each_association(locator, classes, extensions.drop_last()) + absorb(
            add_association(
                classes,
                Key::FileAssociations,
                extensions.last(),
                locator.program_id_prefix(),
                locator.icon_url,
                locator.main_exe_path,
            ),
        )
    }
}

/// Opens the file associations among the capabilities of the application.
pub open spec fn open_file_associations(locator: LocatorView) -> Seq<StepView> {
    seq![
        open_capabilities(locator),
        must(
            Request::CreateKey {
                parent: Key::Capabilities,
                sub_key: "FileAssociations"@,
                access: Access::AllAccess,
                opened: Key::FileAssociations,
            },
            Some("Failed to create subkey for file associations"@),
        ),
    ]
}

/// Opens the file associations of the application and adds these, if there are any.
pub open spec fn add_associations(
    locator: LocatorView,
    classes: Key,
    extensions: Seq<Seq<char>>,
) -> Seq<StepView> {
    if extensions.len() == 0 {
        Seq::empty()
    } else {
        open_file_associations(locator) + add_each_association(locator, classes, extensions)
    }
}

/// Removes the program ID of an extension, the class of the extension, and the
/// program ID among the file associations of the application.
pub open spec fn remove_association(
    classes: Key,
    file_associations: Key,
    extension: Seq<char>,
    prefix: Seq<char>,
) -> Seq<StepView> {
    seq![
        must(
            Request::DeleteTree { key: classes, sub_key: program_id(prefix, extension) },
            Some("Failed to recursively delete program ID for extension "@ + extension),
        ),
        must(
            Request::DeleteTree { key: classes, sub_key: extension },
            Some("Failed to recursively delete sub key for extension "@ + extension),
        ),
        must(
            Request::DeleteKey { key: file_associations, sub_key: program_id(prefix, extension) },
            Some("Failed to delete app capabilities key for extension "@ + extension),
        ),
    ]
}

/// Removes these extensions, up to the first request that fails.
pub open spec fn remove_each_association(
    locator: LocatorView,
    classes: Key,
    extensions: Seq<Seq<char>>,
) -> Seq<StepView>
    decreases extensions.len(),
{
    if extensions.len() == 0 {
        Seq::empty()
    } else {
        remove_each_association(locator, classes, extensions.drop_last()) + remove_association(
            classes,
            Key::FileAssociations,
            extensions.last(),
            locator.program_id_prefix(),
        )
    }
}

/// Opens the file associations of the application and removes these, if there are any.
pub open spec fn remove_associations(
    locator: LocatorView,
    classes: Key,
    extensions: Seq<Seq<char>>,
) -> Seq<StepView> {
    if extensions.len() == 0 {
        Seq::empty()
    } else {
        open_file_associations(locator) + remove_each_association(locator, classes, extensions)
    }
}

/// The file extensions of an application, of which there may be none.
pub open spec fn associations_of(app: Option<LocatorView>) -> Seq<Seq<char>> {
    match app {
        Some(app) => app.file_associations,
        None => Seq::empty(),
    }
}

/// The extensions that are no longer opened are removed and the new ones added;
/// neither can fail the operation.
pub open spec fn update_associations_plan(
    next_app: LocatorView,
    previous_app: Option<LocatorView>,
) -> PlanView {
    let prev = associations_of(previous_app);
    let next = next_app.file_associations;
    plan_of(
        seq![open_software_classes("Failed to create/open software classes registry key"@)]
            + absorb(
            remove_associations(next_app, Key::SoftwareClasses, removable(prev, next)),
        ) + absorb(add_associations(next_app, Key::SoftwareClasses, addable(prev, next))),
    )
}

/// The tree with the path of the capabilities is deleted below `Software\Classes`,
/// then all extensions of the application are removed; neither can fail the
/// operation.
pub open spec fn remove_all_associations_plan(locator: LocatorView) -> PlanView {
    plan_of(
        seq![
            open_software_classes("Failed to create/open registry key"@),
            may(
                Request::DeleteTree {
                    key: Key::SoftwareClasses,
                    sub_key: locator.capability_path(),
                },
            ),
        ] + absorb(
            remove_associations(locator, Key::SoftwareClasses, locator.file_associations),
        ),
    )
}

/// Replaces the file associations of the previous version of the application by
/// those of the next one.
pub fn create_or_update_file_associations(
    next_app: &Locator,
    previous_app: Option<&Locator>,
) -> (plan: Plan)
    ensures
        plan@ == update_associations_plan(next_app@, option_locator(previous_app)),
{
    let none: Vec<String> = Vec::new();
    assert(texts(none@) =~= Seq::empty());
    let prev = match previous_app {
        Some(app) => &app.file_associations,
        None => &none,
    };
    let (removable_file_associations, new_file_associations) = changes(
        prev,
        &next_app.file_associations,
    );
    let mut plan = Plan::new();
    plan.push(open_classes("Failed to create/open software classes registry key"));
    plan.append(
        remove_file_associations(
            next_app,
            Key::SoftwareClasses,
            &removable_file_associations,
        ).absorb(),
    );
    plan.append(
        add_file_associations(next_app, Key::SoftwareClasses, &new_file_associations).absorb(),
    );
    assert(plan@.steps =~= update_associations_plan(next_app@, option_locator(previous_app)).steps);
    plan
}

fn open_application_file_associations(locator: &Locator) -> (plan: Plan)
    ensures
        plan@ == plan_of(open_file_associations(locator@)),
{
    let mut plan = Plan::new();
    plan.push(open_application_capabilities(locator));
    plan.push(
        Step::must(
            Request::create_key(
                Key::Capabilities,
                "FileAssociations",
                Access::AllAccess,
                Key::FileAssociations,
            ),
            "Failed to create subkey for file associations".to_string(),
        ),
    );
    assert(plan@.steps =~= open_file_associations(locator@));
    plan
}

/// Adds file associations of the application, each whether or not the others
/// succeed. Where there are none, nothing is opened. The key that holds the classes
/// is none of those that are opened on the way.
pub fn add_file_associations(
    locator: &Locator,
    reg_software_classes_key: Key,
    new_file_associations: &Vec<String>,
) -> (plan: Plan)
    requires
        !update_keys().contains(reg_software_classes_key),
    ensures
        plan@ == plan_of(
            add_associations(locator@, reg_software_classes_key, texts(new_file_associations@)),
        ),
{
    if new_file_associations.len() == 0 {
        return Plan::new();
    }
    let program_id_file_prefix = program_id_prefix(locator);
    let mut plan = open_application_file_associations(locator);
    let ghost opening = plan@.steps;
    let mut i: usize = 0;
    assert(opening + Seq::<StepView>::empty() =~= opening);
    while i < new_file_associations.len()
        invariant
            i <= new_file_associations.len(),
            !update_keys().contains(reg_software_classes_key),
            program_id_file_prefix@ == locator@.program_id_prefix(),
            plan@ == plan_of(
                opening + add_each_association(
                    locator@,
                    reg_software_classes_key,
                    texts(new_file_associations@).take(i as int),
                ),
            ),
        decreases new_file_associations.len() - i,
    {
        plan.append(
            add_file_association(
                reg_software_classes_key,
                Key::FileAssociations,
                &new_file_associations[i],
                &program_id_file_prefix,
                &locator.icon_url,
                &locator.main_exe_path,
            ).absorb(),
        );
        i = i + 1;
        assert(texts(new_file_associations@).take(i as int).drop_last() =~= texts(
            new_file_associations@,
        ).take(i - 1));
        assert(plan@.steps =~= opening + add_each_association(
            locator@,
            reg_software_classes_key,
            texts(new_file_associations@).take(i as int),
        ));
    }
    assert(texts(new_file_associations@).take(i as int) =~= texts(new_file_associations@));
    plan
}

/// Associates one extension with a program ID of the application: the program ID
/// as a class with an open command, and a reference to it in the class of the
/// extension and in the capabilities of the application. Neither of the two keys is
/// opened as another before its last use.
pub fn add_file_association(
    reg_software_classes_key: Key,
    reg_file_assoc_key: Key,
    file_extension: &String,
    program_id_file_prefix: &String,
    icon_url: &String,
    app_path: &String,
) -> (plan: Plan)
    requires
        !program_keys().contains(reg_software_classes_key),
        !association_keys().contains(reg_file_assoc_key),
    ensures
        plan@ == plan_of(
            add_association(
                reg_software_classes_key,
                reg_file_assoc_key,
                file_extension@,
                program_id_file_prefix@,
                icon_url@,
                app_path@,
            ),
        ),
{
    let extension = file_extension.as_str();
    let id = file_program_id(program_id_file_prefix.as_str(), extension);
    let mut plan = Plan::new();
    plan.push(
        Step::must(
            Request::create_key(
                reg_software_classes_key,
                id.as_str(),
                Access::AllAccess,
                Key::Program,
            ),
            "Failed to create program subkey for file extension ".to_string().concat(extension),
        ),
    );
    plan.push(
        Step::must(
            Request::create_key(
                Key::Program,
                DEFAULT_ICON_KEY,
                Access::AllAccess,
                Key::ProgramIcon,
            ),
            "Failed to create icon subkey for file extension ".to_string().concat(extension),
        ),
    );
    plan.push(Step::must_bare(Request::set_default(Key::ProgramIcon, icon_url.as_str())));
    plan.append(register_shell_open_command(Key::Program, app_path).absorb());
    assert(plan@.steps =~= program_steps(
        reg_software_classes_key,
        file_extension@,
        id@,
        icon_url@,
        app_path@,
    ));
    plan.push(
        Step::must(
            Request::create_key(
                reg_software_classes_key,
                extension,
                Access::AllAccess,
                Key::Extension,
            ),
            "Failed to create subkey for file extension ".to_string().concat(extension),
        ),
    );
    plan.push(
        Step {
            request: Request::get_default(Key::Extension),
            on_success: OnSuccess::ContinueIfText { text: id.clone(), otherwise_skip: 1 },
            on_failure: OnFailure::Abort { context: None },
        },
    );
    plan.push(Step::must_bare(Request::clear_default(Key::Extension)));
    plan.push(
        Step::must(
            Request::create_key(
                Key::Extension,
                OPEN_WITH_PROG_KEY,
                Access::AllAccess,
                Key::OpenWith,
            ),
            "Failed to create open with subkey for file extension ".to_string().concat(extension),
        ),
    );
    plan.push(Step::must_bare(Request::set_empty(Key::OpenWith, id.as_str())));
    let reg_file_assoc_value = ".".to_string().concat(extension);
    plan.push(
        Step::may(
            Request::set_text(reg_file_assoc_key, reg_file_assoc_value.as_str(), id.as_str()),
        ),
    );
    assert(plan@.steps =~= add_association(
        reg_software_classes_key,
        reg_file_assoc_key,
        file_extension@,
        program_id_file_prefix@,
        icon_url@,
        app_path@,
    ));
    plan
}

/// Removes file associations of the application, up to the first request that
/// fails. Where there are none, nothing is opened. The key that holds the classes is
/// none of those that are opened on the way.
pub fn remove_file_associations(
    locator: &Locator,
    reg_software_classes_key: Key,
    removable_file_associations: &Vec<String>,
) -> (plan: Plan)
    requires
        !capability_keys().contains(reg_software_classes_key),
    ensures
        plan@ == plan_of(
            remove_associations(
                locator@,
                reg_software_classes_key,
                texts(removable_file_associations@),
            ),
        ),
{
    if removable_file_associations.len() == 0 {
        return Plan::new();
    }
    let program_id_file_prefix = program_id_prefix(locator);
    let mut plan = open_application_file_associations(locator);
    let ghost opening = plan@.steps;
    let mut i: usize = 0;
    assert(opening + Seq::<StepView>::empty() =~= opening);
    while i < removable_file_associations.len()
        invariant
            i <= removable_file_associations.len(),
            program_id_file_prefix@ == locator@.program_id_prefix(),
            plan@ == plan_of(
                opening + remove_each_association(
                    locator@,
                    reg_software_classes_key,
                    texts(removable_file_associations@).take(i as int),
                ),
            ),
        decreases removable_file_associations.len() - i,
    {
        let extension = removable_file_associations[i].as_str();
        let id = file_program_id(program_id_file_prefix.as_str(), extension);
        plan.push(
            Step::must(
                Request::delete_tree(reg_software_classes_key, id.as_str()),
                "Failed to recursively delete program ID for extension ".to_string().concat(
                    extension,
                ),
            ),
        );
        plan.push(
            Step::must(
                Request::delete_tree(reg_software_classes_key, extension),
                "Failed to recursively delete sub key for extension ".to_string().concat(
                    extension,
                ),
            ),
        );
        plan.push(
            Step::must(
                Request::delete_key(Key::FileAssociations, id.as_str()),
                "Failed to delete app capabilities key for extension ".to_string().concat(
                    extension,
                ),
            ),
        );
        i = i + 1;
        assert(texts(removable_file_associations@).take(i as int).drop_last() =~= texts(
            removable_file_associations@,
        ).take(i - 1));
        assert(plan@.steps =~= opening + remove_each_association(
            locator@,
            reg_software_classes_key,
            texts(removable_file_associations@).take(i as int),
        ));
    }
    assert(texts(removable_file_associations@).take(i as int) =~= texts(
        removable_file_associations@,
    ));
    plan
}

/// Creates the open command of a class: the executable, with what it is to open.
pub fn register_shell_open_command(reg_sub_key: Key, app_path: &String) -> (plan: Plan)
    ensures
        plan@ == plan_of(shell_open_command_steps(reg_sub_key, app_path@)),
{
    let mut plan = Plan::new();
    plan.push(
        Step::must(
            Request::create_key(
                reg_sub_key,
                SHELL_OPEN_COMMAND_KEY,
                Access::AllAccess,
                Key::ProgramCommand,
            ),
            "Failed to create shell open command subkey for app path ".to_string().concat(
                app_path.as_str(),
            ),
        ),
    );
    let app_shell_open_cmd = shell_open_command(app_path.as_str());
    plan.push(
        Step::must(
            Request::set_default(Key::ProgramCommand, app_shell_open_cmd.as_str()),
            "Failed to set shell open command app path ".to_string().concat(app_path.as_str()),
        ),
    );
    assert(plan@.steps =~= shell_open_command_steps(reg_sub_key, app_path@));
    plan
}

/// Removes all file associations of the application.
pub fn remove_all_file_associations(locator: &Locator) -> (plan: Plan)
    ensures
        plan@ == remove_all_associations_plan(locator@),
{
    let app_capability_path = get_application_capability_path(locator);
    let mut plan = Plan::new();
    plan.push(open_classes("Failed to create/open registry key"));
    plan.push(
        Step::may(Request::delete_tree(Key::SoftwareClasses, app_capability_path.as_str())),
    );
    plan.append(
        remove_file_associations(
            locator,
            Key::SoftwareClasses,
            &locator.file_associations,
        ).absorb(),
    );
    assert(plan@.steps =~= remove_all_associations_plan(locator@).steps);
    plan
}

} // verus!
