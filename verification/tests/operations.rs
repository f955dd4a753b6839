use app_registry::clock::Date;
use app_registry::custom_protocols::{
    register_custom_protocols, register_single_protocol, remove_custom_protocols,
};
use app_registry::file_associations::{
    add_file_association, add_file_associations, register_shell_open_command,
    remove_file_associations,
};
use app_registry::plan::{OnFailure, OnSuccess, Step};
use app_registry::uninstall::uninstall_entry;
use app_registry::{
    create_or_update_custom_protocols, create_or_update_file_associations,
    register_default_program, remove_all_custom_protocols, remove_all_file_associations,
    remove_uninstall_entry, unregister_default_program, write_uninstall_entry, Access, Failure,
    Key, Locator, Plan, Request, Value,
};

const CLASSES: &str = "Software\\Classes";
const UNINSTALL: &str = "Software\\Microsoft\\Windows\\CurrentVersion\\Uninstall";
const CAPABILITIES: &str = "Software\\Acme\\Acme Paint\\Capabilities";
const OPEN: &str = "shell\\open\\command";
const EXE: &str = "C:\\Acme\\current\\paint.exe";
const COMMAND: &str = "\"C:\\Acme\\current\\paint.exe\" \"%1\"";

fn list(names: &[&str]) -> Vec<String> {
    names.iter().map(|name| name.to_string()).collect()
}

fn locator(protocols: &[&str], extensions: &[&str]) -> Locator {
    Locator {
        manifest_id: "Acme.Paint".to_string(),
        manifest_title: "Acme Paint".to_string(),
        manifest_authors: "Acme".to_string(),
        manifest_version_short: "1.2.3".to_string(),
        root_dir: "C:\\Acme".to_string(),
        main_exe_path: EXE.to_string(),
        update_path: "C:\\Acme\\Update.exe".to_string(),
        icon_url: "C:\\Acme\\icon.ico".to_string(),
        custom_url_protocols: list(protocols),
        file_associations: list(extensions),
    }
}

fn create(parent: Key, sub_key: &str, access: Access, opened: Key) -> Request {
    Request::CreateKey { parent, sub_key: sub_key.to_string(), access, opened }
}

fn set(key: Key, name: &str, text: &str) -> Request {
    Request::SetValue { key, name: name.to_string(), value: Value::Sz(text.to_string()) }
}

fn number(key: Key, name: &str, number: u32) -> Request {
    Request::SetValue { key, name: name.to_string(), value: Value::Dword(number) }
}

fn delete_tree(key: Key, sub_key: &str) -> Request {
    Request::DeleteTree { key, sub_key: sub_key.to_string() }
}

fn delete_key(key: Key, sub_key: &str) -> Request {
    Request::DeleteKey { key, sub_key: sub_key.to_string() }
}

fn must(request: Request, context: &str) -> Step {
    Step {
        request,
        on_success: OnSuccess::Continue,
        on_failure: OnFailure::Abort { context: Some(context.to_string()) },
    }
}

fn bare(request: Request) -> Step {
    Step {
        request,
        on_success: OnSuccess::Continue,
        on_failure: OnFailure::Abort { context: None },
    }
}

fn skip(request: Request, steps: usize) -> Step {
    Step { request, on_success: OnSuccess::Continue, on_failure: OnFailure::Skip(steps) }
}

fn plan(steps: Vec<Step>) -> Plan {
    Plan { steps, outcome: Ok(()) }
}

fn open_classes(context: &str) -> Step {
    must(
        create(Key::CurrentUser, CLASSES, Access::CreateSubKey, Key::SoftwareClasses),
        context,
    )
}

fn open_capabilities() -> Request {
    create(Key::CurrentUser, CAPABILITIES, Access::CreateSubKey, Key::Capabilities)
}

fn open_associations() -> Request {
    create(Key::Capabilities, "FileAssociations", Access::AllAccess, Key::FileAssociations)
}

fn protocol_requests(name: &str) -> Vec<Request> {
    vec![
        create(Key::SoftwareClasses, name, Access::AllAccess, Key::Protocol),
        set(Key::Protocol, "", &format!("URL:{} protocol", name)),
        set(Key::Protocol, "URL Protocol", ""),
        create(Key::Protocol, OPEN, Access::AllAccess, Key::ProtocolCommand),
        set(Key::ProtocolCommand, "", COMMAND),
    ]
}

fn absorbed_protocol(name: &str) -> Vec<Step> {
    let requests = protocol_requests(name);
    let count = requests.len();
    requests.into_iter().enumerate().map(|(i, request)| skip(request, count - 1 - i)).collect()
}

fn association_requests(extension: &str) -> Vec<Request> {
    let id = format!("Acme Paint.File.{}", extension);
    vec![
        create(Key::SoftwareClasses, &id, Access::AllAccess, Key::Program),
        create(Key::Program, "DefaultIcon", Access::AllAccess, Key::ProgramIcon),
        set(Key::ProgramIcon, "", "C:\\Acme\\icon.ico"),
        create(Key::Program, OPEN, Access::AllAccess, Key::ProgramCommand),
        set(Key::ProgramCommand, "", COMMAND),
        create(Key::SoftwareClasses, extension, Access::AllAccess, Key::Extension),
        Request::GetValue { key: Key::Extension, sub_key: String::new(), name: String::new() },
        set(Key::Extension, "", ""),
        create(Key::Extension, "OpenWithProgIds", Access::AllAccess, Key::OpenWith),
        set(Key::OpenWith, &id, ""),
        set(Key::FileAssociations, &format!(".{}", extension), &id),
    ]
}

fn absorbed_association(extension: &str) -> Vec<Step> {
    let failures: [usize; 11] = [10, 9, 8, 1, 0, 5, 4, 3, 2, 1, 0];
    association_requests(extension)
        .into_iter()
        .zip(failures)
        .map(|(request, steps)| {
            let mut step = skip(request, steps);
            if let Request::GetValue { .. } = step.request {
                step.on_success = OnSuccess::ContinueIfText {
                    text: format!("Acme Paint.File.{}", extension),
                    otherwise_skip: 1,
                };
            }
            step
        })
        .collect()
}

fn entry_texts(date: &str) -> Vec<Step> {
    let text = |name: &str, text: &str| bare(set(Key::UninstallEntry, name, text));
    vec![
        bare(create(Key::CurrentUser, UNINSTALL, Access::CreateSubKey, Key::Uninstall)),
        bare(create(Key::Uninstall, "Acme.Paint", Access::AllAccess, Key::UninstallEntry)),
        text("DisplayIcon", EXE),
        text("DisplayName", "Acme Paint"),
        text("DisplayVersion", "1.2.3"),
        text("InstallDate", date),
        text("InstallLocation", "C:\\Acme"),
        text("Publisher", "Acme"),
        text("QuietUninstallString", "\"C:\\Acme\\Update.exe\" --uninstall --silent"),
        text("UninstallString", "\"C:\\Acme\\Update.exe\" --uninstall"),
    ]
}

fn entry(date: &str, size: u32) -> Plan {
    let mut steps = entry_texts(date);
    steps.push(bare(number(Key::UninstallEntry, "EstimatedSize", size)));
    steps.push(bare(number(Key::UninstallEntry, "NoModify", 1)));
    steps.push(bare(number(Key::UninstallEntry, "NoRepair", 1)));
    steps.push(bare(number(Key::UninstallEntry, "Language", 1033)));
    plan(steps)
}

const DAY: Date = Date { year: 2024, month: 3, day: 7 };

#[test]
fn default_program_is_registered_with_its_capabilities() {
    assert_eq!(
        register_default_program(&locator(&[], &[])),
        plan(vec![
            must(open_capabilities(), "Failed to create/open application capability key"),
            bare(set(Key::Capabilities, "ApplicationDescription", "some description")),
            bare(set(Key::Capabilities, "ApplicationName", "Acme Paint")),
            must(
                create(
                    Key::CurrentUser,
                    "Software\\RegisteredApplications",
                    Access::CreateSubKey,
                    Key::RegisteredApplications,
                ),
                "Failed to create/open software registered applications key",
            ),
            bare(set(Key::RegisteredApplications, "Acme.Paint", CAPABILITIES)),
        ])
    );
}

#[test]
fn default_program_is_unregistered_as_far_as_possible() {
    assert_eq!(
        unregister_default_program(&locator(&[], &[])),
        plan(vec![
            open_classes("Failed to create/open registry key"),
            skip(delete_tree(Key::SoftwareClasses, CAPABILITIES), 0),
        ])
    );
}

#[test]
fn single_protocol_is_registered_with_its_command() {
    let mut requests = protocol_requests("paint").into_iter();
    let mut next = || requests.next().unwrap();
    let expected = plan(vec![
        must(next(), "Failed to create subkey for protocol paint"),
        bare(next()),
        bare(next()),
        must(next(), "Failed to create shell open command subkey for protocol paint"),
        must(next(), "Failed to set shell open command for protocol paint"),
    ]);
    let made =
        register_single_protocol(Key::SoftwareClasses, &"paint".to_string(), &COMMAND.to_string());
    assert_eq!(made, expected);
}

#[test]
fn protocols_are_registered_one_by_one() {
    let app = locator(&[], &[]);
    let mut steps = absorbed_protocol("a");
    steps.extend(absorbed_protocol("b"));
    assert_eq!(
        register_custom_protocols(&app, Key::SoftwareClasses, &list(&["a", "b"])),
        plan(steps)
    );
    assert_eq!(register_custom_protocols(&app, Key::SoftwareClasses, &list(&[])), Plan::new());
}

#[test]
fn protocols_are_removed_until_one_cannot_be() {
    assert_eq!(
        remove_custom_protocols(Key::SoftwareClasses, &list(&["a", "b"])),
        plan(vec![
            must(
                delete_tree(Key::SoftwareClasses, "a"),
                "Failed to recursively delete protocol a",
            ),
            must(
                delete_tree(Key::SoftwareClasses, "b"),
                "Failed to recursively delete protocol b",
            ),
        ])
    );
    assert_eq!(remove_custom_protocols(Key::SoftwareClasses, &list(&[])), Plan::new());
}

#[test]
fn protocols_are_updated_by_their_difference() {
    let mut steps = vec![
        open_classes("Failed to create/open registry key"),
        skip(delete_tree(Key::SoftwareClasses, "a"), 1),
        skip(delete_tree(Key::SoftwareClasses, "c"), 0),
    ];
    steps.extend(absorbed_protocol("d"));
    assert_eq!(
        create_or_update_custom_protocols(
            &locator(&["b", "d"], &[]),
            Some(&locator(&["a", "b", "c"], &[])),
        ),
        plan(steps)
    );
}

#[test]
fn first_install_registers_all_protocols() {
    let mut steps = vec![open_classes("Failed to create/open registry key")];
    steps.extend(absorbed_protocol("a"));
    steps.extend(absorbed_protocol("a"));
    assert_eq!(create_or_update_custom_protocols(&locator(&["a", "a"], &[]), None), plan(steps));
}

#[test]
fn same_protocols_need_no_request() {
    let app = locator(&["a", "b"], &[]);
    assert_eq!(create_or_update_custom_protocols(&app, Some(&app)), Plan::new());
    let none = locator(&[], &[]);
    assert_eq!(create_or_update_custom_protocols(&none, Some(&none)), Plan::new());
    assert_eq!(create_or_update_custom_protocols(&none, None), Plan::new());
}

#[test]
fn reordered_protocols_open_the_classes_only() {
    assert_eq!(
        create_or_update_custom_protocols(
            &locator(&["b", "a"], &[]),
            Some(&locator(&["a", "b"], &[])),
        ),
        plan(vec![open_classes("Failed to create/open registry key")])
    );
}

#[test]
fn all_protocols_are_removed() {
    assert_eq!(
        remove_all_custom_protocols(&locator(&["a", "b"], &[])),
        plan(vec![
            open_classes("Failed to create/open registry key"),
            skip(delete_tree(Key::SoftwareClasses, "a"), 1),
            skip(delete_tree(Key::SoftwareClasses, "b"), 0),
        ])
    );
}

#[test]
fn open_command_is_registered_below_a_class() {
    assert_eq!(
        register_shell_open_command(Key::Program, &EXE.to_string()),
        plan(vec![
            must(
                create(Key::Program, OPEN, Access::AllAccess, Key::ProgramCommand),
                "Failed to create shell open command subkey for app path C:\\Acme\\current\\paint.exe",
            ),
            must(
                set(Key::ProgramCommand, "", COMMAND),
                "Failed to set shell open command app path C:\\Acme\\current\\paint.exe",
            ),
        ])
    );
}

#[test]
fn single_extension_is_associated() {
    let mut requests = association_requests("txt").into_iter();
    let mut next = || requests.next().unwrap();
    let mut expected = vec![
        must(next(), "Failed to create program subkey for file extension txt"),
        must(next(), "Failed to create icon subkey for file extension txt"),
        bare(next()),
        skip(next(), 1),
        skip(next(), 0),
        must(next(), "Failed to create subkey for file extension txt"),
        bare(next()),
        bare(next()),
        must(next(), "Failed to create open with subkey for file extension txt"),
        bare(next()),
        skip(next(), 0),
    ];
    expected[6].on_success = OnSuccess::ContinueIfText {
        text: "Acme Paint.File.txt".to_string(),
        otherwise_skip: 1,
    };
    let made = add_file_association(
        Key::SoftwareClasses,
        Key::FileAssociations,
        &"txt".to_string(),
        &"Acme Paint.File".to_string(),
        &"C:\\Acme\\icon.ico".to_string(),
        &EXE.to_string(),
    );
    assert_eq!(made, plan(expected));
}

#[test]
fn extensions_are_added_one_by_one() {
    let app = locator(&[], &[]);
    let mut steps = vec![
        must(open_capabilities(), "Failed to create/open application capability key"),
        must(open_associations(), "Failed to create subkey for file associations"),
    ];
    steps.extend(absorbed_association("a"));
    steps.extend(absorbed_association("b"));
    assert_eq!(
        add_file_associations(&app, Key::SoftwareClasses, &list(&["a", "b"])),
        plan(steps)
    );
    assert_eq!(add_file_associations(&app, Key::SoftwareClasses, &list(&[])), Plan::new());
}

#[test]
fn extensions_are_removed_until_a_request_fails() {
    let app = locator(&[], &[]);
    let mut steps = vec![
        must(open_capabilities(), "Failed to create/open application capability key"),
        must(open_associations(), "Failed to create subkey for file associations"),
    ];
    for extension in ["a", "b"] {
        let id = format!("Acme Paint.File.{}", extension);
        steps.push(must(
            delete_tree(Key::SoftwareClasses, &id),
            &format!("Failed to recursively delete program ID for extension {}", extension),
        ));
        steps.push(must(
            delete_tree(Key::SoftwareClasses, extension),
            &format!("Failed to recursively delete sub key for extension {}", extension),
        ));
        steps.push(must(
            delete_key(Key::FileAssociations, &id),
            &format!("Failed to delete app capabilities key for extension {}", extension),
        ));
    }
    assert_eq!(
        remove_file_associations(&app, Key::SoftwareClasses, &list(&["a", "b"])),
        plan(steps)
    );
    assert_eq!(remove_file_associations(&app, Key::SoftwareClasses, &list(&[])), Plan::new());
}

fn absorbed_removal(extension: &str) -> Vec<Step> {
    let id = format!("Acme Paint.File.{}", extension);
    vec![
        skip(open_capabilities(), 4),
        skip(open_associations(), 3),
        skip(delete_tree(Key::SoftwareClasses, &id), 2),
        skip(delete_tree(Key::SoftwareClasses, extension), 1),
        skip(delete_key(Key::FileAssociations, &id), 0),
    ]
}

#[test]
fn extensions_are_updated_by_their_difference() {
    let mut steps = vec![open_classes("Failed to create/open software classes registry key")];
    steps.extend(absorbed_removal("a"));
    steps.push(skip(open_capabilities(), 12));
    steps.push(skip(open_associations(), 11));
    steps.extend(absorbed_association("c"));
    assert_eq!(
        create_or_update_file_associations(
            &locator(&[], &["b", "c"]),
            Some(&locator(&[], &["a", "b"])),
        ),
        plan(steps)
    );
}

#[test]
fn extensions_are_removed_under_the_title_of_the_next_version() {
    let mut previous = locator(&[], &["a"]);
    previous.manifest_title = "Acme Draw".to_string();
    let mut steps = vec![open_classes("Failed to create/open software classes registry key")];
    steps.extend(absorbed_removal("a"));
    assert_eq!(
        create_or_update_file_associations(&locator(&[], &[]), Some(&previous)),
        plan(steps)
    );
}

#[test]
fn same_extensions_open_the_classes_only() {
    let opening = || plan(vec![open_classes("Failed to create/open software classes registry key")]);
    let app = locator(&[], &["a", "b"]);
    assert_eq!(create_or_update_file_associations(&app, Some(&app)), opening());
    assert_eq!(create_or_update_file_associations(&locator(&[], &[]), None), opening());
}

#[test]
fn all_extensions_are_removed() {
    let mut steps = vec![
        open_classes("Failed to create/open registry key"),
        skip(delete_tree(Key::SoftwareClasses, CAPABILITIES), 0),
    ];
    steps.extend(absorbed_removal("a"));
    assert_eq!(remove_all_file_associations(&locator(&[], &["a"])), plan(steps));
}

#[test]
fn uninstall_entry_is_written() {
    assert_eq!(
        uninstall_entry(&locator(&[], &[]), Some(10 * 1024 * 1024), DAY),
        entry("20240307", 10240)
    );
}

#[test]
fn estimated_size_is_in_whole_kibibytes() {
    for (bytes, size) in [(0u64, 0u32), (1023, 0), (1024, 1), (2047, 1), (4_398_046_511_103, u32::MAX)] {
        assert_eq!(
            uninstall_entry(&locator(&[], &[]), Some(bytes), DAY),
            entry("20240307", size)
        );
    }
}

#[test]
fn unknown_size_counts_as_nothing() {
    assert_eq!(uninstall_entry(&locator(&[], &[]), None, DAY), entry("20240307", 0));
}

#[test]
fn size_beyond_32_bits_fails_after_the_texts() {
    for bytes in [4_398_046_511_104u64, u64::MAX] {
        assert_eq!(
            uninstall_entry(&locator(&[], &[]), Some(bytes), DAY),
            Plan { steps: entry_texts("20240307"), outcome: Err(Failure::SizeOutOfRange) }
        );
    }
}

#[test]
fn uninstall_entry_has_the_local_date() {
    let app = locator(&[], &[]);
    let before = chrono::Local::now().format("%Y%m%d").to_string();
    let made = write_uninstall_entry(&app, Some(2048));
    let after = chrono::Local::now().format("%Y%m%d").to_string();
    assert!(made == entry(&before, 2) || made == entry(&after, 2));
}

#[test]
fn uninstall_entry_is_removed() {
    assert_eq!(
        remove_uninstall_entry(&locator(&[], &[])),
        plan(vec![
            bare(create(Key::CurrentUser, UNINSTALL, Access::CreateSubKey, Key::Uninstall)),
            bare(delete_key(Key::Uninstall, "Acme.Paint")),
        ])
    );
}
