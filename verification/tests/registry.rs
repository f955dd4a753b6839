use std::collections::{BTreeMap, HashMap};

use app_registry::clock::Date;
use app_registry::uninstall::uninstall_entry;
use app_registry::{
    create_or_update_custom_protocols, create_or_update_file_associations,
    register_default_program, remove_all_custom_protocols, remove_all_file_associations,
    remove_uninstall_entry, unregister_default_program, write_uninstall_entry, Key, Locator, Plan,
    Reply, Request, Session, Value,
};

/// A registry in memory: the values of each key, by the path of the key.
struct Registry {
    keys: BTreeMap<String, BTreeMap<String, String>>,
    protected: Vec<String>,
    log: Vec<String>,
}

fn join(path: &str, sub_key: &str) -> String {
    if path.is_empty() {
        sub_key.to_string()
    } else if sub_key.is_empty() {
        path.to_string()
    } else {
        format!("{}\\{}", path, sub_key)
    }
}

impl Registry {
    fn new() -> Registry {
        Registry { keys: BTreeMap::new(), protected: Vec::new(), log: Vec::new() }
    }

    fn protect(&mut self, path: &str) {
        self.protected.push(path.to_string());
    }

    fn tree(&self, path: &str) -> Vec<String> {
        let below = format!("{}\\", path);
        self.keys.keys().filter(|key| *key == path || key.starts_with(&below)).cloned().collect()
    }

    fn value(&self, path: &str, name: &str) -> Option<&str> {
        self.keys.get(path).and_then(|values| values.get(name)).map(|text| text.as_str())
    }

    fn perform(&mut self, request: &Request, open: &mut HashMap<Key, String>) -> Reply {
        let refused = Reply::Failed("access denied".to_string());
        match request {
            Request::CreateKey { parent, sub_key, opened, .. } => {
                let path = join(&open[parent], sub_key);
                self.log.push(format!("create {}", path));
                if self.protected.contains(&path) {
                    return refused;
                }
                self.keys.entry(path.clone()).or_default();
                open.insert(*opened, path);
                Reply::Done
            }
            Request::SetValue { key, name, value } => {
                let path = open[key].clone();
                self.log.push(format!("set {} [{}]", path, name));
                let text = match value {
                    Value::Sz(text) => text.clone(),
                    Value::Dword(number) => number.to_string(),
                };
                self.keys.entry(path).or_default().insert(name.clone(), text);
                Reply::Done
            }
            Request::GetValue { key, sub_key, name } => {
                let path = join(&open[key], sub_key);
                self.log.push(format!("get {} [{}]", path, name));
                match self.value(&path, name) {
                    Some(text) => Reply::Text(text.to_string()),
                    None => Reply::Failed("not found".to_string()),
                }
            }
            Request::DeleteTree { key, sub_key } => {
                let path = join(&open[key], sub_key);
                self.log.push(format!("delete tree {}", path));
                let tree = self.tree(&path);
                if self.protected.contains(&path) {
                    return refused;
                }
                if tree.is_empty() {
                    return Reply::Failed("not found".to_string());
                }
                for key in tree {
                    self.keys.remove(&key);
                }
                Reply::Done
            }
            Request::DeleteKey { key, sub_key } => {
                let path = join(&open[key], sub_key);
                self.log.push(format!("delete {}", path));
                match self.keys.remove(&path) {
                    Some(_) => Reply::Done,
                    None => Reply::Failed("not found".to_string()),
                }
            }
        }
    }

    fn run(&mut self, plan: Plan) -> Result<(), String> {
        let mut open = HashMap::from([(Key::CurrentUser, String::new())]);
        let mut session = Session::start(plan);
        loop {
            let reply = match session.request() {
                Some(request) => self.perform(request, &mut open),
                None => break,
            };
            session.answer(reply);
        }
        match session.outcome() {
            Some(Ok(())) => Ok(()),
            Some(Err(failure)) => Err(failure.message()),
            None => unreachable!(),
        }
    }
}

fn locator(protocols: &[&str], extensions: &[&str]) -> Locator {
    Locator {
        manifest_id: "Acme.Paint".to_string(),
        manifest_title: "Acme Paint".to_string(),
        manifest_authors: "Acme".to_string(),
        manifest_version_short: "1.2.3".to_string(),
        root_dir: "C:\\Acme".to_string(),
        main_exe_path: "C:\\Acme\\paint.exe".to_string(),
        update_path: "C:\\Acme\\Update.exe".to_string(),
        icon_url: "C:\\Acme\\icon.ico".to_string(),
        custom_url_protocols: protocols.iter().map(|name| name.to_string()).collect(),
        file_associations: extensions.iter().map(|name| name.to_string()).collect(),
    }
}

const CAPABILITIES: &str = "Software\\Acme\\Acme Paint\\Capabilities";
const ENTRY: &str = "Software\\Microsoft\\Windows\\CurrentVersion\\Uninstall\\Acme.Paint";

#[test]
fn registered_application_refers_to_its_capabilities() {
    let mut registry = Registry::new();
    assert_eq!(registry.run(register_default_program(&locator(&[], &[]))), Ok(()));
    assert_eq!(
        registry.value("Software\\RegisteredApplications", "Acme.Paint"),
        Some(CAPABILITIES)
    );
    assert_eq!(registry.value(CAPABILITIES, "ApplicationName"), Some("Acme Paint"));
}

#[test]
fn registration_stops_at_the_first_failure() {
    let mut registry = Registry::new();
    registry.protect("Software\\RegisteredApplications");
    assert_eq!(
        registry.run(register_default_program(&locator(&[], &[]))),
        Err("Failed to create/open software registered applications key: access denied".to_string())
    );
    assert_eq!(registry.log.len(), 4);
}

#[test]
fn unregistering_what_is_not_there_succeeds() {
    let mut registry = Registry::new();
    assert_eq!(registry.run(unregister_default_program(&locator(&[], &[]))), Ok(()));
    assert_eq!(
        registry.log,
        vec![
            "create Software\\Classes".to_string(),
            format!("delete tree Software\\Classes\\{}", CAPABILITIES),
        ]
    );
}

#[test]
fn unregistering_fails_without_the_classes() {
    let mut registry = Registry::new();
    registry.protect("Software\\Classes");
    assert_eq!(
        registry.run(unregister_default_program(&locator(&[], &[]))),
        Err("Failed to create/open registry key: access denied".to_string())
    );
}

#[test]
fn removed_protocols_leave_nothing_behind() {
    let mut registry = Registry::new();
    let app = locator(&["paint", "draw"], &[]);
    assert_eq!(registry.run(create_or_update_custom_protocols(&app, None)), Ok(()));
    assert_eq!(
        registry.value("Software\\Classes\\paint", ""),
        Some("URL:paint protocol")
    );
    assert_eq!(registry.value("Software\\Classes\\paint", "URL Protocol"), Some(""));
    assert_eq!(
        registry.value("Software\\Classes\\draw\\shell\\open\\command", ""),
        Some("\"C:\\Acme\\paint.exe\" \"%1\"")
    );
    assert_eq!(registry.run(remove_all_custom_protocols(&app)), Ok(()));
    assert_eq!(registry.tree("Software\\Classes"), vec!["Software\\Classes"]);
}

#[test]
fn update_leaves_common_protocols_alone() {
    let mut registry = Registry::new();
    let previous = locator(&["a", "b"], &[]);
    let next = locator(&["b", "c"], &[]);
    assert_eq!(registry.run(create_or_update_custom_protocols(&previous, None)), Ok(()));
    registry.log.clear();
    assert_eq!(registry.run(create_or_update_custom_protocols(&next, Some(&previous))), Ok(()));
    assert_eq!(registry.tree("Software\\Classes\\a").len(), 0);
    assert_eq!(registry.tree("Software\\Classes\\b").len(), 2);
    assert_eq!(registry.tree("Software\\Classes\\c").len(), 2);
    assert!(registry.log.iter().all(|line| !line.contains("Software\\Classes\\b")));
}

#[test]
fn protocol_that_cannot_be_registered_does_not_stop_the_others() {
    let mut registry = Registry::new();
    registry.protect("Software\\Classes\\b");
    let app = locator(&["a", "b", "c"], &[]);
    assert_eq!(registry.run(create_or_update_custom_protocols(&app, None)), Ok(()));
    assert_eq!(registry.tree("Software\\Classes\\a").len(), 2);
    assert_eq!(registry.tree("Software\\Classes\\b").len(), 0);
    assert_eq!(registry.tree("Software\\Classes\\c").len(), 2);
}

#[test]
fn protocol_that_cannot_be_removed_stops_the_removals_only() {
    let mut registry = Registry::new();
    let previous = locator(&["a", "b", "c"], &[]);
    assert_eq!(registry.run(create_or_update_custom_protocols(&previous, None)), Ok(()));
    registry.protect("Software\\Classes\\b");
    let next = locator(&["d"], &[]);
    assert_eq!(registry.run(create_or_update_custom_protocols(&next, Some(&previous))), Ok(()));
    assert_eq!(registry.tree("Software\\Classes\\a").len(), 0);
    assert_eq!(registry.tree("Software\\Classes\\c").len(), 2);
    assert_eq!(registry.tree("Software\\Classes\\d").len(), 2);
}

#[test]
fn protocol_update_fails_without_the_classes() {
    let mut registry = Registry::new();
    registry.protect("Software\\Classes");
    assert_eq!(
        registry.run(create_or_update_custom_protocols(&locator(&["a"], &[]), None)),
        Err("Failed to create/open registry key: access denied".to_string())
    );
    assert_eq!(registry.log.len(), 1);
}

fn with_default(extension: &str, id: &str) -> Registry {
    let mut registry = Registry::new();
    registry.keys.insert(
        format!("Software\\Classes\\{}", extension),
        BTreeMap::from([(String::new(), id.to_string())]),
    );
    registry
}

#[test]
fn associated_extension_offers_the_application() {
    let mut registry = with_default("txt", "Other");
    let app = locator(&[], &["txt"]);
    assert_eq!(registry.run(create_or_update_file_associations(&app, None)), Ok(()));
    let id = "Acme Paint.File.txt";
    let class = format!("Software\\Classes\\{}", id);
    assert_eq!(
        registry.value(&format!("{}\\DefaultIcon", class), ""),
        Some("C:\\Acme\\icon.ico")
    );
    assert_eq!(
        registry.value(&format!("{}\\shell\\open\\command", class), ""),
        Some("\"C:\\Acme\\paint.exe\" \"%1\"")
    );
    assert_eq!(registry.value("Software\\Classes\\txt\\OpenWithProgIds", id), Some(""));
    assert_eq!(registry.value("Software\\Classes\\txt", ""), Some("Other"));
    assert_eq!(
        registry.value(&format!("{}\\FileAssociations", CAPABILITIES), ".txt"),
        Some(id)
    );
}

#[test]
fn default_program_id_of_the_application_is_cleared() {
    let mut registry = with_default("txt", "Acme Paint.File.txt");
    let app = locator(&[], &["txt"]);
    assert_eq!(registry.run(create_or_update_file_associations(&app, None)), Ok(()));
    assert_eq!(registry.value("Software\\Classes\\txt", ""), Some(""));
}

#[test]
fn extension_without_a_default_value_is_not_finished() {
    let mut registry = Registry::new();
    let app = locator(&[], &["txt", "md"]);
    assert_eq!(registry.run(create_or_update_file_associations(&app, None)), Ok(()));
    assert_eq!(registry.tree("Software\\Classes\\txt"), vec!["Software\\Classes\\txt"]);
    assert_eq!(registry.tree("Software\\Classes\\Acme Paint.File.md").len(), 3);
}

#[test]
fn open_command_that_cannot_be_created_does_not_stop_the_association() {
    let mut registry = with_default("txt", "Other");
    registry.protect("Software\\Classes\\Acme Paint.File.txt\\shell\\open\\command");
    let app = locator(&[], &["txt"]);
    assert_eq!(registry.run(create_or_update_file_associations(&app, None)), Ok(()));
    assert_eq!(
        registry.value("Software\\Classes\\txt\\OpenWithProgIds", "Acme Paint.File.txt"),
        Some("")
    );
}

#[test]
fn removed_extension_leaves_no_class_behind() {
    let mut registry = with_default("txt", "Other");
    let app = locator(&[], &["txt"]);
    assert_eq!(registry.run(create_or_update_file_associations(&app, None)), Ok(()));
    assert_eq!(registry.run(remove_all_file_associations(&app)), Ok(()));
    assert_eq!(registry.tree("Software\\Classes"), vec!["Software\\Classes"]);
}

#[test]
fn update_leaves_common_extensions_alone() {
    let mut registry = with_default("a", "Other");
    let previous = locator(&[], &["a", "b"]);
    let next = locator(&[], &["b", "c"]);
    assert_eq!(registry.run(create_or_update_file_associations(&previous, None)), Ok(()));
    registry.log.clear();
    assert_eq!(registry.run(create_or_update_file_associations(&next, Some(&previous))), Ok(()));
    assert_eq!(registry.tree("Software\\Classes\\a").len(), 0);
    assert_eq!(registry.tree("Software\\Classes\\Acme Paint.File.c").len(), 3);
    assert!(registry.log.iter().all(|line| !line.contains("File.b") && !line.ends_with("Classes\\b")));
}

#[test]
fn extension_update_fails_without_the_classes() {
    let mut registry = Registry::new();
    registry.protect("Software\\Classes");
    assert_eq!(
        registry.run(create_or_update_file_associations(&locator(&[], &["a"]), None)),
        Err("Failed to create/open software classes registry key: access denied".to_string())
    );
}

#[test]
fn removed_uninstall_entry_is_gone() {
    let mut registry = Registry::new();
    let app = locator(&[], &[]);
    assert_eq!(registry.run(write_uninstall_entry(&app, Some(3 * 1024))), Ok(()));
    assert_eq!(registry.value(ENTRY, "DisplayName"), Some("Acme Paint"));
    assert_eq!(registry.value(ENTRY, "EstimatedSize"), Some("3"));
    assert_eq!(registry.value(ENTRY, "Language"), Some("1033"));
    assert_eq!(registry.run(remove_uninstall_entry(&app)), Ok(()));
    assert_eq!(registry.tree(ENTRY).len(), 0);
}

#[test]
fn missing_uninstall_entry_cannot_be_removed() {
    let mut registry = Registry::new();
    assert_eq!(
        registry.run(remove_uninstall_entry(&locator(&[], &[]))),
        Err("not found".to_string())
    );
}

#[test]
fn oversized_installation_fails_with_the_texts_written() {
    let mut registry = Registry::new();
    assert_eq!(
        registry.run(write_uninstall_entry(&locator(&[], &[]), Some(u64::MAX))),
        Err("out of range integral type conversion attempted".to_string())
    );
    assert_eq!(
        registry.value(ENTRY, "UninstallString"),
        Some("\"C:\\Acme\\Update.exe\" --uninstall")
    );
    assert_eq!(registry.value(ENTRY, "EstimatedSize"), None);
}

fn prepared(paths: &[&str]) -> Registry {
    let mut registry = Registry::new();
    for path in paths {
        registry.keys.insert(path.to_string(), BTreeMap::new());
    }
    registry
}

#[test]
fn writing_the_uninstall_entry_twice_is_writing_it_once() {
    let mut registry = Registry::new();
    let app = locator(&[], &[]);
    let day = Date { year: 2024, month: 3, day: 7 };
    assert_eq!(registry.run(uninstall_entry(&app, Some(4096), day)), Ok(()));
    let once = registry.keys.clone();
    assert_eq!(registry.run(uninstall_entry(&app, Some(4096), day)), Ok(()));
    assert_eq!(registry.keys, once);
}

#[test]
fn registering_twice_is_registering_once() {
    let mut registry = prepared(&["Software\\RegisteredApplications"]);
    registry
        .keys
        .get_mut("Software\\RegisteredApplications")
        .unwrap()
        .insert("Other".to_string(), "Software\\Other\\Capabilities".to_string());
    let app = locator(&[], &[]);
    assert_eq!(registry.run(register_default_program(&app)), Ok(()));
    let once = registry.keys.clone();
    assert_eq!(registry.run(register_default_program(&app)), Ok(()));
    assert_eq!(registry.keys, once);
    assert_eq!(
        registry.value("Software\\RegisteredApplications", "Other"),
        Some("Software\\Other\\Capabilities")
    );
}

#[test]
fn removing_all_protocols_restores_the_registry() {
    let mut registry = prepared(&["Software\\Classes", "Software\\Classes\\other"]);
    let before = registry.keys.clone();
    let app = locator(&["paint", "draw"], &[]);
    assert_eq!(registry.run(create_or_update_custom_protocols(&app, None)), Ok(()));
    assert_ne!(registry.keys, before);
    assert_eq!(registry.run(remove_all_custom_protocols(&app)), Ok(()));
    assert_eq!(registry.keys, before);
}

#[test]
fn removing_the_uninstall_entry_restores_the_registry() {
    let list = "Software\\Microsoft\\Windows\\CurrentVersion\\Uninstall";
    let other = format!("{}\\Other", list);
    for size in [4096u64, u64::MAX] {
        let mut registry = prepared(&[list, &other]);
        let before = registry.keys.clone();
        let app = locator(&[], &[]);
        assert_eq!(registry.run(write_uninstall_entry(&app, Some(size))).is_ok(), size == 4096);
        assert_ne!(registry.keys, before);
        assert_eq!(registry.run(remove_uninstall_entry(&app)), Ok(()));
        assert_eq!(registry.keys, before);
    }
}

#[test]
fn extension_that_cannot_be_removed_does_not_stop_the_additions() {
    let mut registry = with_default("c", "Other");
    let previous = locator(&[], &["a", "b"]);
    let next = locator(&[], &["c"]);
    registry.protect("Software\\Classes\\Acme Paint.File.a");
    assert_eq!(registry.run(create_or_update_file_associations(&next, Some(&previous))), Ok(()));
    assert_eq!(
        registry.value("Software\\Classes\\c\\OpenWithProgIds", "Acme Paint.File.c"),
        Some("")
    );
}

#[test]
fn default_program_id_is_cleared_without_an_open_command() {
    let mut registry = with_default("txt", "Acme Paint.File.txt");
    registry.protect("Software\\Classes\\Acme Paint.File.txt\\shell\\open\\command");
    let app = locator(&[], &["txt"]);
    assert_eq!(registry.run(create_or_update_file_associations(&app, None)), Ok(()));
    assert_eq!(registry.value("Software\\Classes\\txt", ""), Some(""));
}

#[test]
fn each_default_program_id_is_cleared_on_its_own() {
    let mut registry = with_default("a", "Acme Paint.File.a");
    for (extension, id) in [("b", "Other"), ("c", "Acme Paint.File.c")] {
        registry.keys.insert(
            format!("Software\\Classes\\{}", extension),
            BTreeMap::from([(String::new(), id.to_string())]),
        );
    }
    let app = locator(&[], &["a", "b", "c"]);
    assert_eq!(registry.run(create_or_update_file_associations(&app, None)), Ok(()));
    assert_eq!(registry.value("Software\\Classes\\a", ""), Some(""));
    assert_eq!(registry.value("Software\\Classes\\b", ""), Some("Other"));
    assert_eq!(registry.value("Software\\Classes\\c", ""), Some(""));
}

#[test]
fn program_id_under_another_title_stays() {
    let mut registry = with_default("a", "Other");
    let mut previous = locator(&[], &["a"]);
    previous.manifest_title = "Acme Draw".to_string();
    assert_eq!(registry.run(create_or_update_file_associations(&previous, None)), Ok(()));
    let next = locator(&[], &["b"]);
    assert_eq!(registry.run(create_or_update_file_associations(&next, Some(&previous))), Ok(()));
    assert_eq!(registry.tree("Software\\Classes\\Acme Draw.File.a").len(), 3);
}
