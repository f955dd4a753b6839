use app_registry::changes::{changes, subtract};
use app_registry::clock::Date;
use app_registry::locator::{
    get_application_capability_path, program_id_prefix, shell_open_command, Locator,
};
use app_registry::text::{format_decimal, format_signed, format_two_digits, same_texts};
use app_registry::uninstall::format_install_date;

fn list(names: &[&str]) -> Vec<String> {
    names.iter().map(|name| name.to_string()).collect()
}

fn locator() -> Locator {
    Locator {
        manifest_id: "Acme.Paint".to_string(),
        manifest_title: "Acme Paint".to_string(),
        manifest_authors: "Acme".to_string(),
        manifest_version_short: "1.2.3".to_string(),
        root_dir: "C:\\Acme".to_string(),
        main_exe_path: "C:\\Acme\\current\\paint.exe".to_string(),
        update_path: "C:\\Acme\\Update.exe".to_string(),
        icon_url: "C:\\Acme\\icon.ico".to_string(),
        custom_url_protocols: Vec::new(),
        file_associations: Vec::new(),
    }
}

#[test]
fn numbers_are_written_in_decimal() {
    for n in [0u32, 1, 9, 10, 42, 99, 100, 2024, 1_000_000, u32::MAX] {
        assert_eq!(format_decimal(n), n.to_string());
    }
    for n in [0i32, 7, 2024, -1, -10, i32::MAX, i32::MIN] {
        assert_eq!(format_signed(n), n.to_string());
    }
    for n in [0u32, 5, 9, 10, 12, 31, 100] {
        assert_eq!(format_two_digits(n), format!("{:02}", n));
    }
}

#[test]
fn install_date_has_no_separators() {
    assert_eq!(format_install_date(Date { year: 2024, month: 3, day: 7 }), "20240307");
    assert_eq!(format_install_date(Date { year: 1999, month: 12, day: 31 }), "19991231");
    assert_eq!(format_install_date(Date { year: 987, month: 1, day: 1 }), "9870101");
    assert_eq!(format_install_date(Date { year: -4, month: 10, day: 10 }), "-41010");
}

#[test]
fn install_dates_of_different_dates_differ() {
    let mut seen = std::collections::HashSet::new();
    for year in [-1i32, 0, 1, 11, 111, 2023, 2024] {
        for month in 0..=99u32 {
            for day in 0..=99u32 {
                assert!(seen.insert(format_install_date(Date { year, month, day })));
            }
        }
    }
}

#[test]
fn lists_are_compared_in_order() {
    assert!(same_texts(&list(&[]), &list(&[])));
    assert!(same_texts(&list(&["a", "b"]), &list(&["a", "b"])));
    assert!(!same_texts(&list(&["a", "b"]), &list(&["b", "a"])));
    assert!(!same_texts(&list(&["a"]), &list(&["a", "a"])));
    assert!(!same_texts(&list(&["a"]), &list(&["A"])));
}

#[test]
fn difference_holds_each_name_once() {
    assert_eq!(subtract(&list(&["a", "b", "a", "c", "b"]), &list(&["c"])), list(&["a", "b"]));
    assert_eq!(subtract(&list(&["a", "b"]), &list(&["b", "a", "b"])), list(&[]));
    assert_eq!(subtract(&list(&[]), &list(&["a"])), list(&[]));
    assert_eq!(subtract(&list(&["a", "a"]), &list(&[])), list(&["a"]));
}

#[test]
fn changes_remove_the_old_and_add_the_new() {
    assert_eq!(
        changes(&list(&["a", "b", "c"]), &list(&["d", "b", "e"])),
        (list(&["a", "c"]), list(&["d", "e"]))
    );
}

#[test]
fn changes_to_or_from_nothing_keep_the_list() {
    assert_eq!(changes(&list(&[]), &list(&["b", "a", "b"])), (list(&[]), list(&["b", "a", "b"])));
    assert_eq!(changes(&list(&["b", "a", "b"]), &list(&[])), (list(&["b", "a", "b"]), list(&[])));
    assert_eq!(changes(&list(&[]), &list(&[])), (list(&[]), list(&[])));
}

#[test]
fn same_names_in_another_order_are_no_change() {
    assert_eq!(changes(&list(&["a", "b"]), &list(&["b", "a", "a"])), (list(&[]), list(&[])));
}

#[test]
fn common_names_are_left_alone_and_the_next_list_is_reached() {
    let lists = [list(&[]), list(&["a"]), list(&["a", "b"]), list(&["b", "c", "b"]), list(&["d"])];
    for prev in &lists {
        for next in &lists {
            let (removed, added) = changes(prev, next);
            for name in ["a", "b", "c", "d"] {
                let name = name.to_string();
                let (before, after) = (prev.contains(&name), next.contains(&name));
                assert_eq!(removed.contains(&name), before && !after);
                assert_eq!(added.contains(&name), after && !before);
            }
        }
    }
}

#[test]
fn paths_and_commands_of_an_application() {
    let app = locator();
    assert_eq!(get_application_capability_path(&app), "Software\\Acme\\Acme Paint\\Capabilities");
    assert_eq!(program_id_prefix(&app), "Acme Paint.File");
    assert_eq!(
        shell_open_command("C:\\Acme\\current\\paint.exe"),
        "\"C:\\Acme\\current\\paint.exe\" \"%1\""
    );
}
