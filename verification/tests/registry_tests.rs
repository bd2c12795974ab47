use software_manager::registry::{get_installed_software, merge_software, read_uninstall_key, software_from_entry, Software, UninstallEntry};

fn s(v: &str) -> Option<String> {
    Some(v.to_string())
}

fn entry(name: &str, version: &str, publisher: &str, location: &str, uninstall: &str) -> UninstallEntry {
    UninstallEntry {
        display_name: s(name),
        display_version: s(version),
        publisher: s(publisher),
        install_location: s(location),
        uninstall_string: s(uninstall),
        quiet_uninstall_string: None,
    }
}

#[test]
fn entry_without_name_is_skipped() {
    let mut e = entry("", "1", "p", "C:\\x", "u");
    assert!(software_from_entry(&e).is_none());
    e.display_name = None;
    assert!(software_from_entry(&e).is_none());
}

#[test]
fn quiet_uninstall_string_is_the_fallback() {
    let mut e = entry("App", "", "", "", "");
    e.uninstall_string = None;
    e.quiet_uninstall_string = s("app.exe /quiet");
    assert_eq!(software_from_entry(&e).unwrap().uninstall_string, "app.exe /quiet");
    e.uninstall_string = s("");
    assert_eq!(software_from_entry(&e).unwrap().uninstall_string, "");
    e.uninstall_string = s("app.exe /u");
    assert_eq!(software_from_entry(&e).unwrap().uninstall_string, "app.exe /u");
}

#[test]
fn missing_values_become_empty() {
    let e = UninstallEntry {
        display_name: s("App"),
        display_version: None,
        publisher: None,
        install_location: None,
        uninstall_string: None,
        quiet_uninstall_string: None,
    };
    let sw = software_from_entry(&e).unwrap();
    assert_eq!(sw, Software {
        name: "App".to_string(),
        version: String::new(),
        publisher: String::new(),
        install_location: String::new(),
        uninstall_string: String::new(),
    });
}

#[test]
fn merge_fills_only_empty_fields() {
    let mut list = Vec::new();
    merge_software(&mut list, software_from_entry(&entry("App", "", "First", "", "u1")).unwrap());
    merge_software(&mut list, software_from_entry(&entry("App", "2.0", "Second", "C:\\App", "u2")).unwrap());
    assert_eq!(list.len(), 1);
    assert_eq!(list[0].version, "2.0");
    assert_eq!(list[0].publisher, "First");
    assert_eq!(list[0].install_location, "C:\\App");
    assert_eq!(list[0].uninstall_string, "u1");
}

#[test]
fn installed_software_is_deduplicated_and_sorted() {
    let entries = vec![
        entry("zeta", "1", "", "", ""),
        entry("Alpha", "", "", "", ""),
        entry("beta", "", "B Inc", "", ""),
        entry("", "9", "", "", ""),
        entry("Alpha", "3.1", "A Inc", "C:\\Alpha", "alpha-uninstall"),
        entry("Beta", "", "", "", ""),
    ];
    let list = get_installed_software(&entries);
    let names: Vec<&str> = list.iter().map(|s| s.name.as_str()).collect();
    assert_eq!(names, vec!["Alpha", "beta", "Beta", "zeta"]);
    assert_eq!(list[0].version, "3.1");
    assert_eq!(list[0].publisher, "A Inc");
    assert_eq!(list[0].install_location, "C:\\Alpha");
    assert_eq!(list[0].uninstall_string, "alpha-uninstall");
    assert_eq!(list[1].publisher, "B Inc");
}

#[test]
fn no_entries_no_software() {
    assert!(get_installed_software(&Vec::new()).is_empty());
}

#[test]
fn sorting_follows_string_order_of_lowercased_names() {
    let entries = vec![entry("ab", "", "", "", ""), entry("A", "", "", "", ""), entry("Äpfel", "", "", "", ""), entry("b", "", "", "", "")];
    let list = get_installed_software(&entries);
    let names: Vec<&str> = list.iter().map(|s| s.name.as_str()).collect();
    assert_eq!(names, vec!["A", "ab", "b", "Äpfel"]);
}

#[test]
fn reading_a_key_keeps_what_is_listed() {
    let mut list = vec![Software {
        name: "App".to_string(),
        version: "1.0".to_string(),
        publisher: String::new(),
        install_location: "C:\\App".to_string(),
        uninstall_string: String::new(),
    }];
    let entries = vec![
        entry("App", "2.0", "Vendor", "D:\\App", "uninst.exe"),
        entry("", "9", "", "", ""),
        entry("Tool", "", "", "", ""),
    ];
    read_uninstall_key(&mut list, &entries);
    assert_eq!(list.len(), 2);
    assert_eq!(list[0].version, "1.0");
    assert_eq!(list[0].install_location, "C:\\App");
    assert_eq!(list[0].publisher, "Vendor");
    assert_eq!(list[0].uninstall_string, "uninst.exe");
    assert_eq!(list[1].name, "Tool");
}
