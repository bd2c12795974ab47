use software_manager::app::{decimal_string, dir_header, size_unit, subtitle, SizeUnit, SoftwareManagerApp};
use software_manager::files::FileEntry;
use software_manager::registry::Software;
use software_manager::shortcuts::ShortcutInfo;

fn sw(name: &str, version: &str, publisher: &str, location: &str, uninstall: &str) -> Software {
    Software {
        name: name.to_string(),
        version: version.to_string(),
        publisher: publisher.to_string(),
        install_location: location.to_string(),
        uninstall_string: uninstall.to_string(),
    }
}

fn sample() -> Vec<Software> {
    vec![
        sw("7-Zip", "23.01", "Igor Pavlov", "C:\\Program Files\\7-Zip", "C:\\Program Files\\7-Zip\\Uninstall.exe"),
        sw("Git", "2.44", "", "", ""),
        sw("Notepad++", "", "Don Ho", "C:\\Notepad++", "uninst.exe"),
    ]
}

#[test]
fn starts_loading() {
    let app = SoftwareManagerApp::default();
    assert!(app.loading);
    assert!(app.needs_initial_load());
    assert!(app.needs_repaint());
    assert_eq!(app.status_message, "正在加载软件列表...");
    assert!(app.selected_index.is_none());
}

#[test]
fn loading_sets_status() {
    let mut app = SoftwareManagerApp::default();
    app.load_software(sample());
    assert!(!app.loading);
    assert!(!app.needs_initial_load());
    assert!(!app.needs_repaint());
    assert_eq!(app.status_message, "已加载 3 个软件");
    assert_eq!(app.software_list.len(), 3);
}

#[test]
fn selecting_returns_location_to_scan() {
    let mut app = SoftwareManagerApp::default();
    app.load_software(sample());
    let loc = app.select_software(0);
    assert_eq!(loc, Some("C:\\Program Files\\7-Zip".to_string()));
    assert!(app.detail_loading);
    let tree = FileEntry { name: "7-Zip".to_string(), path: "C:\\Program Files\\7-Zip".to_string(), is_dir: true, size: 0, children: Vec::new() };
    let sc = vec![ShortcutInfo { name: "7-Zip".to_string(), path: "p".to_string(), target: "t".to_string() }];
    app.show_details(Some(tree), sc);
    assert!(!app.detail_loading);
    assert_eq!(app.shortcuts.len(), 1);
    assert!(app.file_tree.is_some());

    assert_eq!(app.select_software(1), None);
    assert_eq!(app.selected_index, Some(1));
    assert!(app.file_tree.is_none());
    assert!(app.shortcuts.is_empty());
}

#[test]
fn uninstall_command_needs_selection_and_command() {
    let mut app = SoftwareManagerApp::default();
    app.load_software(sample());
    assert_eq!(app.uninstall_command(), None);
    app.select_software(1);
    assert_eq!(app.uninstall_command(), None);
    app.select_software(2);
    assert_eq!(app.uninstall_command(), Some("uninst.exe".to_string()));
}

#[test]
fn refresh_clears_selection() {
    let mut app = SoftwareManagerApp::default();
    app.load_software(sample());
    app.select_software(2);
    app.refresh(vec![sw("Only", "", "", "", "")]);
    assert!(app.selected_index.is_none());
    assert!(app.file_tree.is_none());
    assert!(app.shortcuts.is_empty());
    assert_eq!(app.status_message, "已加载 1 个软件");
}

#[test]
fn loading_keeps_the_selection() {
    let mut app = SoftwareManagerApp::default();
    app.load_software(sample());
    app.select_software(2);
    app.load_software(vec![sw("A", "", "", "", "")]);
    assert_eq!(app.selected_index, Some(2));
    assert_eq!(app.search_text, "");
    app.refresh(sample());
    assert!(app.selected_index.is_none());
}

#[test]
fn search_filters_case_insensitively() {
    let mut app = SoftwareManagerApp::default();
    app.load_software(sample());
    assert_eq!(app.filtered_indices(), vec![0, 1, 2]);
    app.search_text = "GI".to_string();
    assert_eq!(app.filtered_indices(), vec![1]);
    app.search_text = "p".to_string();
    assert_eq!(app.filtered_indices(), vec![0, 2]);
    app.search_text = "none".to_string();
    assert!(app.filtered_indices().is_empty());
}

#[test]
fn subtitles() {
    let list = sample();
    assert_eq!(subtitle(&list[0]), "23.01 · Igor Pavlov");
    assert_eq!(subtitle(&list[1]), "2.44");
    assert_eq!(subtitle(&list[2]), "Don Ho");
    assert_eq!(subtitle(&sw("x", "", "", "", "")), "");
}

#[test]
fn directory_headers() {
    let mut d = FileEntry { name: "bin".to_string(), path: "C:\\bin".to_string(), is_dir: true, size: 0, children: Vec::new() };
    assert_eq!(dir_header(&d), "📁 bin (空)");
    for i in 0..12 {
        d.children.push(FileEntry { name: format!("f{}", i), path: String::new(), is_dir: false, size: 0, children: Vec::new() });
    }
    assert_eq!(dir_header(&d), "📁 bin (12 项)");
}

#[test]
fn size_units() {
    assert_eq!(size_unit(0), SizeUnit::Bytes);
    assert_eq!(size_unit(1024), SizeUnit::Bytes);
    assert_eq!(size_unit(1025), SizeUnit::Kilobytes);
    assert_eq!(size_unit(1024 * 1024), SizeUnit::Kilobytes);
    assert_eq!(size_unit(1024 * 1024 + 1), SizeUnit::Megabytes);
}

#[test]
fn decimal_numbers() {
    assert_eq!(decimal_string(0), "0");
    assert_eq!(decimal_string(7), "7");
    assert_eq!(decimal_string(10), "10");
    assert_eq!(decimal_string(1999), "1999");
    assert_eq!(decimal_string(usize::MAX), usize::MAX.to_string());
}
