use software_manager::shortcuts::{find_shortcuts_for_path, is_lnk_extension, lists_folder, scan_step, shortcut_matches, LinkFile, ScanStep, SHORTCUT_SCAN_DEPTH};

const CLSID: [u8; 16] = [
    0x01, 0x14, 0x02, 0x00, 0x00, 0x00, 0x00, 0x00, 0xC0, 0x00, 0x00, 0x00, 0x00, 0x00, 0x00, 0x46,
];

fn lnk_bytes(target: &str) -> Vec<u8> {
    let mut v = Vec::new();
    v.extend_from_slice(&0x4Cu32.to_le_bytes());
    v.extend_from_slice(&CLSID);
    v.extend_from_slice(&0x02u32.to_le_bytes());
    v.resize(76, 0);
    let path = format!("{}\0", target);
    let size = 28 + path.len() as u32;
    for x in [size, 28, 0, 0, 28, 0, 0] {
        v.extend_from_slice(&x.to_le_bytes());
    }
    v.extend_from_slice(path.as_bytes());
    v
}

fn link(name: &str, target: &str) -> LinkFile {
    LinkFile {
        name: name.to_string(),
        path: format!("C:\\Users\\me\\Desktop\\{}.lnk", name),
        data: lnk_bytes(target),
    }
}

#[test]
fn matches_either_containment() {
    assert!(shortcut_matches("c:\\program files\\app", "c:\\program files\\app\\app.exe"));
    assert!(shortcut_matches("c:\\program files\\app\\bin", "c:\\program files\\app"));
    assert!(!shortcut_matches("c:\\program files\\app", "d:\\other\\tool.exe"));
    assert!(shortcut_matches("same", "same"));
}

#[test]
fn match_is_symmetric() {
    let pairs = [("a\\b", "a\\b\\c"), ("x", "y"), ("", "z"), ("abc", "abc")];
    for (a, b) in pairs {
        assert_eq!(shortcut_matches(a, b), shortcut_matches(b, a));
    }
}

#[test]
fn lnk_extension() {
    assert!(is_lnk_extension("lnk"));
    assert!(is_lnk_extension("LNK"));
    assert!(is_lnk_extension("LnK"));
    assert!(!is_lnk_extension("lnk2"));
    assert!(!is_lnk_extension("exe"));
    assert!(!is_lnk_extension(""));
}

#[test]
fn finds_related_shortcuts_ignoring_case() {
    let files = vec![
        link("App", "C:\\Program Files\\App\\app.exe"),
        link("Other", "D:\\Tools\\other.exe"),
        link("Uninstall App", "c:\\program files\\APP\\uninst.exe"),
        LinkFile { name: "Broken".to_string(), path: "C:\\b.lnk".to_string(), data: vec![1, 2, 3] },
    ];
    let found = find_shortcuts_for_path("C:\\Program Files\\App", &files);
    assert_eq!(found.len(), 2);
    assert_eq!(found[0].name, "App");
    assert_eq!(found[0].path, "C:\\Users\\me\\Desktop\\App.lnk");
    assert_eq!(found[0].target, "C:\\Program Files\\App\\app.exe");
    assert_eq!(found[1].name, "Uninstall App");
    assert_eq!(found[1].target, "c:\\program files\\APP\\uninst.exe");
}

#[test]
fn location_inside_target_matches() {
    let files = vec![link("Root", "C:\\Games")];
    let found = find_shortcuts_for_path("C:\\GAMES\\Chess", &files);
    assert_eq!(found.len(), 1);
    assert_eq!(found[0].target, "C:\\Games");
}

#[test]
fn no_files_no_shortcuts() {
    assert!(find_shortcuts_for_path("C:\\x", &Vec::new()).is_empty());
}

#[test]
fn scan_steps() {
    assert!(lists_folder(SHORTCUT_SCAN_DEPTH));
    assert!(!lists_folder(0));
    assert_eq!(scan_step(2, true, None), ScanStep::Descend(1));
    assert_eq!(scan_step(1, true, Some("lnk")), ScanStep::Descend(0));
    assert_eq!(scan_step(2, false, Some("LNK")), ScanStep::ReadLink);
    assert_eq!(scan_step(2, false, Some("exe")), ScanStep::Skip);
    assert_eq!(scan_step(2, false, None), ScanStep::Skip);
}
