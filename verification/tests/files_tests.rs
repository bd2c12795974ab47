use software_manager::files::{build_file_tree, insert_into_tree, trim_separators, FileEntry, WalkEntry, MAX_SCAN_ENTRIES};

fn dir(name: &str, path: &str) -> FileEntry {
    FileEntry { name: name.to_string(), path: path.to_string(), is_dir: true, size: 0, children: Vec::new() }
}

fn file(name: &str, path: &str, size: u64) -> FileEntry {
    FileEntry { name: name.to_string(), path: path.to_string(), is_dir: false, size, children: Vec::new() }
}

fn walk(name: &str, path: &str, parent: &str, is_dir: bool, len: Option<u64>) -> WalkEntry {
    WalkEntry {
        name: name.to_string(),
        path: path.to_string(),
        parent: parent.to_string(),
        is_dir,
        len,
        is_root: false,
    }
}

fn count(n: &FileEntry) -> usize {
    1 + n.children.iter().map(count).sum::<usize>()
}

#[test]
fn inserts_under_matching_directory() {
    let mut root = dir("App", "C:\\App");
    assert!(insert_into_tree(&mut root, "C:\\App", &dir("bin", "C:\\App\\bin")));
    assert!(insert_into_tree(&mut root, "c:\\app\\BIN", &file("a.exe", "C:\\App\\bin\\a.exe", 10)));
    assert_eq!(root.children.len(), 1);
    assert_eq!(root.children[0].children.len(), 1);
    assert_eq!(root.children[0].children[0].name, "a.exe");
    assert_eq!(root.children[0].children[0].size, 10);
}

#[test]
fn missing_parent_leaves_tree_unchanged() {
    let mut root = dir("App", "C:\\App");
    root.children.push(dir("bin", "C:\\App\\bin"));
    assert!(!insert_into_tree(&mut root, "C:\\Other", &file("x", "C:\\Other\\x", 1)));
    assert!(!insert_into_tree(&mut root, "C:\\App\\lib", &file("x", "C:\\App\\lib\\x", 1)));
    assert_eq!(count(&root), 2);
}

#[test]
fn files_never_get_children() {
    let mut root = dir("App", "C:\\App");
    root.children.push(file("readme", "C:\\App\\readme", 3));
    assert!(!insert_into_tree(&mut root, "C:\\App\\readme", &file("x", "C:\\App\\readme\\x", 1)));
}

#[test]
fn first_matching_directory_in_preorder_wins() {
    let mut root = dir("App", "C:\\App");
    root.children.push(dir("data", "C:\\App\\data"));
    root.children.push(dir("DATA", "C:\\App\\DATA"));
    assert!(insert_into_tree(&mut root, "C:\\App\\Data", &file("f", "C:\\App\\Data\\f", 1)));
    assert_eq!(root.children[0].children.len(), 1);
    assert_eq!(root.children[1].children.len(), 0);
}

#[test]
fn builds_tree_from_walk() {
    let mut root_walk = walk("App", "C:\\App", "C:\\", true, None);
    root_walk.is_root = true;
    let entries = vec![
        root_walk,
        walk("bin", "C:\\App\\bin", "C:\\App", true, Some(4096)),
        walk("a.exe", "C:\\App\\bin\\a.exe", "C:\\App\\bin", false, Some(1234)),
        walk("b.dll", "C:\\App\\bin\\b.dll", "C:\\App\\bin", false, None),
        walk("readme.txt", "C:\\App\\readme.txt", "C:\\App", false, Some(7)),
        walk("stray", "D:\\stray", "D:\\", false, Some(1)),
    ];
    let tree = build_file_tree("App".to_string(), "C:\\App".to_string(), &entries);
    assert_eq!(tree.name, "App");
    assert!(tree.is_dir);
    assert_eq!(tree.size, 0);
    assert_eq!(tree.children.len(), 2);
    let bin = &tree.children[0];
    assert_eq!(bin.name, "bin");
    assert_eq!(bin.size, 0);
    assert_eq!(bin.children.len(), 2);
    assert_eq!(bin.children[0].size, 1234);
    assert_eq!(bin.children[1].size, 0);
    assert_eq!(tree.children[1].name, "readme.txt");
    assert_eq!(tree.children[1].size, 7);
    assert_eq!(count(&tree), 5);
}

#[test]
fn tree_holds_at_most_the_entry_limit() {
    let mut entries = Vec::new();
    let mut root_walk = walk("R", "R", "", true, None);
    root_walk.is_root = true;
    entries.push(root_walk);
    for i in 0..2500 {
        entries.push(walk(&format!("f{}", i), &format!("R\\f{}", i), "R", false, Some(1)));
    }
    let tree = build_file_tree("R".to_string(), "R".to_string(), &entries);
    assert_eq!(count(&tree), MAX_SCAN_ENTRIES);
    assert_eq!(tree.children.len(), MAX_SCAN_ENTRIES - 1);
    assert_eq!(tree.children[MAX_SCAN_ENTRIES - 2].name, "f1998");
}

#[test]
fn clone_copies_whole_tree() {
    let mut root = dir("App", "C:\\App");
    root.children.push(dir("bin", "C:\\App\\bin"));
    root.children[0].children.push(file("a", "C:\\App\\bin\\a", 5));
    let copy = root.clone();
    assert_eq!(count(&copy), 3);
    assert_eq!(copy.children[0].children[0].size, 5);
}

#[test]
fn trailing_separator_on_root_keeps_files() {
    let mut root_walk = walk("d", "d/", "", true, None);
    root_walk.is_root = true;
    let entries = vec![root_walk, walk("f.txt", "d/f.txt", "d", false, Some(3))];
    let tree = build_file_tree("d".to_string(), "d/".to_string(), &entries);
    assert_eq!(tree.path, "d/");
    assert_eq!(tree.children.len(), 1);
    assert_eq!(tree.children[0].name, "f.txt");
}

#[test]
fn drive_root_with_separator() {
    let mut root_walk = walk("C:\\", "C:\\", "", true, None);
    root_walk.is_root = true;
    let entries = vec![
        root_walk,
        walk("App", "C:\\App", "C:\\", true, None),
        walk("a.exe", "C:\\App\\a.exe", "C:\\App", false, Some(1)),
    ];
    let tree = build_file_tree("C:\\".to_string(), "C:\\".to_string(), &entries);
    assert_eq!(tree.children.len(), 1);
    assert_eq!(tree.children[0].children.len(), 1);
}

#[test]
fn trailing_separators_are_trimmed() {
    assert_eq!(trim_separators("C:\\App\\"), "C:\\App");
    assert_eq!(trim_separators("d//"), "d");
    assert_eq!(trim_separators("/"), "");
    assert_eq!(trim_separators("plain"), "plain");
}

#[test]
fn every_walked_item_lands_in_tree() {
    let mut root_walk = walk("App", "C:\\App\\", "C:\\", true, None);
    root_walk.is_root = true;
    let entries = vec![
        root_walk,
        walk("bin", "C:\\App\\bin", "C:\\App", true, None),
        walk("x.dll", "C:\\App\\bin\\x.dll", "C:\\App\\bin", false, Some(1)),
        walk("Lib", "C:\\App\\Lib", "c:\\app", true, None),
        walk("y", "C:\\App\\Lib\\y", "C:\\APP\\LIB", false, None),
    ];
    let tree = build_file_tree("App".to_string(), "C:\\App\\".to_string(), &entries);
    assert_eq!(count(&tree), 5);
}
