//! The file tree of an install directory, built from a depth-first walk.
use vstd::prelude::*;
use crate::text::{eq_ascii_nocase, seq_starts_with, lowercase, to_lowercase, str_starts_with,
    str_eq_ignore_ascii_case, chars_of, ascii_fold};

verus! {

/// A file or directory of an install directory, with its children.
#[derive(Debug)]
pub struct FileEntry {
    pub name: String,
    pub path: String,
    pub is_dir: bool,
    pub size: u64,
    pub children: Vec<FileEntry>,
}

/// The mathematical content of a `FileEntry`.
pub struct FileNode {
    pub name: Seq<char>,
    pub path: Seq<char>,
    pub is_dir: bool,
    pub size: u64,
    pub children: Seq<FileNode>,
}

/// The `FileNode` that a `FileEntry` holds.
pub open spec fn entry_node(e: FileEntry) -> FileNode
    decreases e,
{
    FileNode {
        name: e.name@,
        path: e.path@,
        is_dir: e.is_dir,
        size: e.size,
        children: Seq::new(
            e.children@.len(),
            |i: int|
                if 0 <= i < e.children@.len() {
                    entry_node(e.children@[i])
                } else {
                    FileNode { name: Seq::empty(), path: Seq::empty(), is_dir: false, size: 0, children: Seq::empty() }
                },
        ),
    }
}

impl View for FileEntry {
    type V = FileNode;

    open spec fn view(&self) -> FileNode {
        entry_node(*self)
    }
}

/// A copy of `e`, node by node.
pub fn copy_entry(e: &FileEntry) -> (res: FileEntry)
    ensures
        res@ == e@,
    decreases e,
{
    let mut children: Vec<FileEntry> = Vec::new();
    let n = e.children.len();
    let mut i: usize = 0;
    while i < n
        invariant
            n == e.children@.len(),
            i <= n,
            children@.len() == i,
            forall|j: int| 0 <= j < i ==> (#[trigger] children@[j])@ == e.children@[j]@,
        decreases n - i,
    {
        assert(decreases_to!(e => e.children@[i as int]));
        let c = copy_entry(&e.children[i]);
        children.push(c);
        i = i + 1;
    }
    let res = FileEntry {
        name: e.name.clone(),
        path: e.path.clone(),
        is_dir: e.is_dir,
        size: e.size,
        children,
    };
    assert(res@.children =~= e@.children);
    res
}

/// `n` with `children` as its children.
pub open spec fn with_children(n: FileNode, children: Seq<FileNode>) -> FileNode {
    FileNode { name: n.name, path: n.path, is_dir: n.is_dir, size: n.size, children }
}

/// A path separator, `/` or `\\`.
pub open spec fn is_sep(c: char) -> bool {
    c == '/' || c == '\\'
}

/// A path without its trailing separators.
pub open spec fn trim_seps(s: Seq<char>) -> Seq<char>
    decreases s.len(),
{
    if s.len() > 0 && is_sep(s.last()) {
        trim_seps(s.drop_last())
    } else {
        s
    }
}

/// `n` is the directory that a new entry whose parent path is `target` is
/// put under: a directory whose path equals `target` up to ASCII case, once
/// trailing separators are removed from both.
pub open spec fn is_parent_of(n: FileNode, target: Seq<char>) -> bool {
    n.is_dir && eq_ascii_nocase(trim_seps(n.path), trim_seps(target))
}

/// The search goes on below `n`: a directory whose lowercased path is a prefix
/// of the lowercased `target`, trailing separators removed from both.
pub open spec fn may_contain(n: FileNode, target: Seq<char>) -> bool {
    n.is_dir && seq_starts_with(lowercase(trim_seps(target)), lowercase(trim_seps(n.path)))
}

/// `s` without its trailing path separators.
pub fn trim_separators(s: &str) -> (res: &str)
    ensures
        res@ == trim_seps(s@),
{
    let v = chars_of(s);
    let mut end = v.len();
    assert(s@.subrange(0, end as int) =~= s@);
    while end > 0 && (v[end - 1] == '/' || v[end - 1] == '\\')
        invariant
            v@ == s@,
            end <= v@.len(),
            trim_seps(s@) == trim_seps(s@.subrange(0, end as int)),
        decreases end,
    {
        assert(s@.subrange(0, end as int).drop_last() =~= s@.subrange(0, end - 1));
        end = end - 1;
    }
    s.substring_char(0, end)
}

/// The tree `n` after putting `entry` under the first directory, in pre-order,
/// that `is_parent_of(_, target)`, descending only into directories that
/// `may_contain` the target; `None` when the search finds no such directory.
pub open spec fn tree_insert(n: FileNode, target: Seq<char>, entry: FileNode) -> Option<FileNode>
    decreases n, n.children.len() + 1,
{
    if is_parent_of(n, target) {
        Some(with_children(n, n.children.push(entry)))
    } else if may_contain(n, target) {
        children_insert(n, target, entry, 0)
    } else {
        None
    }
}

/// The first child of `n` at index `i` or later that accepts `entry`, with
/// `n` updated accordingly.
pub open spec fn children_insert(n: FileNode, target: Seq<char>, entry: FileNode, i: int) -> Option<FileNode>
    decreases n, n.children.len() - i,
{
    if i < 0 || i >= n.children.len() {
        None
    } else {
        match tree_insert(n.children[i], target, entry) {
            Some(c) => Some(with_children(n, n.children.update(i, c))),
            None => children_insert(n, target, entry, i + 1),
        }
    }
}

/// Puts a copy of `entry` under the directory of `node`'s tree that
/// `tree_insert` selects for the parent path `target_parent` (paths compared
/// without trailing separators); reports whether one was found (the tree is
/// unchanged when not).
pub fn insert_into_tree(node: &mut FileEntry, target_parent: &str, entry: &FileEntry) -> (res: bool)
    ensures
        match tree_insert(old(node)@, target_parent@, entry@) {
            Some(n) => res && final(node)@ == n,
            None => !res && final(node)@ == old(node)@,
        },
    decreases *old(node),
{
    let target_trim = trim_separators(target_parent);
    let is_parent = {
        let node_trim = trim_separators(node.path.as_str());
        str_eq_ignore_ascii_case(node_trim, target_trim) && node.is_dir
    };
    if is_parent {
        let ghost before = node@;
        node.children.push(copy_entry(entry));
        assert(node@.children =~= before.children.push(entry@));
        return true;
    }
    if node.is_dir {
        let node_path_lower = to_lowercase(trim_separators(node.path.as_str()));
        let target_lower = to_lowercase(target_trim);
        if str_starts_with(target_lower.as_str(), node_path_lower.as_str()) {
            let len = node.children.len();
            let mut i: usize = 0;
            while i < len
                invariant
                    len == node.children@.len(),
                    i <= len,
                    node@ == old(node)@,
                    node.name == old(node).name,
                    node.path == old(node).path,
                    node.is_dir == old(node).is_dir,
                    node.size == old(node).size,
                    node.children@.len() == old(node).children@.len(),
                    forall|k: int| i <= k < len ==> node.children@[k] == old(node).children@[k],
                    may_contain(old(node)@, target_parent@),
                    !is_parent_of(old(node)@, target_parent@),
                    tree_insert(old(node)@, target_parent@, entry@)
                        == children_insert(old(node)@, target_parent@, entry@, i as int),
                decreases len - i,
            {
                assert(decreases_to!(*old(node) => old(node).children@[i as int]));
                let ghost before = node@;
                let ghost child_before = node.children@[i as int]@;
                assert(child_before == old(node)@.children[i as int]);
                let done = insert_into_tree(&mut node.children[i], target_parent, entry);
                if done {
                    assert(node@.children =~= before.children.update(i as int, node.children@[i as int]@));
                    return true;
                }
                assert(node@.children =~= before.children);
                i = i + 1;
            }
        }
    }
    false
}

/// The number of nodes of a tree, the root included.
pub open spec fn tree_size(n: FileNode) -> nat
    decreases n,
{
    1 + forest_size(n.children)
}

/// The number of nodes of a sequence of trees.
pub open spec fn forest_size(s: Seq<FileNode>) -> nat
    decreases s,
{
    if s.len() == 0 {
        0
    } else {
        forest_size(s.subrange(0, s.len() - 1)) + tree_size(s[s.len() - 1])
    }
}

proof fn lemma_forest_push(s: Seq<FileNode>, e: FileNode)
    ensures
        forest_size(s.push(e)) == forest_size(s) + tree_size(e),
{
    assert(s.push(e).subrange(0, s.len() as int) =~= s);
}

proof fn lemma_forest_update(s: Seq<FileNode>, i: int, c: FileNode)
    requires
        0 <= i < s.len(),
    ensures
        forest_size(s.update(i, c)) + tree_size(s[i]) == forest_size(s) + tree_size(c),
    decreases s.len(),
{
    let u = s.update(i, c);
    let last = s.len() - 1;
    if i == last {
        assert(u.subrange(0, last) =~= s.subrange(0, last));
    } else {
        lemma_forest_update(s.subrange(0, last), i, c);
        assert(u.subrange(0, last) =~= s.subrange(0, last).update(i, c));
    }
}

proof fn lemma_tree_insert_size(n: FileNode, target: Seq<char>, entry: FileNode)
    ensures
        tree_insert(n, target, entry) matches Some(m) ==> tree_size(m) == tree_size(n) + tree_size(entry),
    decreases n, n.children.len() + 1,
{
    if is_parent_of(n, target) {
        lemma_forest_push(n.children, entry);
    } else if may_contain(n, target) {
        lemma_children_insert_size(n, target, entry, 0);
    }
}

proof fn lemma_children_insert_size(n: FileNode, target: Seq<char>, entry: FileNode, i: int)
    ensures
        children_insert(n, target, entry, i) matches Some(m) ==> tree_size(m) == tree_size(n) + tree_size(entry),
    decreases n, n.children.len() - i,
{
    if 0 <= i < n.children.len() {
        lemma_tree_insert_size(n.children[i], target, entry);
        match tree_insert(n.children[i], target, entry) {
            Some(c) => {
                lemma_forest_update(n.children, i, c);
            },
            None => {
                lemma_children_insert_size(n, target, entry, i + 1);
            },
        }
    }
}

/// Putting an entry into a tree adds exactly the entry's nodes: when a parent
/// directory is found, the tree grows by the size of the entry, and otherwise
/// the tree is unchanged.
pub proof fn law_insert_adds_entry(n: FileNode, target: Seq<char>, entry: FileNode)
    ensures
        match tree_insert(n, target, entry) {
            Some(m) => tree_size(m) == tree_size(n) + tree_size(entry),
            None => true,
        },
{
    lemma_tree_insert_size(n, target, entry);
}

/// The most entries of a directory walk that a file tree takes in, the walk's
/// starting directory included.
pub const MAX_SCAN_ENTRIES: usize = 2000;

/// The deepest level below the starting directory that a walk descends to.
pub const MAX_SCAN_DEPTH: usize = 8;

/// One item of a depth-first directory walk, as the walk reported it.
#[derive(Debug, Clone)]
pub struct WalkEntry {
    /// The item's file name.
    pub name: String,
    /// The item's full path.
    pub path: String,
    /// The full path of its parent directory (empty when it has none).
    pub parent: String,
    pub is_dir: bool,
    /// The file length from its metadata, when the metadata could be read.
    pub len: Option<u64>,
    /// Whether the item is the walk's starting directory itself.
    pub is_root: bool,
}

/// The size recorded for a walked item: 0 for a directory, else its length,
/// or 0 when that could not be read.
pub open spec fn walk_size(w: WalkEntry) -> u64 {
    if w.is_dir {
        0
    } else {
        match w.len {
            Some(l) => l,
            None => 0,
        }
    }
}

/// The childless node that a walked item becomes.
pub open spec fn walk_node(w: WalkEntry) -> FileNode {
    FileNode { name: w.name@, path: w.path@, is_dir: w.is_dir, size: walk_size(w), children: Seq::empty() }
}

/// `tree` after putting each walked item of `entries`, in order, under its
/// parent directory; the starting directory and items whose parent is not
/// found are skipped.
pub open spec fn add_entries(tree: FileNode, entries: Seq<WalkEntry>) -> FileNode
    decreases entries.len(),
{
    if entries.len() == 0 {
        tree
    } else {
        let t = add_entries(tree, entries.drop_last());
        let w = entries.last();
        if w.is_root {
            t
        } else {
            match tree_insert(t, w.parent@, walk_node(w)) {
                Some(m) => m,
                None => t,
            }
        }
    }
}

/// The empty directory node that a tree starts from.
pub open spec fn root_node(name: Seq<char>, path: Seq<char>) -> FileNode {
    FileNode { name, path, is_dir: true, size: 0, children: Seq::empty() }
}

/// The file tree of a walk: the first `MAX_SCAN_ENTRIES` walked items put
/// under a root directory node.
pub open spec fn file_tree(root_name: Seq<char>, root_path: Seq<char>, entries: Seq<WalkEntry>) -> FileNode {
    let n = if entries.len() < MAX_SCAN_ENTRIES { entries.len() as int } else { MAX_SCAN_ENTRIES as int };
    add_entries(root_node(root_name, root_path), entries.take(n))
}

proof fn lemma_add_entries_size(t: FileNode, es: Seq<WalkEntry>)
    ensures
        tree_size(add_entries(t, es)) <= tree_size(t) + es.len(),
        es.len() > 0 && es[0].is_root ==> tree_size(add_entries(t, es)) + 1 <= tree_size(t) + es.len(),
    decreases es.len(),
{
    if es.len() > 0 {
        let prefix = es.drop_last();
        lemma_add_entries_size(t, prefix);
        let prev = add_entries(t, prefix);
        let w = es.last();
        if !w.is_root {
            lemma_tree_insert_size(prev, w.parent@, walk_node(w));
            assert(tree_size(walk_node(w)) == 1);
        }
        if es.len() > 1 {
            assert(prefix[0] == es[0]);
        }
    }
}

/// A file tree never holds more than `MAX_SCAN_ENTRIES` nodes besides its root,
/// and no more than `MAX_SCAN_ENTRIES` in all when the walk starts with its
/// starting directory (as a directory walk does).
pub proof fn law_file_tree_bounded(root_name: Seq<char>, root_path: Seq<char>, entries: Seq<WalkEntry>)
    ensures
        tree_size(file_tree(root_name, root_path, entries)) <= MAX_SCAN_ENTRIES + 1,
        entries.len() > 0 && entries[0].is_root
            ==> tree_size(file_tree(root_name, root_path, entries)) <= MAX_SCAN_ENTRIES,
{
    let n = if entries.len() < MAX_SCAN_ENTRIES { entries.len() as int } else { MAX_SCAN_ENTRIES as int };
    let es = entries.take(n);
    let r = root_node(root_name, root_path);
    assert(tree_size(r) == 1);
    lemma_add_entries_size(r, es);
    if entries.len() > 0 {
        assert(es[0] == entries[0]);
    }
}

/// The search of `tree_insert` for `target` finds a directory in `n`.
pub open spec fn findable(n: FileNode, target: Seq<char>) -> bool
    decreases n, n.children.len() + 1,
{
    if is_parent_of(n, target) {
        true
    } else if may_contain(n, target) {
        child_findable(n, target, 0)
    } else {
        false
    }
}

/// The search for `target` finds a directory in a child of `n` at index `i`
/// or later.
pub open spec fn child_findable(n: FileNode, target: Seq<char>, i: int) -> bool
    decreases n, n.children.len() - i,
{
    if i < 0 || i >= n.children.len() {
        false
    } else {
        findable(n.children[i], target) || child_findable(n, target, i + 1)
    }
}

proof fn lemma_insert_iff_findable(n: FileNode, t: Seq<char>, e: FileNode)
    ensures
        tree_insert(n, t, e) is Some == findable(n, t),
    decreases n, n.children.len() + 1,
{
    if !is_parent_of(n, t) && may_contain(n, t) {
        lemma_children_insert_iff(n, t, e, 0);
    }
}

proof fn lemma_children_insert_iff(n: FileNode, t: Seq<char>, e: FileNode, i: int)
    ensures
        children_insert(n, t, e, i) is Some == child_findable(n, t, i),
    decreases n, n.children.len() - i,
{
    if 0 <= i < n.children.len() {
        lemma_insert_iff_findable(n.children[i], t, e);
        lemma_children_insert_iff(n, t, e, i + 1);
    }
}

proof fn lemma_child_findable_witness(n: FileNode, t: Seq<char>, k: int) -> (j: int)
    requires
        child_findable(n, t, k),
    ensures
        k <= j < n.children.len(),
        0 <= j,
        findable(n.children[j], t),
    decreases n.children.len() - k,
{
    if findable(n.children[k], t) {
        k
    } else {
        lemma_child_findable_witness(n, t, k + 1)
    }
}

proof fn lemma_child_findable_from(n: FileNode, t: Seq<char>, j: int, k: int)
    requires
        0 <= k <= j < n.children.len(),
        findable(n.children[j], t),
    ensures
        child_findable(n, t, k),
    decreases j - k,
{
    if k < j {
        lemma_child_findable_from(n, t, j, k + 1);
    }
}

proof fn lemma_children_insert_witness(n: FileNode, t: Seq<char>, e: FileNode, k: int) -> (i: int)
    requires
        children_insert(n, t, e, k) is Some,
    ensures
        0 <= k <= i < n.children.len(),
        tree_insert(n.children[i], t, e) is Some,
        children_insert(n, t, e, k) == Some(
            with_children(n, n.children.update(i, tree_insert(n.children[i], t, e)->0)),
        ),
        forall|j: int| k <= j < i ==> tree_insert(#[trigger] n.children[j], t, e) is None,
    decreases n.children.len() - k,
{
    if tree_insert(n.children[k], t, e) is Some {
        k
    } else {
        lemma_children_insert_witness(n, t, e, k + 1)
    }
}

proof fn lemma_eq_nocase_trans(a: Seq<char>, b: Seq<char>, c: Seq<char>)
    requires
        eq_ascii_nocase(a, b),
        eq_ascii_nocase(b, c),
    ensures
        eq_ascii_nocase(a, c),
        eq_ascii_nocase(c, a),
{
    assert forall|i: int| 0 <= i < a.len() implies #[trigger] ascii_fold(a[i]) == ascii_fold(c[i]) by {
        assert(ascii_fold(a[i]) == ascii_fold(b[i]));
        assert(ascii_fold(b[i]) == ascii_fold(c[i]));
    }
    assert forall|i: int| 0 <= i < c.len() implies #[trigger] ascii_fold(c[i]) == ascii_fold(a[i]) by {
        assert(ascii_fold(a[i]) == ascii_fold(b[i]));
        assert(ascii_fold(b[i]) == ascii_fold(c[i]));
    }
}

/// Searching for either of two targets that match the same directories (equal
/// up to ASCII case and lowercasing alike) succeeds alike.
proof fn lemma_findable_same(n: FileNode, t: Seq<char>, u: Seq<char>)
    requires
        eq_ascii_nocase(trim_seps(t), trim_seps(u)),
        lowercase(trim_seps(t)) == lowercase(trim_seps(u)),
    ensures
        findable(n, t) == findable(n, u),
    decreases n, n.children.len() + 1,
{
    if eq_ascii_nocase(trim_seps(n.path), trim_seps(t)) {
        lemma_eq_nocase_trans(trim_seps(n.path), trim_seps(t), trim_seps(u));
    }
    if eq_ascii_nocase(trim_seps(n.path), trim_seps(u)) {
        lemma_eq_nocase_trans(trim_seps(u), trim_seps(t), trim_seps(t));
        lemma_eq_nocase_trans(trim_seps(n.path), trim_seps(u), trim_seps(t));
    }
    lemma_child_findable_same(n, t, u, 0);
}

proof fn lemma_child_findable_same(n: FileNode, t: Seq<char>, u: Seq<char>, i: int)
    requires
        eq_ascii_nocase(trim_seps(t), trim_seps(u)),
        lowercase(trim_seps(t)) == lowercase(trim_seps(u)),
    ensures
        child_findable(n, t, i) == child_findable(n, u, i),
    decreases n, n.children.len() - i,
{
    if 0 <= i < n.children.len() {
        lemma_findable_same(n.children[i], t, u);
        lemma_child_findable_same(n, t, u, i + 1);
    }
}

/// What could be found before an insertion can still be found after it.
proof fn lemma_findable_kept(n: FileNode, t: Seq<char>, u: Seq<char>, e: FileNode)
    requires
        findable(n, t),
        tree_insert(n, u, e) is Some,
    ensures
        findable(tree_insert(n, u, e)->0, t),
    decreases n, n.children.len() + 1,
{
    let m = tree_insert(n, u, e)->0;
    let mut i: int = -1;
    if !is_parent_of(n, u) {
        i = lemma_children_insert_witness(n, u, e, 0);
    }
    assert(m.path == n.path && m.is_dir == n.is_dir);
    if !is_parent_of(n, t) {
        assert(may_contain(n, t));
        let j = lemma_child_findable_witness(n, t, 0);
        if is_parent_of(n, u) {
            assert(m.children[j] == n.children[j]);
        } else {
            if i == j {
                lemma_findable_kept(n.children[i], t, u, e);
            } else {
                assert(m.children[j] == n.children[j]);
            }
        }
        lemma_child_findable_from(m, t, j, 0);
        assert(may_contain(m, t));
    }
}

/// Every directory of `n` that is the parent for `t` lowercases (trailing
/// separators aside) as `t` does.
pub open spec fn dirs_agree(n: FileNode, t: Seq<char>) -> bool
    decreases n,
{
    &&& (is_parent_of(n, t) ==> lowercase(trim_seps(n.path)) == lowercase(trim_seps(t)))
    &&& forall|i: int| 0 <= i < n.children.len() ==> dirs_agree(#[trigger] n.children[i], t)
}

proof fn lemma_dirs_agree_kept(n: FileNode, t: Seq<char>, u: Seq<char>, e: FileNode)
    requires
        dirs_agree(n, t),
        dirs_agree(e, t),
        tree_insert(n, u, e) is Some,
    ensures
        dirs_agree(tree_insert(n, u, e)->0, t),
    decreases n, n.children.len() + 1,
{
    let m = tree_insert(n, u, e)->0;
    if is_parent_of(n, u) {
        assert forall|i: int| 0 <= i < m.children.len() implies dirs_agree(#[trigger] m.children[i], t) by {
            if i < n.children.len() {
                assert(m.children[i] == n.children[i]);
            }
        }
    } else {
        let k = lemma_children_insert_witness(n, u, e, 0);
        lemma_dirs_agree_kept(n.children[k], t, u, e);
        assert forall|i: int| 0 <= i < m.children.len() implies dirs_agree(#[trigger] m.children[i], t) by {
            if i != k {
                assert(m.children[i] == n.children[i]);
            }
        }
    }
}

/// After a directory `e` goes in under the search for `t`, a search for a
/// path `u` whose lowercased form extends that of `t` and that names `e`
/// finds it.
proof fn lemma_findable_new(n: FileNode, t: Seq<char>, u: Seq<char>, e: FileNode)
    requires
        tree_insert(n, t, e) is Some,
        is_parent_of(e, u),
        seq_starts_with(lowercase(trim_seps(u)), lowercase(trim_seps(t))),
        dirs_agree(n, t),
    ensures
        findable(tree_insert(n, t, e)->0, u),
    decreases n, n.children.len() + 1,
{
    let m = tree_insert(n, t, e)->0;
    let lu = lowercase(trim_seps(u));
    let lt = lowercase(trim_seps(t));
    if is_parent_of(n, t) {
        let last = n.children.len() as int;
        assert(m.children[last] == e);
        lemma_child_findable_from(m, u, last, 0);
    } else {
        let i = lemma_children_insert_witness(n, t, e, 0);
        lemma_findable_new(n.children[i], t, u, e);
        let ln = lowercase(trim_seps(n.path));
        assert(lu.subrange(0, ln.len() as int) =~= lt.subrange(0, ln.len() as int));
        lemma_child_findable_from(m, u, i, 0);
    }
}

/// Following the child indices `p` from `n` is a way the search for `target`
/// can go: every directory passed may contain the target without being its
/// parent, and the directory reached is its parent.
pub open spec fn search_path(n: FileNode, p: Seq<int>, target: Seq<char>) -> bool
    decreases p.len(),
{
    if p.len() == 0 {
        is_parent_of(n, target)
    } else {
        &&& !is_parent_of(n, target)
        &&& may_contain(n, target)
        &&& 0 <= p[0] < n.children.len()
        &&& search_path(n.children[p[0]], p.drop_first(), target)
    }
}

/// `n` with `e` appended to the children of the node at `p`.
pub open spec fn append_at(n: FileNode, p: Seq<int>, e: FileNode) -> FileNode
    decreases p.len(),
{
    if p.len() == 0 || !(0 <= p[0] < n.children.len()) {
        with_children(n, n.children.push(e))
    } else {
        with_children(n, n.children.update(p[0], append_at(n.children[p[0]], p.drop_first(), e)))
    }
}

/// `p` comes no later than `q` in pre-order (an ancestor before its
/// descendants, an earlier child before a later one).
pub open spec fn preorder_le(p: Seq<int>, q: Seq<int>) -> bool
    decreases p.len(),
{
    if p.len() == 0 {
        true
    } else if q.len() == 0 {
        false
    } else if p[0] != q[0] {
        p[0] < q[0]
    } else {
        preorder_le(p.drop_first(), q.drop_first())
    }
}

proof fn lemma_search_path_findable(n: FileNode, p: Seq<int>, t: Seq<char>)
    requires
        search_path(n, p, t),
    ensures
        findable(n, t),
    decreases p.len(),
{
    if p.len() > 0 {
        lemma_search_path_findable(n.children[p[0]], p.drop_first(), t);
        lemma_child_findable_from(n, t, p[0], 0);
    }
}

proof fn lemma_insert_path(n: FileNode, t: Seq<char>, e: FileNode) -> (p: Seq<int>)
    requires
        tree_insert(n, t, e) is Some,
    ensures
        search_path(n, p, t),
        tree_insert(n, t, e)->0 == append_at(n, p, e),
        forall|q: Seq<int>| #[trigger] search_path(n, q, t) ==> preorder_le(p, q),
    decreases n, n.children.len() + 1,
{
    if is_parent_of(n, t) {
        Seq::empty()
    } else {
        let i = lemma_children_insert_witness(n, t, e, 0);
        let c = n.children[i];
        let pc = lemma_insert_path(c, t, e);
        let p = seq![i].add(pc);
        assert(p.drop_first() =~= pc);
        assert forall|q: Seq<int>| #[trigger] search_path(n, q, t) implies preorder_le(p, q) by {
            let j = q[0];
            if j < i {
                lemma_search_path_findable(n.children[j], q.drop_first(), t);
                lemma_insert_iff_findable(n.children[j], t, e);
            } else if j == i {
                assert(search_path(c, q.drop_first(), t));
            }
        }
        p
    }
}

/// Where an insertion puts the entry: exactly when some way down the tree
/// leads the search for `target` to a parent directory, the entry is appended
/// to the children of the first such directory in pre-order, and nothing else
/// changes; otherwise the tree is unchanged.
pub proof fn law_insert_first_match(n: FileNode, target: Seq<char>, entry: FileNode)
    ensures
        match tree_insert(n, target, entry) {
            Some(m) => exists|p: Seq<int>|
                #[trigger] search_path(n, p, target) && m == append_at(n, p, entry) && forall|q: Seq<int>|
                    #[trigger] search_path(n, q, target) ==> preorder_le(p, q),
            None => forall|q: Seq<int>| !#[trigger] search_path(n, q, target),
        },
{
    match tree_insert(n, target, entry) {
        Some(m) => {
            let p = lemma_insert_path(n, target, entry);
        },
        None => {
            assert forall|q: Seq<int>| !#[trigger] search_path(n, q, target) by {
                if search_path(n, q, target) {
                    lemma_search_path_findable(n, q, target);
                    lemma_insert_iff_findable(n, target, entry);
                }
            }
        },
    }
}

/// The number of walked items that are not the starting directory.
pub open spec fn non_root_count(es: Seq<WalkEntry>) -> nat
    decreases es.len(),
{
    if es.len() == 0 {
        0
    } else {
        non_root_count(es.drop_last()) + if es.last().is_root { 0nat } else { 1nat }
    }
}

/// Item `k` of a walk names, as its parent, the starting directory `root_path`
/// or a directory item that came before it (paths equal up to ASCII case,
/// trailing separators aside).
pub open spec fn parent_seen(es: Seq<WalkEntry>, root_path: Seq<char>, k: int) -> bool {
    eq_ascii_nocase(trim_seps(es[k].parent@), trim_seps(root_path)) || exists|j: int|
        0 <= j < k && !es[j].is_root && es[j].is_dir && eq_ascii_nocase(
            trim_seps(es[k].parent@),
            trim_seps(#[trigger] es[j].path@),
        )
}

/// Two paths that are equal up to ASCII case (trailing separators aside) also
/// lowercase alike.
pub open spec fn lower_agrees(a: Seq<char>, b: Seq<char>) -> bool {
    eq_ascii_nocase(trim_seps(a), trim_seps(b)) ==> lowercase(trim_seps(a)) == lowercase(trim_seps(b))
}

/// Item `k` of a walk is as a depth-first walk reports it: its parent was
/// reported before it (as the starting directory or as a directory item);
/// lowercasing treats its parent path like the walk's paths that equal it up
/// to ASCII case; and a directory's lowercased path extends its parent's.
pub open spec fn walk_item_ok(es: Seq<WalkEntry>, root_path: Seq<char>, k: int) -> bool {
    es[k].is_root || {
        &&& parent_seen(es, root_path, k)
        &&& lower_agrees(root_path, es[k].parent@)
        &&& forall|j: int| 0 <= j < es.len() && !es[j].is_root ==> lower_agrees(#[trigger] es[j].path@, es[k].parent@)
        &&& es[k].is_dir ==> seq_starts_with(lowercase(trim_seps(es[k].path@)), lowercase(trim_seps(es[k].parent@)))
    }
}

/// A depth-first walk, in the order it reported its items, of the directory
/// `root_path`.
pub open spec fn depth_first_walk(es: Seq<WalkEntry>, root_path: Seq<char>) -> bool {
    forall|k: int| 0 <= k < es.len() ==> #[trigger] walk_item_ok(es, root_path, k)
}

/// `after` is `before` with the walked item `w` appended under a directory
/// that the search for `w`'s parent path leads to (a directory whose path
/// equals that parent path up to ASCII case).
pub open spec fn placed_under_parent(before: FileNode, after: FileNode, w: WalkEntry) -> bool {
    exists|p: Seq<int>| #[trigger] search_path(before, p, w.parent@) && after == append_at(before, p, walk_node(w))
}

proof fn lemma_walk_complete(root_name: Seq<char>, root_path: Seq<char>, all: Seq<WalkEntry>, len: int)
    requires
        depth_first_walk(all, root_path),
        0 <= len <= all.len(),
    ensures
        tree_size(add_entries(root_node(root_name, root_path), all.take(len))) == 1 + non_root_count(all.take(len)),
        findable(add_entries(root_node(root_name, root_path), all.take(len)), root_path),
        forall|j: int| 0 <= j < len && !all[j].is_root && all[j].is_dir ==>
            findable(add_entries(root_node(root_name, root_path), all.take(len)), #[trigger] all[j].path@),
        forall|k: int| 0 <= k < all.len() && !all[k].is_root ==>
            dirs_agree(add_entries(root_node(root_name, root_path), all.take(len)), #[trigger] all[k].parent@),
        forall|k: int| 0 <= k < len && !all[k].is_root ==> placed_under_parent(
            add_entries(root_node(root_name, root_path), all.take(k)),
            add_entries(root_node(root_name, root_path), all.take(k + 1)),
            #[trigger] all[k],
        ),
    decreases len,
{
    let r = root_node(root_name, root_path);
    if len == 0 {
        assert(all.take(0) =~= Seq::<WalkEntry>::empty());
        assert(tree_size(r) == 1);
        assert(is_parent_of(r, root_path));
        assert forall|k: int| 0 <= k < all.len() && !all[k].is_root implies dirs_agree(r, #[trigger] all[k].parent@) by {
            assert(walk_item_ok(all, root_path, k));
        }
    } else {
        let k = len - 1;
        let p = all.take(k);
        let w = all[k];
        assert(all.take(len).drop_last() =~= p);
        assert(all.take(len).last() == w);
        lemma_walk_complete(root_name, root_path, all, k);
        let t = add_entries(r, p);
        if w.is_root {
        } else {
            assert(walk_item_ok(all, root_path, k));
            // the parent can be searched for, as a path found before
            if eq_ascii_nocase(trim_seps(w.parent@), trim_seps(root_path)) {
                lemma_eq_nocase_trans(trim_seps(w.parent@), trim_seps(root_path), trim_seps(root_path));
                lemma_findable_same(t, w.parent@, root_path);
            } else {
                let j = choose|j: int| 0 <= j < k && !all[j].is_root && all[j].is_dir && eq_ascii_nocase(
                    trim_seps(w.parent@),
                    trim_seps(#[trigger] all[j].path@),
                );
                lemma_eq_nocase_trans(trim_seps(w.parent@), trim_seps(all[j].path@), trim_seps(all[j].path@));
                assert(lower_agrees(all[j].path@, w.parent@));
                lemma_findable_same(t, w.parent@, all[j].path@);
            }
            lemma_insert_iff_findable(t, w.parent@, walk_node(w));
            let m = tree_insert(t, w.parent@, walk_node(w))->0;
            let pp = lemma_insert_path(t, w.parent@, walk_node(w));
            assert(placed_under_parent(t, m, w));
            lemma_tree_insert_size(t, w.parent@, walk_node(w));
            assert(tree_size(walk_node(w)) == 1);
            lemma_findable_kept(t, root_path, w.parent@, walk_node(w));
            assert forall|j: int| 0 <= j < len && !all[j].is_root && all[j].is_dir implies
                findable(m, #[trigger] all[j].path@) by {
                if j < k {
                    lemma_findable_kept(t, all[j].path@, w.parent@, walk_node(w));
                } else {
                    assert(eq_ascii_nocase(trim_seps(w.path@), trim_seps(w.path@)));
                    lemma_findable_new(t, w.parent@, w.path@, walk_node(w));
                }
            }
            assert forall|i: int| 0 <= i < all.len() && !all[i].is_root implies
                dirs_agree(m, #[trigger] all[i].parent@) by {
                assert(walk_item_ok(all, root_path, i));
                assert(lower_agrees(w.path@, all[i].parent@));
                lemma_dirs_agree_kept(t, all[i].parent@, w.parent@, walk_node(w));
            }
        }
    }
}

/// A file tree takes in every walked item under its parent: when the walk is
/// a depth-first walk (`depth_first_walk`), each of the first
/// `MAX_SCAN_ENTRIES` items other than the starting directory is appended
/// under a directory whose path equals its parent path up to ASCII case (the
/// first such directory in pre-order, see `law_insert_first_match`), so the
/// tree has one node for each of them besides its root.
pub proof fn law_file_tree_complete(root_name: Seq<char>, root_path: Seq<char>, entries: Seq<WalkEntry>)
    requires
        depth_first_walk(entries, root_path),
    ensures
        ({
            let n = if entries.len() < MAX_SCAN_ENTRIES { entries.len() as int } else { MAX_SCAN_ENTRIES as int };
            let r = root_node(root_name, root_path);
            &&& tree_size(file_tree(root_name, root_path, entries)) == 1 + non_root_count(entries.take(n))
            &&& forall|k: int| 0 <= k < n && !entries[k].is_root ==> placed_under_parent(
                add_entries(r, entries.take(k)),
                add_entries(r, entries.take(k + 1)),
                #[trigger] entries[k],
            )
        }),
{
    let n = if entries.len() < MAX_SCAN_ENTRIES { entries.len() as int } else { MAX_SCAN_ENTRIES as int };
    lemma_walk_complete(root_name, root_path, entries, n);
}

/// Each walked item goes into the file tree as a childless node carrying the
/// item's own name, path and kind, and as its size the length that the walk
/// read from the item's metadata, unchanged (0 for a directory, or when the
/// length could not be read).
pub proof fn law_walked_sizes_recorded(root_name: Seq<char>, root_path: Seq<char>, entries: Seq<WalkEntry>)
    requires
        depth_first_walk(entries, root_path),
    ensures
        ({
            let n = if entries.len() < MAX_SCAN_ENTRIES { entries.len() as int } else { MAX_SCAN_ENTRIES as int };
            let r = root_node(root_name, root_path);
            forall|k: int| 0 <= k < n && !entries[k].is_root ==> exists|p: Seq<int>|
                #[trigger] search_path(add_entries(r, entries.take(k)), p, entries[k].parent@)
                && add_entries(r, entries.take(k + 1)) == append_at(
                    add_entries(r, entries.take(k)),
                    p,
                    FileNode {
                        name: (#[trigger] entries[k]).name@,
                        path: entries[k].path@,
                        is_dir: entries[k].is_dir,
                        size: if entries[k].is_dir {
                            0u64
                        } else if entries[k].len is Some {
                            entries[k].len->0
                        } else {
                            0u64
                        },
                        children: Seq::empty(),
                    },
                )
        }),
{
    let n = if entries.len() < MAX_SCAN_ENTRIES { entries.len() as int } else { MAX_SCAN_ENTRIES as int };
    let r = root_node(root_name, root_path);
    lemma_walk_complete(root_name, root_path, entries, n);
    assert forall|k: int| 0 <= k < n && !entries[k].is_root implies exists|p: Seq<int>|
        #[trigger] search_path(add_entries(r, entries.take(k)), p, entries[k].parent@)
        && add_entries(r, entries.take(k + 1)) == append_at(
            add_entries(r, entries.take(k)),
            p,
            FileNode {
                name: (#[trigger] entries[k]).name@,
                path: entries[k].path@,
                is_dir: entries[k].is_dir,
                size: if entries[k].is_dir {
                    0u64
                } else if entries[k].len is Some {
                    entries[k].len->0
                } else {
                    0u64
                },
                children: Seq::empty(),
            },
        ) by {
        assert(placed_under_parent(add_entries(r, entries.take(k)), add_entries(r, entries.take(k + 1)), entries[k]));
    }
}

/// Builds the file tree of a depth-first walk of the directory `root_path`:
/// each of the first `MAX_SCAN_ENTRIES` walked items, other than the starting
/// directory, goes under the node of its parent directory.
pub fn build_file_tree(root_name: String, root_path: String, entries: &Vec<WalkEntry>) -> (res: FileEntry)
    ensures
        res@ == file_tree(root_name@, root_path@, entries@),
{
    let mut root = FileEntry { name: root_name, path: root_path, is_dir: true, size: 0, children: Vec::new() };
    let ghost start = root@;
    assert(start == root_node(root_name@, root_path@)) by {
        assert(start.children =~= Seq::<FileNode>::empty());
    }
    let mut entry_count: usize = 0;
    let mut i: usize = 0;
    while i < entries.len() && entry_count < MAX_SCAN_ENTRIES
        invariant
            i <= entries@.len(),
            entry_count == i,
            i <= MAX_SCAN_ENTRIES,
            root@ == add_entries(start, entries@.take(i as int)),
        decreases entries@.len() - i,
    {
        entry_count = entry_count + 1;
        let w = &entries[i];
        assert(entries@.take(i + 1).drop_last() =~= entries@.take(i as int));
        if !w.is_root {
            let size = if w.is_dir {
                0
            } else {
                match w.len {
                    Some(l) => l,
                    None => 0,
                }
            };
            let node = FileEntry {
                name: w.name.clone(),
                path: w.path.clone(),
                is_dir: w.is_dir,
                size,
                children: Vec::new(),
            };
            assert(node@ == walk_node(*w)) by {
                assert(node@.children =~= Seq::<FileNode>::empty());
            }
            insert_into_tree(&mut root, w.parent.as_str(), &node);
        }
        i = i + 1;
    }
    assert(entries@.take(i as int) =~= entries@.take(
        if entries@.len() < MAX_SCAN_ENTRIES { entries@.len() as int } else { MAX_SCAN_ENTRIES as int },
    ));
    root
}

impl Clone for FileEntry {
    fn clone(&self) -> (res: Self)
        ensures
            res@ == self@,
    {
        copy_entry(self)
    }
}

} // verus!
