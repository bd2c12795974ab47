//! The decisions of the software-manager window: what is listed, what is
//! selected, when details are scanned, and which uninstall command runs.
use vstd::prelude::*;
use crate::files::FileEntry;
use crate::registry::Software;
use crate::shortcuts::ShortcutInfo;
use crate::text::{lowercase, seq_contains, to_lowercase, str_contains};

verus! {

broadcast use vstd::string::group_string_axioms;

/// The decimal digit `d` as a character.
pub open spec fn digit_char(d: nat) -> char {
    seq!['0', '1', '2', '3', '4', '5', '6', '7', '8', '9'][d as int]
}

/// The decimal notation of `n`, without leading zeros.
pub open spec fn decimal(n: nat) -> Seq<char>
    decreases n,
{
    if n < 10 {
        seq![digit_char(n)]
    } else {
        decimal(n / 10).push(digit_char(n % 10))
    }
}

/// The decimal notation of `n`.
pub fn decimal_string(n: usize) -> (res: String)
    ensures
        res@ == decimal(n as nat),
    decreases n,
{
    let digits = "0123456789";
    proof {
        reveal_strlit("0123456789");
    }
    let d = n % 10;
    let digit = digits.substring_char(d, d + 1);
    assert(digit@ =~= seq![digit_char(d as nat)]);
    if n < 10 {
        String::from_str(digit)
    } else {
        let mut s = decimal_string(n / 10);
        s.append(digit);
        s
    }
}

/// The state of the software-manager window.
pub struct SoftwareManagerApp {
    /// The installed programs, as last loaded.
    pub software_list: Vec<Software>,
    /// The index in `software_list` of the selected program.
    pub selected_index: Option<usize>,
    /// The text of the search box.
    pub search_text: String,
    /// The file tree of the selected program's install directory.
    pub file_tree: Option<FileEntry>,
    /// The shortcuts related to the selected program.
    pub shortcuts: Vec<ShortcutInfo>,
    /// The program list is being loaded.
    pub loading: bool,
    /// The selected program's details are being scanned.
    pub detail_loading: bool,
    /// The text of the status bar.
    pub status_message: String,
}

/// The status-bar text shown after loading `n` programs.
pub open spec fn loaded_message(n: nat) -> Seq<char> {
    "已加载 "@ + decimal(n) + " 个软件"@
}

/// The programs shown for a search: all of them when the search text is
/// empty, else those whose lowercased name contains the lowercased search text.
pub open spec fn shown(list: Seq<Software>, search: Seq<char>, i: int) -> bool {
    search.len() == 0 || seq_contains(lowercase(list[i].name@), lowercase(search))
}

/// An empty search text lets every program through.
pub proof fn law_empty_search_shows_all(list: Seq<Software>, search: Seq<char>)
    requires
        search.len() == 0,
    ensures
        forall|i: int| 0 <= i < list.len() ==> shown(list, search, i),
{
}

/// A program is shown for a search exactly when the search text is empty or
/// occurs, lowercased, somewhere in the program's lowercased name; no other
/// field of the program (its install location, publisher, ...) matters.
pub proof fn law_search_matches_name_only(list: Seq<Software>, search: Seq<char>)
    ensures
        forall|i: int| 0 <= i < list.len() ==> (#[trigger] shown(list, search, i) <==> (
            search.len() == 0 || exists|k: int| #![trigger lowercase(list[i].name@).subrange(k, k + lowercase(search).len())]
                0 <= k && k + lowercase(search).len() <= lowercase(list[i].name@).len()
                && lowercase(list[i].name@).subrange(k, k + lowercase(search).len()) == lowercase(search))),
{
    assert forall|i: int| 0 <= i < list.len() implies (#[trigger] shown(list, search, i) <==> (
        search.len() == 0 || exists|k: int| #![trigger lowercase(list[i].name@).subrange(k, k + lowercase(search).len())]
            0 <= k && k + lowercase(search).len() <= lowercase(list[i].name@).len()
            && lowercase(list[i].name@).subrange(k, k + lowercase(search).len()) == lowercase(search))) by {
        let h = lowercase(list[i].name@);
        let nd = lowercase(search);
        if seq_contains(h, nd) {
            let k = choose|k: int| crate::text::occurs_at(h, nd, k);
            assert(h.subrange(k, k + nd.len()) == nd);
        }
        if exists|k: int| 0 <= k && k + nd.len() <= h.len() && #[trigger] h.subrange(k, k + nd.len()) == nd {
            let k = choose|k: int| 0 <= k && k + nd.len() <= h.len() && #[trigger] h.subrange(k, k + nd.len()) == nd;
            assert(crate::text::occurs_at(h, nd, k));
        }
    }
}

/// `new` is `old` after `load_software(list)`: the list and status replaced,
/// loading over, everything else kept.
pub open spec fn loaded_from(old: SoftwareManagerApp, new: SoftwareManagerApp, list: Seq<Software>) -> bool {
    &&& new.software_list@ == list
    &&& !new.loading
    &&& new.status_message@ == loaded_message(list.len())
    &&& new.selected_index == old.selected_index
    &&& new.search_text == old.search_text
    &&& new.file_tree == old.file_tree
    &&& new.shortcuts == old.shortcuts
    &&& new.detail_loading == old.detail_loading
}

/// `new` is `old` after `refresh(list)`: loaded from `list` with the
/// selection and its details cleared.
pub open spec fn refreshed_from(old: SoftwareManagerApp, new: SoftwareManagerApp, list: Seq<Software>) -> bool {
    &&& new.software_list@ == list
    &&& !new.loading
    &&& new.status_message@ == loaded_message(list.len())
    &&& new.selected_index is None
    &&& new.file_tree is None
    &&& new.shortcuts@.len() == 0
    &&& new.search_text == old.search_text
    &&& new.detail_loading == old.detail_loading
}

/// `new` is `old` after `select_software(index)` returned `scan`: the program
/// selected, its details cleared, and its install location to be scanned
/// (details loading) when it has one.
pub open spec fn selected_from(old: SoftwareManagerApp, new: SoftwareManagerApp, index: int, scan: Option<Seq<char>>) -> bool {
    &&& 0 <= index < old.software_list@.len()
    &&& new.selected_index == Some(index as usize)
    &&& new.file_tree is None
    &&& new.shortcuts@.len() == 0
    &&& match scan {
        Some(loc) => loc == old.software_list@[index].install_location@ && loc.len() > 0 && new.detail_loading,
        None => old.software_list@[index].install_location@.len() == 0 && new.detail_loading == old.detail_loading,
    }
    &&& new.software_list == old.software_list
    &&& new.search_text == old.search_text
    &&& new.loading == old.loading
    &&& new.status_message == old.status_message
}

/// `new` is `old` after `show_details(file_tree, shortcuts)`.
pub open spec fn detailed_from(
    old: SoftwareManagerApp,
    new: SoftwareManagerApp,
    file_tree: Option<FileEntry>,
    shortcuts: Vec<ShortcutInfo>,
) -> bool {
    &&& new.file_tree == file_tree
    &&& new.shortcuts == shortcuts
    &&& !new.detail_loading
    &&& new.software_list == old.software_list
    &&& new.selected_index == old.selected_index
    &&& new.search_text == old.search_text
    &&& new.loading == old.loading
    &&& new.status_message == old.status_message
}

/// `new` is `old` with only the search text edited.
pub open spec fn typed_from(old: SoftwareManagerApp, new: SoftwareManagerApp) -> bool {
    &&& new.software_list == old.software_list
    &&& new.selected_index == old.selected_index
    &&& new.file_tree == old.file_tree
    &&& new.shortcuts == old.shortcuts
    &&& new.loading == old.loading
    &&& new.detail_loading == old.detail_loading
    &&& new.status_message == old.status_message
}

/// The window as `default` makes it: nothing loaded, loading, nothing selected.
pub open spec fn fresh(a: SoftwareManagerApp) -> bool {
    &&& a.software_list@.len() == 0
    &&& a.selected_index is None
    &&& a.file_tree is None
    &&& a.shortcuts@.len() == 0
    &&& a.loading
    &&& !a.detail_loading
}

/// One thing the window does within a frame after its first load: a refresh,
/// a click on a listed program (with the scan of its install location and the
/// details shown, when it has one), or an edit of the search text.
pub open spec fn window_step(old: SoftwareManagerApp, new: SoftwareManagerApp) -> bool {
    ||| exists|list: Seq<Software>| #[trigger] refreshed_from(old, new, list)
    ||| exists|i: int| #[trigger] selected_from(old, new, i, None)
    ||| exists|i: int, mid: SoftwareManagerApp, loc: Seq<char>, t: Option<FileEntry>, sc: Vec<ShortcutInfo>|
        #[trigger] selected_from(old, mid, i, Some(loc)) && #[trigger] detailed_from(mid, new, t, sc)
    ||| typed_from(old, new)
}

/// The first frame settles the window: loading the program list into the
/// window as `default` makes it leaves nothing loading and nothing selected.
pub proof fn law_first_load_settles(a: SoftwareManagerApp, b: SoftwareManagerApp, list: Seq<Software>)
    requires
        fresh(a),
        loaded_from(a, b, list),
    ensures
        b.settled(),
{
}

/// Every step of the window keeps it settled, so after every frame nothing
/// is loading, the selection is a listed program, and no details are shown
/// without a selection.
pub proof fn law_steps_keep_settled(states: Seq<SoftwareManagerApp>)
    requires
        states.len() > 0,
        states[0].settled(),
        forall|i: int| 0 <= i < states.len() - 1 ==> window_step(#[trigger] states[i], states[i + 1]),
    ensures
        forall|i: int| 0 <= i < states.len() ==> (#[trigger] states[i]).settled(),
    decreases states.len(),
{
    if states.len() > 1 {
        let prefix = states.drop_last();
        assert forall|i: int| 0 <= i < prefix.len() - 1 implies window_step(#[trigger] prefix[i], prefix[i + 1]) by {
            assert(prefix[i] == states[i]);
            assert(prefix[i + 1] == states[i + 1]);
            assert(window_step(states[i], states[i + 1]));
        }
        law_steps_keep_settled(prefix);
        let k = states.len() - 2;
        assert(prefix[k] == states[k]);
        assert(states[k].settled());
        assert(window_step(states[k], states[k + 1]));
        assert forall|i: int| 0 <= i < states.len() implies (#[trigger] states[i]).settled() by {
            if i < states.len() - 1 {
                assert(prefix[i] == states[i]);
            }
        }
    }
}

impl Default for SoftwareManagerApp {
    /// The window before anything is loaded: empty, loading, nothing selected.
    fn default() -> (res: Self)
        ensures
            res.wf(),
            res.software_list@.len() == 0,
            res.selected_index is None,
            res.search_text@.len() == 0,
            res.file_tree is None,
            res.shortcuts@.len() == 0,
            res.loading,
            !res.detail_loading,
            res.status_message@ == "正在加载软件列表..."@,
            fresh(res),
    {
        SoftwareManagerApp {
            software_list: Vec::new(),
            selected_index: None,
            search_text: String::new(),
            file_tree: None,
            shortcuts: Vec::new(),
            loading: true,
            detail_loading: false,
            status_message: String::from_str("正在加载软件列表..."),
        }
    }
}

impl SoftwareManagerApp {
    /// The selection, when there is one, is a program of the list.
    pub open spec fn wf(&self) -> bool {
        self.selected_index matches Some(i) ==> i < self.software_list@.len()
    }

    /// Whether the program list still has to be loaded for the first time.
    pub fn needs_initial_load(&self) -> (res: bool)
        ensures
            res == (self.software_list@.len() == 0 && self.loading),
    {
        self.software_list.len() == 0 && self.loading
    }

    /// The window between frames: nothing loading, the selection (if any) in
    /// range, and no details shown without a selection.
    pub open spec fn settled(&self) -> bool {
        &&& !self.loading
        &&& !self.detail_loading
        &&& self.wf()
        &&& self.selected_index is None ==> self.file_tree is None && self.shortcuts@.len() == 0
    }

    /// Takes in a freshly loaded program list; the rest of the state is kept.
    /// Loaded into a window with no selection and no details (as on the first
    /// frame), the window is settled.
    pub fn load_software(&mut self, list: Vec<Software>)
        ensures
            final(self).software_list@ == list@,
            !final(self).loading,
            final(self).status_message@ == loaded_message(list@.len()),
            final(self).selected_index == old(self).selected_index,
            (old(self).selected_index matches Some(i) ==> i < list@.len()) ==> final(self).wf(),
            old(self).selected_index is None && old(self).file_tree is None && old(self).shortcuts@.len() == 0
                && !old(self).detail_loading ==> final(self).settled(),
            loaded_from(*old(self), *final(self), list@),
            final(self).search_text == old(self).search_text,
            final(self).file_tree == old(self).file_tree,
            final(self).shortcuts == old(self).shortcuts,
            final(self).detail_loading == old(self).detail_loading,
    {
        self.loading = true;
        let n = list.len();
        self.software_list = list;
        self.loading = false;
        let mut msg = String::from_str("已加载 ");
        let count = decimal_string(n);
        msg.append(count.as_str());
        msg.append(" 个软件");
        self.status_message = msg;
    }

    /// Refreshing: the new program list replaces the old one and the
    /// selection, its file tree and its shortcuts are cleared, which leaves
    /// the window settled.
    pub fn refresh(&mut self, list: Vec<Software>)
        ensures
            final(self).wf(),
            final(self).software_list@ == list@,
            !final(self).loading,
            final(self).status_message@ == loaded_message(list@.len()),
            final(self).selected_index is None,
            final(self).file_tree is None,
            final(self).shortcuts@.len() == 0,
            final(self).search_text == old(self).search_text,
            final(self).detail_loading == old(self).detail_loading,
            !old(self).detail_loading ==> final(self).settled(),
            refreshed_from(*old(self), *final(self), list@),
    {
        self.load_software(list);
        self.selected_index = None;
        self.file_tree = None;
        self.shortcuts.clear();
    }

    /// Selects program `index`: its details are cleared, and when it has an
    /// install location that location is returned to be scanned (details
    /// are then loading until `show_details`); otherwise a settled window
    /// stays settled.
    pub fn select_software(&mut self, index: usize) -> (res: Option<String>)
        requires
            index < old(self).software_list@.len(),
        ensures
            final(self).wf(),
            final(self).selected_index == Some(index),
            final(self).file_tree is None,
            final(self).shortcuts@.len() == 0,
            match res {
                Some(loc) => loc@ == old(self).software_list@[index as int].install_location@
                    && loc@.len() > 0 && final(self).detail_loading,
                None => old(self).software_list@[index as int].install_location@.len() == 0
                    && final(self).detail_loading == old(self).detail_loading,
            },
            final(self).software_list == old(self).software_list,
            final(self).search_text == old(self).search_text,
            final(self).loading == old(self).loading,
            final(self).status_message == old(self).status_message,
            res is None && !old(self).loading && !old(self).detail_loading ==> final(self).settled(),
            selected_from(*old(self), *final(self), index as int, match res {
                Some(loc) => Some(loc@),
                None => None,
            }),
    {
        self.selected_index = Some(index);
        self.file_tree = None;
        self.shortcuts.clear();
        let location = &self.software_list[index].install_location;
        if location.as_str().is_empty() {
            None
        } else {
            let loc = location.clone();
            self.detail_loading = true;
            Some(loc)
        }
    }

    /// Takes in the scanned details of the selected program; after a
    /// selection that asked for a scan, the window is settled again.
    pub fn show_details(&mut self, file_tree: Option<FileEntry>, shortcuts: Vec<ShortcutInfo>)
        ensures
            final(self).file_tree == file_tree,
            final(self).shortcuts == shortcuts,
            !final(self).detail_loading,
            final(self).software_list == old(self).software_list,
            final(self).selected_index == old(self).selected_index,
            final(self).search_text == old(self).search_text,
            final(self).loading == old(self).loading,
            final(self).status_message == old(self).status_message,
            old(self).wf() && old(self).selected_index is Some && !old(self).loading ==> final(self).settled(),
            detailed_from(*old(self), *final(self), file_tree, shortcuts),
    {
        self.file_tree = file_tree;
        self.shortcuts = shortcuts;
        self.detail_loading = false;
    }

    /// The uninstall command to run for the selected program: none without a
    /// selection or when the program has no uninstall command.
    pub fn uninstall_command(&self) -> (res: Option<String>)
        requires
            self.wf(),
        ensures
            match self.selected_index {
                Some(i) => {
                    let cmd = self.software_list@[i as int].uninstall_string@;
                    if cmd.len() > 0 { res matches Some(c) && c@ == cmd } else { res is None }
                },
                None => res is None,
            },
    {
        match self.selected_index {
            Some(idx) => {
                let cmd = &self.software_list[idx].uninstall_string;
                if cmd.as_str().is_empty() {
                    None
                } else {
                    Some(cmd.clone())
                }
            },
            None => None,
        }
    }

    /// The indices, in ascending order, of the programs that the search text
    /// lets through (see `shown`).
    pub fn filtered_indices(&self) -> (res: Vec<usize>)
        ensures
            forall|k: int| 0 <= k < res@.len() ==> (#[trigger] res@[k]) < self.software_list@.len(),
            forall|k: int, l: int| 0 <= k < l < res@.len() ==> res@[k] < res@[l],
            forall|i: int| 0 <= i < self.software_list@.len() ==>
                (shown(self.software_list@, self.search_text@, i) <==> res@.contains(i as usize)),
            forall|i: int| 0 <= i < self.software_list@.len() ==> (#[trigger] res@.contains(i as usize) <==> (
                self.search_text@.len() == 0 || exists|k: int| #![trigger lowercase(self.software_list@[i].name@).subrange(k, k + lowercase(self.search_text@).len())]
                    0 <= k && k + lowercase(self.search_text@).len() <= lowercase(self.software_list@[i].name@).len()
                    && lowercase(self.software_list@[i].name@).subrange(k, k + lowercase(self.search_text@).len())
                        == lowercase(self.search_text@))),
    {
        let search_lower = to_lowercase(self.search_text.as_str());
        let search_empty = self.search_text.as_str().is_empty();
        let n = self.software_list.len();
        let mut res: Vec<usize> = Vec::new();
        let mut i: usize = 0;
        while i < n
            invariant
                n == self.software_list@.len(),
                i <= n,
                search_lower@ == lowercase(self.search_text@),
                search_empty == (self.search_text@.len() == 0),
                forall|k: int| 0 <= k < res@.len() ==> (#[trigger] res@[k]) < i,
                forall|k: int, l: int| 0 <= k < l < res@.len() ==> res@[k] < res@[l],
                forall|j: int| 0 <= j < i ==>
                    (shown(self.software_list@, self.search_text@, j) <==> res@.contains(j as usize)),
            decreases n - i,
        {
            let keep = if search_empty {
                true
            } else {
                let name_lower = to_lowercase(self.software_list[i].name.as_str());
                str_contains(name_lower.as_str(), search_lower.as_str())
            };
            let ghost before = res@;
            if keep {
                res.push(i);
            }
            proof {
                assert forall|j: int| 0 <= j < i + 1 implies
                    (shown(self.software_list@, self.search_text@, j) <==> res@.contains(j as usize)) by {
                    if j < i {
                        if res@.contains(j as usize) && keep {
                            let k = choose|k: int| 0 <= k < res@.len() && res@[k] == j as usize;
                            if k == before.len() {
                            } else {
                                assert(before[k] == j as usize);
                            }
                        }
                        if before.contains(j as usize) {
                            let k = choose|k: int| 0 <= k < before.len() && before[k] == j as usize;
                            assert(res@[k] == j as usize);
                        }
                    } else {
                        if keep {
                            assert(res@[before.len() as int] == i);
                        } else {
                            assert(res@ == before);
                        }
                    }
                }
            }
            i = i + 1;
        }
        proof {
            law_search_matches_name_only(self.software_list@, self.search_text@);
            assert forall|i: int| 0 <= i < self.software_list@.len() implies
                (shown(self.software_list@, self.search_text@, i) <==> #[trigger] res@.contains(i as usize)) by {}
        }
        res
    }

    /// Whether the window should be drawn again soon (something is loading).
    pub fn needs_repaint(&self) -> (res: bool)
        ensures
            res == (self.loading || self.detail_loading),
    {
        self.loading || self.detail_loading
    }
}

/// The unit in which a file size is shown.
#[derive(Debug, Clone, Copy, PartialEq, Eq)]
pub enum SizeUnit {
    Bytes,
    Kilobytes,
    Megabytes,
}

/// The unit for showing `size` bytes: megabytes above 1 MiB, kilobytes above
/// 1 KiB, bytes otherwise.
pub fn size_unit(size: u64) -> (res: SizeUnit)
    ensures
        res == (if size > 1024 * 1024 {
            SizeUnit::Megabytes
        } else if size > 1024 {
            SizeUnit::Kilobytes
        } else {
            SizeUnit::Bytes
        }),
{
    if size > 1024 * 1024 {
        SizeUnit::Megabytes
    } else if size > 1024 {
        SizeUnit::Kilobytes
    } else {
        SizeUnit::Bytes
    }
}

/// The heading of a directory in the file tree: its name with the number of
/// its items, or a mark that it is empty.
pub open spec fn dir_header_of(name: Seq<char>, items: nat) -> Seq<char> {
    if items > 0 {
        "📁 "@ + name + " ("@ + decimal(items) + " 项)"@
    } else {
        "📁 "@ + name + " (空)"@
    }
}

/// The heading of a directory node of the file tree.
pub fn dir_header(node: &FileEntry) -> (res: String)
    ensures
        res@ == dir_header_of(node.name@, node.children@.len()),
{
    let mut header = String::from_str("📁 ");
    header.append(node.name.as_str());
    let child_count = node.children.len();
    if child_count > 0 {
        header.append(" (");
        let count = decimal_string(child_count);
        header.append(count.as_str());
        header.append(" 项)");
    } else {
        header.append(" (空)");
    }
    header
}

/// The line shown under a program's name: its version and publisher,
/// separated by " · " when both are present.
pub open spec fn subtitle_of(version: Seq<char>, publisher: Seq<char>) -> Seq<char> {
    if version.len() > 0 && publisher.len() > 0 {
        version + " · "@ + publisher
    } else {
        version + publisher
    }
}

/// The line shown under a program's name in the list.
pub fn subtitle(sw: &Software) -> (res: String)
    ensures
        res@ == subtitle_of(sw.version@, sw.publisher@),
{
    let mut subtitle = String::new();
    if !sw.version.as_str().is_empty() {
        subtitle.append(sw.version.as_str());
    }
    if !sw.publisher.as_str().is_empty() {
        if !subtitle.as_str().is_empty() {
            subtitle.append(" · ");
        }
        subtitle.append(sw.publisher.as_str());
    }
    subtitle
}

} // verus!
