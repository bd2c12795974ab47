//! Associating Start-menu and desktop shortcuts with an install location.
use vstd::prelude::*;
use crate::lnk::{lnk_target, parse_lnk_target};
use crate::text::{lowercase, seq_contains, eq_ascii_nocase, to_lowercase, str_contains,
    str_eq_ignore_ascii_case};

verus! {

/// A shortcut whose target is related to an install location.
#[derive(Debug, Clone, PartialEq, Eq)]
pub struct ShortcutInfo {
    /// The shortcut file's name without its extension.
    pub name: String,
    /// The shortcut file's full path.
    pub path: String,
    /// The target path recorded in the shortcut.
    pub target: String,
}

impl View for ShortcutInfo {
    type V = (Seq<char>, Seq<char>, Seq<char>);

    open spec fn view(&self) -> (Seq<char>, Seq<char>, Seq<char>) {
        (self.name@, self.path@, self.target@)
    }
}

/// A `.lnk` file found while scanning: its name without extension, its full
/// path, and its bytes.
#[derive(Debug, Clone)]
pub struct LinkFile {
    pub name: String,
    pub path: String,
    pub data: Vec<u8>,
}

/// Two lowercased paths are related when either one contains the other.
pub open spec fn paths_related(a_lower: Seq<char>, b_lower: Seq<char>) -> bool {
    seq_contains(b_lower, a_lower) || seq_contains(a_lower, b_lower)
}

/// How many directory levels a shortcut scan lists: each scanned folder and
/// its direct subfolders.
pub const SHORTCUT_SCAN_DEPTH: usize = 2;

/// What a shortcut scan does with one entry of a folder it lists.
#[derive(Debug, Clone, Copy, PartialEq, Eq)]
pub enum ScanStep {
    /// Scan the subfolder, which may list `0` more levels below it.
    Descend(usize),
    /// Read the file as a shortcut.
    ReadLink,
    /// Leave the entry alone.
    Skip,
}

/// Whether a scan that may still list `depth` levels lists the folder it is at.
pub fn lists_folder(depth: usize) -> (res: bool)
    ensures
        res == (depth > 0),
{
    depth > 0
}

/// What a scan that lists a folder with `depth` levels left does with an entry
/// of it: a subfolder is scanned with one level less, a file with the `lnk`
/// extension (any ASCII case) is read, anything else is skipped.
pub fn scan_step(depth: usize, is_dir: bool, ext: Option<&str>) -> (res: ScanStep)
    requires
        depth > 0,
    ensures
        res == (if is_dir {
            ScanStep::Descend((depth - 1) as usize)
        } else if (match ext {
            Some(e) => eq_ascii_nocase(e@, seq!['l', 'n', 'k']),
            None => false,
        }) {
            ScanStep::ReadLink
        } else {
            ScanStep::Skip
        }),
{
    if is_dir {
        ScanStep::Descend(depth - 1)
    } else {
        match ext {
            Some(e) => {
                if is_lnk_extension(e) {
                    ScanStep::ReadLink
                } else {
                    ScanStep::Skip
                }
            },
            None => ScanStep::Skip,
        }
    }
}

/// Relatedness of paths does not depend on which path is the install location
/// and which the shortcut target, and a path is related to itself.
pub proof fn law_paths_related_symmetric(a: Seq<char>, b: Seq<char>)
    ensures
        paths_related(a, b) == paths_related(b, a),
        paths_related(a, a),
{
    assert(crate::text::occurs_at(a, a, 0)) by {
        assert(a.subrange(0, a.len() as int) =~= a);
    }
}

/// The shortcuts among `files` whose recorded target is related to the
/// lowercased install location `location_lower`, in the order of `files`.
pub open spec fn shortcuts_for(location_lower: Seq<char>, files: Seq<LinkFile>) -> Seq<(Seq<char>, Seq<char>, Seq<char>)>
    decreases files.len(),
{
    if files.len() == 0 {
        Seq::empty()
    } else {
        let prev = shortcuts_for(location_lower, files.drop_last());
        let f = files.last();
        match lnk_target(f.data@) {
            Some(t) => if paths_related(location_lower, lowercase(t)) {
                prev.push((f.name@, f.path@, t))
            } else {
                prev
            },
            None => prev,
        }
    }
}

/// The link file `f` records a target path that is related to the lowercased
/// location `loc_lower`: once lowercased, either path contains the other.
pub open spec fn link_related(loc_lower: Seq<char>, f: LinkFile) -> bool {
    lnk_target(f.data@) is Some && {
        let t = lowercase(lnk_target(f.data@)->0);
        seq_contains(t, loc_lower) || seq_contains(loc_lower, t)
    }
}

/// The shortcut that the link file `f` gives: its name, its path and the
/// target it records.
pub open spec fn link_shortcut(f: LinkFile) -> (Seq<char>, Seq<char>, Seq<char>) {
    (f.name@, f.path@, lnk_target(f.data@)->0)
}

proof fn lemma_shortcut_indices(loc_lower: Seq<char>, files: Seq<LinkFile>) -> (idx: Seq<int>)
    ensures
        idx.len() == shortcuts_for(loc_lower, files).len(),
        forall|k: int| 0 <= k < idx.len() ==> 0 <= #[trigger] idx[k] < files.len() && link_related(loc_lower, files[idx[k]])
            && shortcuts_for(loc_lower, files)[k] == link_shortcut(files[idx[k]]),
        forall|k: int, l: int| 0 <= k < l < idx.len() ==> idx[k] < idx[l],
        forall|j: int| 0 <= j < files.len() && #[trigger] link_related(loc_lower, files[j]) ==> exists|k: int|
            0 <= k < idx.len() && idx[k] == j,
    decreases files.len(),
{
    if files.len() == 0 {
        Seq::empty()
    } else {
        let p = files.drop_last();
        let f = files.last();
        let last = p.len() as int;
        let ip = lemma_shortcut_indices(loc_lower, p);
        let prev = shortcuts_for(loc_lower, p);
        assert forall|j: int| 0 <= j < p.len() implies #[trigger] p[j] == files[j] by {}
        if link_related(loc_lower, f) {
            let idx = ip.push(last);
            assert(shortcuts_for(loc_lower, files) == prev.push(link_shortcut(f)));
            assert forall|k: int| 0 <= k < idx.len() implies 0 <= #[trigger] idx[k] < files.len()
                && link_related(loc_lower, files[idx[k]])
                && shortcuts_for(loc_lower, files)[k] == link_shortcut(files[idx[k]]) by {
                if k < ip.len() {
                    assert(idx[k] == ip[k]);
                    assert(p[ip[k]] == files[ip[k]]);
                }
            }
            assert forall|j: int| 0 <= j < files.len() && #[trigger] link_related(loc_lower, files[j]) implies exists|k: int|
                0 <= k < idx.len() && idx[k] == j by {
                if j < last {
                    assert(link_related(loc_lower, p[j]));
                    let k = choose|k: int| 0 <= k < ip.len() && ip[k] == j;
                    assert(idx[k] == j);
                } else {
                    assert(idx[ip.len() as int] == j);
                }
            }
            idx
        } else {
            assert(shortcuts_for(loc_lower, files) == prev);
            assert forall|k: int| 0 <= k < ip.len() implies 0 <= #[trigger] ip[k] < files.len()
                && link_related(loc_lower, files[ip[k]])
                && shortcuts_for(loc_lower, files)[k] == link_shortcut(files[ip[k]]) by {
                assert(p[ip[k]] == files[ip[k]]);
            }
            assert forall|j: int| 0 <= j < files.len() && #[trigger] link_related(loc_lower, files[j]) implies exists|k: int|
                0 <= k < ip.len() && ip[k] == j by {
                assert(j < last);
                assert(link_related(loc_lower, p[j]));
            }
            ip
        }
    }
}

/// The shortcuts found for an install location are exactly the scanned link
/// files whose recorded target is related to the location, each once, in scan
/// order: there is an increasing choice of files, one per result, such that
/// each result is that file's name, path and target, and every related file
/// is chosen.
pub proof fn law_shortcuts_are_the_related_links(location: Seq<char>, files: Seq<LinkFile>)
    ensures
        ({
            let r = shortcuts_for(lowercase(location), files);
            exists|idx: Seq<int>| {
                &&& #[trigger] idx.len() == r.len()
                &&& forall|k: int| 0 <= k < idx.len() ==> 0 <= #[trigger] idx[k] < files.len()
                    && link_related(lowercase(location), files[idx[k]]) && r[k] == link_shortcut(files[idx[k]])
                &&& forall|k: int, l: int| 0 <= k < l < idx.len() ==> idx[k] < idx[l]
                &&& forall|j: int| 0 <= j < files.len() && #[trigger] link_related(lowercase(location), files[j])
                    ==> exists|k: int| 0 <= k < idx.len() && idx[k] == j
            }
        }),
{
    let idx = lemma_shortcut_indices(lowercase(location), files);
}

/// Whether a shortcut target (lowercased) belongs to an install location
/// (lowercased): either contains the other.
pub fn shortcut_matches(location_lower: &str, target_lower: &str) -> (res: bool)
    ensures
        res == paths_related(location_lower@, target_lower@),
{
    str_contains(target_lower, location_lower) || str_contains(location_lower, target_lower)
}

/// Whether a file extension names a shell link (`lnk`, in any ASCII case).
pub fn is_lnk_extension(ext: &str) -> (res: bool)
    ensures
        res == eq_ascii_nocase(ext@, seq!['l', 'n', 'k']),
{
    let lnk = "lnk";
    proof {
        reveal_strlit("lnk");
    }
    str_eq_ignore_ascii_case(ext, lnk)
}

/// The shortcuts among the scanned `.lnk` files whose target path is related
/// to `target_path` (ignoring case, either path containing the other), in scan
/// order.
pub fn find_shortcuts_for_path(target_path: &str, files: &Vec<LinkFile>) -> (res: Vec<ShortcutInfo>)
    ensures
        res@.map_values(|s: ShortcutInfo| s@) == shortcuts_for(lowercase(target_path@), files@),
{
    let target_lower = to_lowercase(target_path);
    let mut results: Vec<ShortcutInfo> = Vec::new();
    let mut i: usize = 0;
    while i < files.len()
        invariant
            i <= files.len(),
            target_lower@ == lowercase(target_path@),
            results@.map_values(|s: ShortcutInfo| s@) == shortcuts_for(lowercase(target_path@), files@.take(i as int)),
        decreases files.len() - i,
    {
        let f = &files[i];
        assert(files@.take(i + 1).drop_last() =~= files@.take(i as int));
        if let Some(lnk_target_path) = parse_lnk_target(f.data.as_slice()) {
            let lnk_lower = to_lowercase(lnk_target_path.as_str());
            if shortcut_matches(target_lower.as_str(), lnk_lower.as_str()) {
                let info = ShortcutInfo {
                    name: f.name.clone(),
                    path: f.path.clone(),
                    target: lnk_target_path,
                };
                let ghost prev = results@;
                results.push(info);
                assert(results@.map_values(|s: ShortcutInfo| s@) =~= prev.map_values(|s: ShortcutInfo| s@).push(info@));
            }
        }
        i = i + 1;
    }
    assert(files@.take(files.len() as int) =~= files@);
    results
}

} // verus!
