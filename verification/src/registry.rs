//! The installed-software list: entries read from the uninstall keys of the
//! registry are merged by display name and ordered by lowercased name.
use vstd::prelude::*;
use crate::text::{lowercase, to_lowercase, chars_of};

verus! {

broadcast use vstd::seq_lib::group_to_multiset_ensures;

/// An installed program.
#[derive(Debug, PartialEq, Eq)]
pub struct Software {
    pub name: String,
    pub version: String,
    pub publisher: String,
    pub install_location: String,
    pub uninstall_string: String,
}

/// The mathematical content of a `Software`.
pub struct SoftwareModel {
    pub name: Seq<char>,
    pub version: Seq<char>,
    pub publisher: Seq<char>,
    pub install_location: Seq<char>,
    pub uninstall_string: Seq<char>,
}

impl View for Software {
    type V = SoftwareModel;

    open spec fn view(&self) -> SoftwareModel {
        SoftwareModel {
            name: self.name@,
            version: self.version@,
            publisher: self.publisher@,
            install_location: self.install_location@,
            uninstall_string: self.uninstall_string@,
        }
    }
}

impl Clone for Software {
    fn clone(&self) -> (res: Self)
        ensures
            res@ == self@,
    {
        Software {
            name: self.name.clone(),
            version: self.version.clone(),
            publisher: self.publisher.clone(),
            install_location: self.install_location.clone(),
            uninstall_string: self.uninstall_string.clone(),
        }
    }
}

/// The string values of one uninstall key of the registry; `None` where the
/// value is missing or is not a string.
#[derive(Debug, Clone, PartialEq, Eq)]
pub struct UninstallEntry {
    pub display_name: Option<String>,
    pub display_version: Option<String>,
    pub publisher: Option<String>,
    pub install_location: Option<String>,
    pub uninstall_string: Option<String>,
    pub quiet_uninstall_string: Option<String>,
}

/// The characters of an optional value, empty when it is missing.
pub open spec fn or_empty(v: Option<String>) -> Seq<char> {
    match v {
        Some(s) => s@,
        None => Seq::empty(),
    }
}

/// The program that an uninstall key describes: `None` when it has no (or an
/// empty) display name; the uninstall command is `UninstallString`, or
/// `QuietUninstallString` when the former is missing.
pub open spec fn entry_software(e: UninstallEntry) -> Option<SoftwareModel> {
    let name = or_empty(e.display_name);
    if name.len() == 0 {
        None
    } else {
        Some(SoftwareModel {
            name,
            version: or_empty(e.display_version),
            publisher: or_empty(e.publisher),
            install_location: or_empty(e.install_location),
            uninstall_string: match e.uninstall_string {
                Some(u) => u@,
                None => or_empty(e.quiet_uninstall_string),
            },
        })
    }
}

/// A field kept from the program already listed, filled from a later entry
/// of the same name only when it was empty.
pub open spec fn fill(kept: Seq<char>, later: Seq<char>) -> Seq<char> {
    if kept.len() == 0 && later.len() > 0 {
        later
    } else {
        kept
    }
}

/// The listed program `kept` completed with the fields of `later`.
pub open spec fn merged(kept: SoftwareModel, later: SoftwareModel) -> SoftwareModel {
    SoftwareModel {
        name: kept.name,
        version: fill(kept.version, later.version),
        publisher: fill(kept.publisher, later.publisher),
        install_location: fill(kept.install_location, later.install_location),
        uninstall_string: fill(kept.uninstall_string, later.uninstall_string),
    }
}

/// No two programs of the list share a name.
pub open spec fn names_distinct(l: Seq<SoftwareModel>) -> bool {
    forall|i: int, j: int| 0 <= i < l.len() && 0 <= j < l.len() && i != j ==> l[i].name != l[j].name
}

/// Some program of the list has the name `name`.
pub open spec fn has_name(l: Seq<SoftwareModel>, name: Seq<char>) -> bool {
    exists|i: int| 0 <= i < l.len() && l[i].name == name
}

/// The list after adding `s`: a program of the same name is completed with
/// `s`'s fields (see `merged`); otherwise `s` is added at the end.
pub open spec fn merge_into(l: Seq<SoftwareModel>, s: SoftwareModel) -> Seq<SoftwareModel> {
    if has_name(l, s.name) {
        let i = choose|i: int| 0 <= i < l.len() && l[i].name == s.name;
        l.update(i, merged(l[i], s))
    } else {
        l.push(s)
    }
}

/// The list `l` after merging in, in order, the programs that the uninstall
/// keys `entries` describe.
pub open spec fn merge_all(l: Seq<SoftwareModel>, entries: Seq<UninstallEntry>) -> Seq<SoftwareModel>
    decreases entries.len(),
{
    if entries.len() == 0 {
        l
    } else {
        let prev = merge_all(l, entries.drop_last());
        match entry_software(entries.last()) {
            Some(s) => merge_into(prev, s),
            None => prev,
        }
    }
}

/// The list that the uninstall keys `entries`, taken in order, make.
pub open spec fn collected(entries: Seq<UninstallEntry>) -> Seq<SoftwareModel> {
    merge_all(Seq::empty(), entries)
}

/// The models of a list of programs.
pub open spec fn models(l: Seq<Software>) -> Seq<SoftwareModel> {
    l.map_values(|s: Software| s@)
}

fn string_or_empty(v: &Option<String>) -> (res: String)
    ensures
        res@ == or_empty(*v),
{
    match v {
        Some(s) => s.clone(),
        None => String::new(),
    }
}

/// The program that an uninstall key describes, if it has a display name.
pub fn software_from_entry(e: &UninstallEntry) -> (res: Option<Software>)
    ensures
        match res {
            Some(s) => entry_software(*e) == Some(s@),
            None => entry_software(*e) is None,
        },
        res is Some <==> (e.display_name is Some && e.display_name->0@.len() > 0),
        res matches Some(s) ==> {
            &&& s.name@ == e.display_name->0@
            &&& s.version@ == (if e.display_version is Some { e.display_version->0@ } else { Seq::empty() })
            &&& s.publisher@ == (if e.publisher is Some { e.publisher->0@ } else { Seq::empty() })
            &&& s.install_location@ == (if e.install_location is Some { e.install_location->0@ } else { Seq::empty() })
            &&& s.uninstall_string@ == (if e.uninstall_string is Some {
                e.uninstall_string->0@
            } else if e.quiet_uninstall_string is Some {
                e.quiet_uninstall_string->0@
            } else {
                Seq::empty()
            })
        },
{
    let name = string_or_empty(&e.display_name);
    if name.as_str().is_empty() {
        return None;
    }
    let uninstall_string = match &e.uninstall_string {
        Some(u) => u.clone(),
        None => string_or_empty(&e.quiet_uninstall_string),
    };
    Some(Software {
        name,
        version: string_or_empty(&e.display_version),
        publisher: string_or_empty(&e.publisher),
        install_location: string_or_empty(&e.install_location),
        uninstall_string,
    })
}

fn fill_field(kept: &String, later: &String) -> (res: String)
    ensures
        res@ == fill(kept@, later@),
{
    if kept.as_str().is_empty() && !later.as_str().is_empty() {
        later.clone()
    } else {
        kept.clone()
    }
}

/// Adds `sw` to `list`, completing the program of the same name if there is
/// one (its empty fields are filled from `sw`), else appending it.
pub fn merge_software(list: &mut Vec<Software>, sw: Software)
    requires
        names_distinct(models(old(list)@)),
    ensures
        models(final(list)@) == merge_into(models(old(list)@), sw@),
        names_distinct(models(final(list)@)),
{
    let ghost m = models(list@);
    let n = list.len();
    let mut j: usize = 0;
    while j < n
        invariant
            n == list@.len(),
            list@ == old(list)@,
            m == models(list@),
            names_distinct(m),
            j <= n,
            forall|k: int| 0 <= k < j ==> m[k].name != sw@.name,
        decreases n - j,
    {
        if list[j].name == sw.name {
            assert(m[j as int].name == sw@.name);
            let merged_sw = Software {
                name: list[j].name.clone(),
                version: fill_field(&list[j].version, &sw.version),
                publisher: fill_field(&list[j].publisher, &sw.publisher),
                install_location: fill_field(&list[j].install_location, &sw.install_location),
                uninstall_string: fill_field(&list[j].uninstall_string, &sw.uninstall_string),
            };
            assert(merged_sw@ == merged(m[j as int], sw@));
            list.set(j, merged_sw);
            proof {
                assert(has_name(m, sw@.name));
                let i = choose|i: int| 0 <= i < m.len() && m[i].name == sw@.name;
                assert(i == j);
                assert(models(list@) =~= m.update(j as int, merged(m[j as int], sw@)));
            }
            return;
        }
        j = j + 1;
    }
    list.push(sw);
    assert(models(list@) =~= m.push(sw@));
}

/// Every program of the list has a non-empty name.
pub open spec fn names_nonempty(l: Seq<SoftwareModel>) -> bool {
    forall|i: int| 0 <= i < l.len() ==> (#[trigger] l[i]).name.len() > 0
}

/// Merging an entry completes the program of its name without losing
/// anything already listed: names and positions stay, a non-empty field
/// keeps its value, an empty one takes the entry's, and afterwards the entry's
/// name is listed exactly once.
pub proof fn law_merge_keeps_information(l: Seq<SoftwareModel>, s: SoftwareModel)
    requires
        names_distinct(l),
    ensures
        ({
            let r = merge_into(l, s);
            &&& names_distinct(r)
            &&& has_name(r, s.name)
            &&& l.len() <= r.len() <= l.len() + 1
            &&& forall|i: int| 0 <= i < l.len() ==> {
                &&& (#[trigger] r[i]).name == l[i].name
                &&& r[i].version == fill(l[i].version, if l[i].name == s.name { s.version } else { l[i].version })
                &&& r[i].publisher == fill(l[i].publisher, if l[i].name == s.name { s.publisher } else { l[i].publisher })
                &&& r[i].install_location == fill(l[i].install_location,
                    if l[i].name == s.name { s.install_location } else { l[i].install_location })
                &&& r[i].uninstall_string == fill(l[i].uninstall_string,
                    if l[i].name == s.name { s.uninstall_string } else { l[i].uninstall_string })
            }
        }),
{
    let r = merge_into(l, s);
    if has_name(l, s.name) {
        let k = choose|i: int| 0 <= i < l.len() && l[i].name == s.name;
        assert(r[k].name == s.name);
    } else {
        assert(r[l.len() as int].name == s.name);
    }
}

/// Merging the subkeys of an uninstall key into a list of programs keeps the
/// list's shape: names stay non-empty and distinct (subkeys without a display
/// name are skipped), every listed program keeps its place and name, and a
/// non-empty field is never overwritten; the list only grows.
pub proof fn law_merge_all_keeps_information(l: Seq<SoftwareModel>, entries: Seq<UninstallEntry>)
    requires
        names_distinct(l),
        names_nonempty(l),
    ensures
        ({
            let r = merge_all(l, entries);
            &&& names_distinct(r)
            &&& names_nonempty(r)
            &&& l.len() <= r.len()
            &&& forall|i: int| 0 <= i < l.len() ==> {
                &&& (#[trigger] r[i]).name == l[i].name
                &&& l[i].version.len() > 0 ==> r[i].version == l[i].version
                &&& l[i].publisher.len() > 0 ==> r[i].publisher == l[i].publisher
                &&& l[i].install_location.len() > 0 ==> r[i].install_location == l[i].install_location
                &&& l[i].uninstall_string.len() > 0 ==> r[i].uninstall_string == l[i].uninstall_string
            }
        }),
    decreases entries.len(),
{
    if entries.len() > 0 {
        law_merge_all_keeps_information(l, entries.drop_last());
        let prev = merge_all(l, entries.drop_last());
        match entry_software(entries.last()) {
            Some(sw) => {
                law_merge_keeps_information(prev, sw);
                let r = merge_into(prev, sw);
                assert forall|i: int| 0 <= i < r.len() implies (#[trigger] r[i]).name.len() > 0 by {
                    if i < prev.len() {
                        assert(r[i].name == prev[i].name);
                    } else {
                        assert(r[i] == sw);
                    }
                }
                assert forall|i: int| 0 <= i < l.len() implies (#[trigger] r[i]).name == l[i].name by {
                    assert(prev[i].name == l[i].name);
                }
            },
            None => {},
        }
    }
}

proof fn lemma_collected_wf(entries: Seq<UninstallEntry>)
    ensures
        names_distinct(collected(entries)),
        names_nonempty(collected(entries)),
{
    law_merge_all_keeps_information(Seq::empty(), entries);
}

/// An uninstall key describes a program exactly when it has a non-empty
/// display name; the program's fields are the key's values as they are (an
/// absent value gives an empty field), the uninstall command being
/// `UninstallString`, or `QuietUninstallString` when that is absent.
pub proof fn law_program_fields_from_key(e: UninstallEntry)
    ensures
        entry_software(e) is Some <==> (e.display_name is Some && e.display_name->0@.len() > 0),
        entry_software(e) matches Some(s) ==> {
            &&& s.name == e.display_name->0@
            &&& s.version == (if e.display_version is Some { e.display_version->0@ } else { Seq::empty() })
            &&& s.publisher == (if e.publisher is Some { e.publisher->0@ } else { Seq::empty() })
            &&& s.install_location == (if e.install_location is Some { e.install_location->0@ } else { Seq::empty() })
            &&& s.uninstall_string == (if e.uninstall_string is Some {
                e.uninstall_string->0@
            } else if e.quiet_uninstall_string is Some {
                e.quiet_uninstall_string->0@
            } else {
                Seq::empty()
            })
        },
{
}

/// The uninstall key `e` has the display name `n`.
pub open spec fn key_named(e: UninstallEntry, n: Seq<char>) -> bool {
    e.display_name is Some && e.display_name->0@ == n
}

/// The uninstall key `e` has a non-empty `InstallLocation` value.
pub open spec fn key_has_location(e: UninstallEntry) -> bool {
    e.install_location is Some && e.install_location->0@.len() > 0
}

proof fn lemma_locations_from_keys(es: Seq<UninstallEntry>)
    ensures
        ({
            let r = collected(es);
            &&& forall|j: int| 0 <= j < es.len() && es[j].display_name is Some
                && es[j].display_name->0@.len() > 0 ==> has_name(r, (#[trigger] es[j]).display_name->0@)
            &&& forall|i: int| 0 <= i < r.len() && (#[trigger] r[i]).install_location.len() > 0 ==> exists|j: int|
                0 <= j < es.len() && #[trigger] key_named(es[j], r[i].name) && es[j].install_location is Some
                    && es[j].install_location->0@ == r[i].install_location
                    && forall|k: int| 0 <= k < j && #[trigger] key_named(es[k], r[i].name) ==> !key_has_location(es[k])
            &&& forall|i: int, j: int| 0 <= i < r.len() && (#[trigger] r[i]).install_location.len() == 0
                && 0 <= j < es.len() && #[trigger] key_named(es[j], r[i].name) ==> !key_has_location(es[j])
        }),
    decreases es.len(),
{
    lemma_collected_wf(es);
    if es.len() > 0 {
        let p = es.drop_last();
        let e = es.last();
        let last = p.len() as int;
        lemma_locations_from_keys(p);
        lemma_collected_wf(p);
        let prev = collected(p);
        let r = collected(es);
        assert forall|j: int| 0 <= j < p.len() implies #[trigger] p[j] == es[j] by {}
        match entry_software(e) {
            None => {
                assert(r == prev);
                assert forall|j: int| 0 <= j < es.len() && es[j].display_name is Some
                    && es[j].display_name->0@.len() > 0 implies has_name(r, (#[trigger] es[j]).display_name->0@) by {
                    if j < last {
                        assert(p[j] == es[j]);
                    }
                }
                assert forall|i: int| 0 <= i < r.len() && (#[trigger] r[i]).install_location.len() > 0 implies exists|j: int|
                    0 <= j < es.len() && #[trigger] key_named(es[j], r[i].name) && es[j].install_location is Some
                        && es[j].install_location->0@ == r[i].install_location
                        && forall|k: int| 0 <= k < j && #[trigger] key_named(es[k], r[i].name) ==> !key_has_location(es[k]) by {
                    let j = choose|j: int|
                        0 <= j < p.len() && #[trigger] key_named(p[j], prev[i].name) && p[j].install_location is Some
                            && p[j].install_location->0@ == prev[i].install_location
                            && forall|k: int| 0 <= k < j && #[trigger] key_named(p[k], prev[i].name) ==> !key_has_location(p[k]);
                    assert(key_named(es[j], r[i].name));
                    assert forall|k: int| 0 <= k < j && #[trigger] key_named(es[k], r[i].name) implies !key_has_location(es[k]) by {
                        assert(key_named(p[k], prev[i].name));
                    }
                }
                assert forall|i: int, j: int| 0 <= i < r.len() && (#[trigger] r[i]).install_location.len() == 0
                    && 0 <= j < es.len() && #[trigger] key_named(es[j], r[i].name) implies !key_has_location(es[j]) by {
                    assert(r[i].name.len() > 0);
                    if j < last {
                        assert(key_named(p[j], prev[i].name));
                    }
                }
            },
            Some(s) => {
                law_merge_keeps_information(prev, s);
                let hn = has_name(prev, s.name);
                if !hn {
                    assert(r == prev.push(s));
                }
                assert forall|i: int| 0 <= i < prev.len() implies (#[trigger] r[i]).name == prev[i].name by {}
                // the entry's name is listed, and so is every earlier name
                assert forall|j: int| 0 <= j < es.len() && es[j].display_name is Some
                    && es[j].display_name->0@.len() > 0 implies has_name(r, (#[trigger] es[j]).display_name->0@) by {
                    if j < last {
                        assert(p[j] == es[j]);
                        assert(has_name(prev, p[j].display_name->0@));
                        let k = choose|k: int| 0 <= k < prev.len() && prev[k].name == p[j].display_name->0@;
                        assert(r[k].name == prev[k].name);
                    }
                }
                assert forall|i: int| 0 <= i < r.len() && (#[trigger] r[i]).install_location.len() > 0 implies exists|j: int|
                    0 <= j < es.len() && #[trigger] key_named(es[j], r[i].name) && es[j].install_location is Some
                        && es[j].install_location->0@ == r[i].install_location
                        && forall|k: int| 0 <= k < j && #[trigger] key_named(es[k], r[i].name) ==> !key_has_location(es[k]) by {
                    if i < prev.len() && prev[i].install_location.len() > 0 {
                        assert(r[i].install_location == prev[i].install_location);
                        let j = choose|j: int|
                            0 <= j < p.len() && #[trigger] key_named(p[j], prev[i].name) && p[j].install_location is Some
                                && p[j].install_location->0@ == prev[i].install_location
                                && forall|k: int| 0 <= k < j && #[trigger] key_named(p[k], prev[i].name) ==> !key_has_location(p[k]);
                        assert(key_named(es[j], r[i].name));
                        assert forall|k: int| 0 <= k < j && #[trigger] key_named(es[k], r[i].name) implies !key_has_location(es[k]) by {
                            assert(key_named(p[k], prev[i].name));
                        }
                    } else {
                        // the location came from this key
                        if i < prev.len() {
                            assert(prev[i].name == s.name);
                        } else {
                            assert(r[i] == s);
                        }
                        assert(r[i].install_location == s.install_location);
                        assert(key_named(es[last], r[i].name));
                        assert forall|k: int| 0 <= k < last && #[trigger] key_named(es[k], r[i].name) implies !key_has_location(es[k]) by {
                            assert(key_named(p[k], s.name));
                            if i < prev.len() {
                                assert(key_named(p[k], prev[i].name));
                            } else {
                                assert(es[k].display_name->0@.len() > 0);
                                assert(has_name(prev, p[k].display_name->0@));
                            }
                        }
                    }
                }
                assert forall|i: int, j: int| 0 <= i < r.len() && (#[trigger] r[i]).install_location.len() == 0
                    && 0 <= j < es.len() && #[trigger] key_named(es[j], r[i].name) implies !key_has_location(es[j]) by {
                    if i < prev.len() {
                        if j < last {
                            assert(key_named(p[j], prev[i].name));
                        }
                    } else {
                        assert(r[i] == s);
                        if j < last {
                            assert(key_named(p[j], s.name));
                            assert(has_name(prev, p[j].display_name->0@));
                        }
                    }
                }
            },
        }
    }
}

/// Each listed program's install location is the `InstallLocation` value of
/// the first uninstall key of its name that has a non-empty one, and empty
/// when no key of its name has one; no other value of the keys goes there.
pub proof fn law_install_location_from_keys(entries: Seq<UninstallEntry>)
    ensures
        ({
            let r = collected(entries);
            &&& forall|i: int| 0 <= i < r.len() && (#[trigger] r[i]).install_location.len() > 0 ==> exists|j: int|
                0 <= j < entries.len() && #[trigger] key_named(entries[j], r[i].name)
                    && entries[j].install_location is Some
                    && entries[j].install_location->0@ == r[i].install_location
                    && forall|k: int| 0 <= k < j && #[trigger] key_named(entries[k], r[i].name)
                        ==> !key_has_location(entries[k])
            &&& forall|i: int, j: int| 0 <= i < r.len() && (#[trigger] r[i]).install_location.len() == 0
                && 0 <= j < entries.len() && #[trigger] key_named(entries[j], r[i].name)
                ==> !key_has_location(entries[j])
        }),
{
    lemma_locations_from_keys(entries);
}

/// The list of installed programs names each program once: its names are
/// non-empty and pairwise distinct.
pub proof fn law_listing_names_unique(entries: Seq<UninstallEntry>, res: Seq<SoftwareModel>)
    requires
        res.to_multiset() == collected(entries).to_multiset(),
    ensures
        names_distinct(res),
        names_nonempty(res),
{
    let c = collected(entries);
    lemma_collected_wf(entries);
    assert(c.no_duplicates());
    c.lemma_multiset_has_no_duplicates();
    assert forall|x: SoftwareModel| res.to_multiset().contains(x) implies res.to_multiset().count(x) == 1 by {
        assert(c.to_multiset().contains(x));
    }
    res.lemma_multiset_has_no_duplicates_conv();
    assert forall|i: int| 0 <= i < res.len() implies (#[trigger] res[i]).name.len() > 0 by {
        assert(res.contains(res[i]));
        assert(res.to_multiset().count(res[i]) > 0);
        assert(c.contains(res[i]));
    }
    assert forall|i: int, j: int| 0 <= i < res.len() && 0 <= j < res.len() && i != j implies res[i].name
        != res[j].name by {
        assert(res.contains(res[i]));
        assert(res.contains(res[j]));
        assert(res.to_multiset().count(res[i]) > 0);
        assert(res.to_multiset().count(res[j]) > 0);
        assert(c.contains(res[i]));
        assert(c.contains(res[j]));
        let a = choose|a: int| 0 <= a < c.len() && c[a] == res[i];
        let b = choose|b: int| 0 <= b < c.len() && c[b] == res[j];
        assert(a != b);
    }
}

/// Merges the programs that the subkeys `entries` of an uninstall key describe,
/// in order, into `list` (see `merge_software`); subkeys without a display
/// name are skipped.
pub fn read_uninstall_key(list: &mut Vec<Software>, entries: &Vec<UninstallEntry>)
    requires
        names_distinct(models(old(list)@)),
    ensures
        models(final(list)@) == merge_all(models(old(list)@), entries@),
        names_distinct(models(final(list)@)),
{
    let ghost start = models(list@);
    let n = entries.len();
    let mut i: usize = 0;
    assert(entries@.take(0) =~= Seq::<UninstallEntry>::empty());
    while i < n
        invariant
            n == entries@.len(),
            i <= n,
            models(list@) == merge_all(start, entries@.take(i as int)),
            names_distinct(models(list@)),
        decreases n - i,
    {
        assert(entries@.take(i + 1).drop_last() =~= entries@.take(i as int));
        match software_from_entry(&entries[i]) {
            Some(sw) => merge_software(list, sw),
            None => {},
        }
        i = i + 1;
    }
    assert(entries@.take(n as int) =~= entries@);
}

/// The installed programs that the uninstall keys `entries` (in the order in
/// which they were read) describe: one per display name, completed from every
/// key of that name, in ascending order of lowercased name.
pub fn get_installed_software(entries: &Vec<UninstallEntry>) -> (res: Vec<Software>)
    ensures
        models(res@).to_multiset() == collected(entries@).to_multiset(),
        sorted_by_lower_name(models(res@)),
        names_distinct(models(res@)),
        names_nonempty(models(res@)),
{
    let mut list: Vec<Software> = Vec::new();
    assert(models(list@) =~= Seq::<SoftwareModel>::empty());
    read_uninstall_key(&mut list, entries);
    let res = sort_by_lower_name(&list);
    proof {
        law_listing_names_unique(entries@, models(res@));
    }
    res
}

/// `a` comes no later than `b` in the order of `String`: lexicographic by
/// code point, a proper prefix first.
pub open spec fn lex_le(a: Seq<char>, b: Seq<char>) -> bool
    decreases a.len(),
{
    if a.len() == 0 {
        true
    } else if b.len() == 0 {
        false
    } else if a[0] != b[0] {
        a[0] < b[0]
    } else {
        lex_le(a.drop_first(), b.drop_first())
    }
}

proof fn lemma_lex_total(a: Seq<char>, b: Seq<char>)
    ensures
        lex_le(a, b) || lex_le(b, a),
    decreases a.len(),
{
    if a.len() > 0 && b.len() > 0 && a[0] == b[0] {
        lemma_lex_total(a.drop_first(), b.drop_first());
    }
}

proof fn lemma_lex_trans(a: Seq<char>, b: Seq<char>, c: Seq<char>)
    requires
        lex_le(a, b),
        lex_le(b, c),
    ensures
        lex_le(a, c),
    decreases a.len(),
{
    if a.len() > 0 && b.len() > 0 && c.len() > 0 && a[0] == b[0] && b[0] == c[0] {
        lemma_lex_trans(a.drop_first(), b.drop_first(), c.drop_first());
    }
}

/// Compares two character sequences as `String`'s order does.
fn lex_le_exec(a: &Vec<char>, b: &Vec<char>) -> (res: bool)
    ensures
        res == lex_le(a@, b@),
{
    let mut i: usize = 0;
    assert(a@.skip(0) =~= a@);
    assert(b@.skip(0) =~= b@);
    while i < a.len() && i < b.len()
        invariant
            i <= a@.len(),
            i <= b@.len(),
            lex_le(a@, b@) == lex_le(a@.skip(i as int), b@.skip(i as int)),
        decreases a@.len() - i,
    {
        if a[i] != b[i] {
            return a[i] < b[i];
        }
        assert(a@.skip(i as int).drop_first() =~= a@.skip(i + 1));
        assert(b@.skip(i as int).drop_first() =~= b@.skip(i + 1));
        i = i + 1;
    }
    a.len() <= b.len()
}

/// The programs are in ascending order of their lowercased names.
pub open spec fn sorted_by_lower_name(l: Seq<SoftwareModel>) -> bool {
    forall|i: int, j: int| 0 <= i < j < l.len() ==> lex_le(lowercase(l[i].name), lowercase(l[j].name))
}

/// The programs of `list` in ascending order of lowercased name.
pub fn sort_by_lower_name(list: &Vec<Software>) -> (res: Vec<Software>)
    ensures
        models(res@).to_multiset() == models(list@).to_multiset(),
        sorted_by_lower_name(models(res@)),
{
    let mut sorted: Vec<Software> = Vec::new();
    let mut keys: Vec<Vec<char>> = Vec::new();
    let n = list.len();
    let mut i: usize = 0;
    while i < n
        invariant
            n == list@.len(),
            i <= n,
            keys@.len() == sorted@.len(),
            forall|k: int| 0 <= k < keys@.len() ==> (#[trigger] keys@[k])@ == lowercase(sorted@[k]@.name),
            sorted_by_lower_name(models(sorted@)),
            models(sorted@).to_multiset() == models(list@.take(i as int)).to_multiset(),
        decreases n - i,
    {
        let item = list[i].clone();
        let key_string = to_lowercase(item.name.as_str());
        let key = chars_of(key_string.as_str());
        let len = keys.len();
        let mut p: usize = 0;
        while p < len && lex_le_exec(&keys[p], &key)
            invariant
                len == keys@.len(),
                p <= len,
                forall|k: int| 0 <= k < p ==> lex_le((#[trigger] keys@[k])@, key@),
            decreases len - p,
        {
            p = p + 1;
        }
        proof {
            if p < len {
                lemma_lex_total(keys@[p as int]@, key@);
            }
            let old_m = models(sorted@);
            assert forall|a: int, b: int| 0 <= a < b < old_m.len() + 1 implies
                lex_le(lowercase(old_m.insert(p as int, item@)[a].name),
                    lowercase(old_m.insert(p as int, item@)[b].name)) by {
                let ins = old_m.insert(p as int, item@);
                if b == p {
                    assert(keys@[a]@ == lowercase(old_m[a].name));
                } else if a == p {
                    assert(keys@[p as int]@ == lowercase(old_m[p as int].name));
                    assert(keys@[b - 1]@ == lowercase(old_m[b - 1].name));
                    if b - 1 > p {
                        lemma_lex_trans(key@, lowercase(old_m[p as int].name), lowercase(old_m[b - 1].name));
                    }
                }
            }
        }
        let ghost old_sorted = sorted@;
        let ghost old_keys = keys@;
        sorted.insert(p, item);
        keys.insert(p, key);
        proof {
            assert(models(sorted@) =~= models(old_sorted).insert(p as int, list@[i as int]@));
            assert(list@.take(i + 1) =~= list@.take(i as int).push(list@[i as int]));
            assert(models(list@.take(i + 1)) =~= models(list@.take(i as int)).push(list@[i as int]@));
            assert forall|k: int| 0 <= k < keys@.len() implies (#[trigger] keys@[k])@ == lowercase(sorted@[k]@.name) by {
                if k < p {
                    assert(keys@[k] == old_keys[k]);
                } else if k > p {
                    assert(keys@[k] == old_keys[k - 1]);
                }
            }
        }
        i = i + 1;
    }
    assert(list@.take(n as int) =~= list@);
    sorted
}

} // verus!
