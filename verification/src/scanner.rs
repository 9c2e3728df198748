//! The project scanner: one ignore-aware, depth-bounded traversal per
//! root, marker-based detection, nested-project suppression, cross-root
//! deduplication by path, and a deterministic final order.

use vstd::prelude::*;
use vstd::string::StringExecFns;

use rayon::iter::IntoParallelRefIterator;
use rayon::iter::ParallelIterator;

use crate::merge::lemma_dedup_distinct;
use crate::merge::lemma_dedup_member;
use crate::merge::lemma_flatten_member;
use crate::merge::lemma_permutation_distinct;
use crate::merge::merge_results;
use crate::merge::paths_distinct;
use crate::merge::sort_by_name;
use crate::merge::sorted_by_name;

use crate::project::Project;
use crate::project::ProjectModel;
use crate::config::Config;
use crate::text::base_name;
use crate::text::base_name_of;
use crate::text::clone_strings;
use crate::text::comps_wf;
use crate::text::lemma_joined_base_name;
use crate::text::lemma_path_ancestor_is_component_prefix;
use crate::text::path_strict_ancestor;
use crate::text::contains_string;
use crate::text::is_strict_prefix;
use crate::text::join_one;
use crate::text::join_path;
use crate::text::joined_path;
use crate::text::contains_sub;
use crate::text::is_substring_of;
use crate::text::lower_of;
use crate::text::lowercase;
use crate::text::split_spaces;
use crate::text::split_terms;
use crate::text::strict_prefix_of;

verus! {

/// Mathematical model of a [`WalkEntry`].
pub struct WalkEntryModel {
    pub components: Seq<Seq<char>>,
    pub is_dir: bool,
}

/// One entry yielded by the traversal of a root: the path components
/// below the root (empty for the root itself) and whether the entry is a
/// directory.
#[derive(Debug)]
pub struct WalkEntry {
    pub components: Vec<String>,
    pub is_dir: bool,
}

impl View for WalkEntry {
    type V = WalkEntryModel;

    open spec fn view(&self) -> WalkEntryModel {
        WalkEntryModel { components: self.components.deep_view(), is_dir: self.is_dir }
    }
}

impl DeepView for WalkEntry {
    type V = WalkEntryModel;

    open spec fn deep_view(&self) -> WalkEntryModel {
        self.view()
    }
}

/// Relies on `ignore::WalkBuilder`: the walk visits the tree under `root`
/// at most `max_depth` levels deep (the root itself is depth 0), honours
/// ignore files, keeps hidden entries, and does not follow symbolic
/// links.  An unreadable or missing root yields no entries.  Each entry
/// is returned as its path components relative to the root: one real
/// directory-entry name per level, so each component is nonempty and
/// holds no separator.  Nothing is promised of the order of the entries.
#[verifier::external_body]
fn walk_root_entries(root: &String, max_depth: usize) -> (r: Vec<WalkEntry>)
    ensures
        forall|i: int|
            0 <= i < r.deep_view().len() ==> (#[trigger] r.deep_view()[i]).components.len()
                <= max_depth,
        forall|i: int|
            0 <= i < r.deep_view().len() ==> comps_wf((#[trigger] r.deep_view()[i]).components),
{
    let walker = ignore::WalkBuilder::new(root.as_str()).max_depth(Some(max_depth)).hidden(
        false,
    ).git_ignore(true).git_global(true).git_exclude(true).follow_links(false).build();
    walker.flatten().map(|e| WalkEntry {
        is_dir: e.file_type().map_or(false, |t| t.is_dir()),
        components: e.path().strip_prefix(root.as_str()).map_or(Vec::new(), |p| {
            p.components().map(|c| c.as_os_str().to_string_lossy().into_owned()).collect()
        }),
    }).collect()
}

/// Relies on `std::path::Path::exists`: whether the path points at an
/// existing entity, as a file or as a directory.  Nothing is promised of
/// the result: it depends on the state of the filesystem, and a failing
/// check reads as absent.
#[verifier::external_body]
fn path_exists(p: &String) -> bool {
    std::path::Path::new(p.as_str()).exists()
}

/// The first marker, in configured order, whose presence flag is set.
pub open spec fn first_marker(markers: Seq<Seq<char>>, present: Seq<bool>) -> Option<Seq<char>>
    decreases markers.len(),
{
    if markers.len() == 0 || present.len() == 0 {
        None
    } else if present[0] {
        Some(markers[0])
    } else {
        first_marker(markers.skip(1), present.skip(1))
    }
}

/// A found marker is always one of the configured markers.
pub proof fn lemma_first_marker_contains(markers: Seq<Seq<char>>, present: Seq<bool>)
    requires
        first_marker(markers, present) is Some,
    ensures
        markers.contains(first_marker(markers, present)->0),
    decreases markers.len(),
{
    if markers.len() == 0 || present.len() == 0 {
    } else if present[0] {
        assert(markers[0] == first_marker(markers, present)->0);
    } else {
        lemma_first_marker_contains(markers.skip(1), present.skip(1));
        let x = first_marker(markers, present)->0;
        let k = choose|k: int| 0 <= k < markers.skip(1).len() && markers.skip(1)[k] == x;
        assert(markers[k + 1] == x);
    }
}

/// Marker detection is correct on unambiguous directories: when exactly
/// one configured marker is present, detection returns that marker.
pub proof fn lemma_detect_single_marker(markers: Seq<Seq<char>>, present: Seq<bool>, w: int)
    requires
        markers.len() == present.len(),
        0 <= w < present.len(),
        present[w],
        forall|j: int| 0 <= j < present.len() && j != w ==> !(#[trigger] present[j]),
    ensures
        first_marker(markers, present) == Some(markers[w]),
    decreases w,
{
    if w == 0 {
    } else {
        assert(!present[0]);
        assert(present.skip(1)[w - 1]);
        assert forall|j: int| 0 <= j < present.skip(1).len() && j != w - 1 implies !(
        #[trigger] present.skip(1)[j]) by {
            assert(present.skip(1)[j] == present[j + 1]);
        }
        lemma_detect_single_marker(markers.skip(1), present.skip(1), w - 1);
        assert(markers.skip(1)[w - 1] == markers[w]);
    }
}

/// Marker detection is correct on empty directories: when no configured
/// marker is present, detection returns nothing.
pub proof fn lemma_detect_no_marker(markers: Seq<Seq<char>>, present: Seq<bool>)
    requires
        markers.len() == present.len(),
        forall|j: int| 0 <= j < present.len() ==> !(#[trigger] present[j]),
    ensures
        first_marker(markers, present) is None,
    decreases markers.len(),
{
    if markers.len() == 0 {
    } else {
        assert(!present[0]);
        assert forall|j: int| 0 <= j < present.skip(1).len() implies !(
        #[trigger] present.skip(1)[j]) by {
            assert(present.skip(1)[j] == present[j + 1]);
        }
        lemma_detect_no_marker(markers.skip(1), present.skip(1));
    }
}

/// Picks the first marker whose presence flag is set, walking the
/// configured marker list in order.
pub fn first_present_marker(markers: &Vec<String>, present: &Vec<bool>) -> (r: Option<String>)
    requires
        markers@.len() == present@.len(),
    ensures
        r.deep_view() == first_marker(markers.deep_view(), present.deep_view()),
{
    let mut i: usize = 0;
    proof {
        assert(markers.deep_view().skip(0) =~~= markers.deep_view());
        assert(present.deep_view().skip(0) =~= present.deep_view());
    }
    while i < markers.len()
        invariant
            i <= markers@.len(),
            markers@.len() == present@.len(),
            first_marker(markers.deep_view(), present.deep_view()) == first_marker(
                markers.deep_view().skip(i as int),
                present.deep_view().skip(i as int),
            ),
        decreases markers@.len() - i,
    {
        proof {
            assert(markers.deep_view().skip(i as int)[0] == markers.deep_view()[i as int]);
            assert(present.deep_view().skip(i as int)[0] == present.deep_view()[i as int]);
            assert(present.deep_view()[i as int] == present[i as int]);
        }
        if present[i] {
            let r = Some(markers[i].clone());
            proof {
                assert(markers.deep_view()[i as int] == markers[i as int]@);
            }
            return r;
        }
        proof {
            assert(markers.deep_view().skip(i as int).skip(1) =~~= markers.deep_view().skip(
                i as int + 1,
            ));
            assert(present.deep_view().skip(i as int).skip(1) =~= present.deep_view().skip(
                i as int + 1,
            ));
        }
        i = i + 1;
    }
    None
}

/// Mathematical model of a [`Scanner`].
pub struct ScannerModel {
    pub markers: Seq<Seq<char>>,
    pub exclude_dirs: Seq<Seq<char>>,
    pub max_depth: nat,
}

/// The scanner: the marker names tested in order, the directory names
/// never descended into, and the traversal depth bound.
#[derive(Debug)]
pub struct Scanner {
    pub markers: Vec<String>,
    pub exclude_dirs: Vec<String>,
    pub max_depth: usize,
}

impl View for Scanner {
    type V = ScannerModel;

    open spec fn view(&self) -> ScannerModel {
        ScannerModel {
            markers: self.markers.deep_view(),
            exclude_dirs: self.exclude_dirs.deep_view(),
            max_depth: self.max_depth as nat,
        }
    }
}

impl Scanner {
    /// Builds a scanner from a configuration, taking its markers in their
    /// configured order.
    pub fn from_config(config: &Config) -> (r: Self)
        ensures
            r@.markers == config@.project_markers,
            r@.exclude_dirs == config@.exclude_dirs,
            r@.max_depth == config@.max_depth,
    {
        Scanner {
            markers: clone_strings(&config.project_markers),
            exclude_dirs: clone_strings(&config.exclude_dirs),
            max_depth: config.max_depth,
        }
    }

    /// Tests `dir` against the configured markers in order and returns the
    /// first whose path exists.  Whatever the filesystem answers, a
    /// returned marker is always one of the configured markers.
    pub fn detect_marker(&self, dir: &String) -> (r: Option<String>)
        ensures
            r is Some ==> self@.markers.contains(r.deep_view()->0),
    {
        let mut present: Vec<bool> = Vec::new();
        let mut i: usize = 0;
        while i < self.markers.len()
            invariant
                present@.len() == i,
                i <= self.markers@.len(),
            decreases self.markers@.len() - i,
        {
            let marker_path = join_one(dir.as_str(), self.markers[i].as_str());
            present.push(path_exists(&marker_path));
            i = i + 1;
        }
        let r = first_present_marker(&self.markers, &present);
        proof {
            if r is Some {
                lemma_first_marker_contains(self.markers.deep_view(), present.deep_view());
                assert(r.deep_view()->0 == first_marker(
                    self.markers.deep_view(),
                    present.deep_view(),
                )->0);
            }
        }
        r
    }
}

/// The display name of a walked directory: the root's own base name for
/// the root, otherwise the last path component.
pub open spec fn entry_name(root: Seq<char>, components: Seq<Seq<char>>) -> Seq<char> {
    if components.len() == 0 {
        base_name_of(root)
    } else {
        components.last()
    }
}

/// Whether a walked entry is reported as a project, given the markers
/// found beside it and the projects detected so far in the same root.
/// The entry must be a directory within the depth bound; neither its own
/// name, any of its path components, nor the root's name may be excluded;
/// a marker must be present; and the entry may stand in no ancestor
/// relation, in either direction, with an already detected directory —
/// whatever order the walk delivered them in, the reported directories
/// never nest.
pub open spec fn entry_accepted(
    root: Seq<char>,
    e: WalkEntryModel,
    f: Option<Seq<char>>,
    excludes: Seq<Seq<char>>,
    max_depth: nat,
    detected: Seq<Seq<Seq<char>>>,
) -> bool {
    &&& e.is_dir
    &&& e.components.len() <= max_depth
    &&& !excludes.contains(base_name_of(root))
    &&& (forall|k: int| 0 <= k < e.components.len() ==> !excludes.contains(#[trigger] e.components[k]))
    &&& f is Some
    &&& (forall|k: int| 0 <= k < detected.len() ==> !strict_prefix_of(#[trigger] detected[k], e.components))
    &&& (forall|k: int| 0 <= k < detected.len() ==> !strict_prefix_of(e.components, #[trigger] detected[k]))
}

/// The project reported for an accepted entry.
pub open spec fn project_for(
    root: Seq<char>,
    e: WalkEntryModel,
    f: Option<Seq<char>>,
) -> ProjectModel {
    ProjectModel {
        path: joined_path(root, e.components),
        name: entry_name(root, e.components),
        marker: f->0,
    }
}

/// The projects selected from the first `i` walked entries, together with
/// the component lists of the directories detected so far.
pub open spec fn selection(
    root: Seq<char>,
    entries: Seq<WalkEntryModel>,
    found: Seq<Option<Seq<char>>>,
    excludes: Seq<Seq<char>>,
    max_depth: nat,
    i: int,
) -> (Seq<ProjectModel>, Seq<Seq<Seq<char>>>)
    decreases i,
{
    if i <= 0 {
        (Seq::empty(), Seq::empty())
    } else {
        let prev = selection(root, entries, found, excludes, max_depth, i - 1);
        if entry_accepted(root, entries[i - 1], found[i - 1], excludes, max_depth, prev.1) {
            (
                prev.0.push(project_for(root, entries[i - 1], found[i - 1])),
                prev.1.push(entries[i - 1].components),
            )
        } else {
            prev
        }
    }
}

/// Whether any component is one of the excluded names.
fn any_component_in(comps: &Vec<String>, excludes: &Vec<String>) -> (r: bool)
    ensures
        r == exists|k: int|
            0 <= k < comps.deep_view().len() && excludes.deep_view().contains(
                #[trigger] comps.deep_view()[k],
            ),
{
    let mut i: usize = 0;
    while i < comps.len()
        invariant
            i <= comps@.len(),
            forall|k: int|
                0 <= k < i ==> !excludes.deep_view().contains(#[trigger] comps.deep_view()[k]),
        decreases comps@.len() - i,
    {
        proof {
            assert(comps.deep_view()[i as int] == comps[i as int]@);
        }
        if contains_string(excludes, &comps[i]) {
            return true;
        }
        i = i + 1;
    }
    false
}

/// Whether any already detected directory is a strict ancestor of the
/// given component path.
fn any_strict_prefix(detected: &Vec<Vec<String>>, comps: &Vec<String>) -> (r: bool)
    ensures
        r == exists|k: int|
            0 <= k < detected.deep_view().len() && strict_prefix_of(
                #[trigger] detected.deep_view()[k],
                comps.deep_view(),
            ),
{
    let mut i: usize = 0;
    while i < detected.len()
        invariant
            i <= detected@.len(),
            forall|k: int|
                0 <= k < i ==> !strict_prefix_of(
                    #[trigger] detected.deep_view()[k],
                    comps.deep_view(),
                ),
        decreases detected@.len() - i,
    {
        proof {
            assert(detected.deep_view()[i as int] == detected[i as int].deep_view());
        }
        if is_strict_prefix(&detected[i], comps) {
            return true;
        }
        i = i + 1;
    }
    false
}

/// Whether the given component path is a strict ancestor of any already
/// detected directory.
fn any_strict_extension(detected: &Vec<Vec<String>>, comps: &Vec<String>) -> (r: bool)
    ensures
        r == exists|k: int|
            0 <= k < detected.deep_view().len() && strict_prefix_of(
                comps.deep_view(),
                #[trigger] detected.deep_view()[k],
            ),
{
    let mut i: usize = 0;
    while i < detected.len()
        invariant
            i <= detected@.len(),
            forall|k: int|
                0 <= k < i ==> !strict_prefix_of(
                    comps.deep_view(),
                    #[trigger] detected.deep_view()[k],
                ),
        decreases detected@.len() - i,
    {
        proof {
            assert(detected.deep_view()[i as int] == detected[i as int].deep_view());
        }
        if is_strict_prefix(comps, &detected[i]) {
            return true;
        }
        i = i + 1;
    }
    false
}

/// Reduces one root's walked entries and per-directory marker findings to
/// the root's project list: excluded and too-deep directories are skipped,
/// and once a directory is reported no descendant or ancestor of it is.
pub fn select_projects(
    root: &String,
    entries: &Vec<WalkEntry>,
    found: &Vec<Option<String>>,
    exclude_dirs: &Vec<String>,
    max_depth: usize,
) -> (r: Vec<Project>)
    requires
        entries@.len() == found@.len(),
    ensures
        r.deep_view() == selection(
            root@,
            entries.deep_view(),
            found.deep_view(),
            exclude_dirs.deep_view(),
            max_depth as nat,
            entries@.len() as int,
        ).0,
{
    let ghost es = entries.deep_view();
    let ghost fs = found.deep_view();
    let ghost excl = exclude_dirs.deep_view();
    let root_name = base_name(root.as_str());
    let root_excluded = contains_string(exclude_dirs, &root_name);
    let mut out: Vec<Project> = Vec::new();
    let mut detected: Vec<Vec<String>> = Vec::new();
    proof {
        assert(out.deep_view() =~~= Seq::<ProjectModel>::empty());
        assert(detected.deep_view() =~~= Seq::<Seq<Seq<char>>>::empty());
    }
    let mut i: usize = 0;
    while i < entries.len()
        invariant
            i <= entries@.len(),
            entries@.len() == found@.len(),
            es == entries.deep_view(),
            fs == found.deep_view(),
            excl == exclude_dirs.deep_view(),
            root_name@ == base_name_of(root@),
            root_excluded == excl.contains(base_name_of(root@)),
            out.deep_view() == selection(root@, es, fs, excl, max_depth as nat, i as int).0,
            detected.deep_view() == selection(root@, es, fs, excl, max_depth as nat, i as int).1,
        decreases entries@.len() - i,
    {
        let ghost prev = selection(root@, es, fs, excl, max_depth as nat, i as int);
        let e = &entries[i];
        proof {
            assert(es[i as int] == entries[i as int]@);
            assert(fs[i as int] == found[i as int].deep_view());
        }
        let mut ok: bool = e.is_dir && e.components.len() <= max_depth && !root_excluded;
        if ok {
            ok = !any_component_in(&e.components, exclude_dirs);
        }
        if ok {
            ok = !any_strict_prefix(&detected, &e.components);
        }
        if ok {
            ok = !any_strict_extension(&detected, &e.components);
        }
        if ok {
            match &found[i] {
                Some(m) => {
                    proof {
                        assert(entry_accepted(
                            root@,
                            es[i as int],
                            fs[i as int],
                            excl,
                            max_depth as nat,
                            prev.1,
                        ));
                    }
                    let name = if e.components.len() == 0 {
                        root_name.clone()
                    } else {
                        e.components[e.components.len() - 1].clone()
                    };
                    let path = join_path(root.as_str(), &e.components);
                    out.push(Project { path, name, marker: m.clone() });
                    detected.push(clone_strings(&e.components));
                    proof {
                        assert(e.components.deep_view() =~~= es[i as int].components);
                        assert(name@ == entry_name(root@, es[i as int].components));
                        assert(out.deep_view() =~~= prev.0.push(
                            project_for(root@, es[i as int], fs[i as int]),
                        ));
                        assert(detected.deep_view() =~~= prev.1.push(es[i as int].components));
                    }
                },
                None => {
                    proof {
                        assert(fs[i as int] is None);
                        assert(!entry_accepted(
                            root@,
                            es[i as int],
                            fs[i as int],
                            excl,
                            max_depth as nat,
                            prev.1,
                        ));
                    }
                },
            }
        } else {
            proof {
                assert(!entry_accepted(
                    root@,
                    es[i as int],
                    fs[i as int],
                    excl,
                    max_depth as nat,
                    prev.1,
                ));
            }
        }
        i = i + 1;
    }
    out
}

/// What holds of one reported project's directory, witnessed by its path
/// components below the root.
pub open spec fn project_comps_ok(
    m: ScannerModel,
    root: Seq<char>,
    p: ProjectModel,
    comps: Seq<Seq<char>>,
) -> bool {
    &&& p.path == joined_path(root, comps)
    &&& p.name == entry_name(root, comps)
    &&& p.name == base_name_of(p.path)
    &&& comps.len() <= m.max_depth
    &&& !m.exclude_dirs.contains(base_name_of(root))
    &&& (forall|k: int| 0 <= k < comps.len() ==> !m.exclude_dirs.contains(#[trigger] comps[k]))
    &&& comps_wf(comps)
}

/// What holds of any project a scan reports: its marker is configured and
/// its directory lies under a root at an admissible depth, outside every
/// excluded name.
pub open spec fn project_ok(m: ScannerModel, root: Seq<char>, p: ProjectModel) -> bool {
    &&& m.markers.contains(p.marker)
    &&& exists|comps: Seq<Seq<char>>| #[trigger] project_comps_ok(m, root, p, comps)
}

/// What holds of a whole per-root result, witnessed by one component list
/// per project: every project is admissible, and no reported directory is
/// an ancestor of another — neither by component lists nor as path
/// strings — nested detections are suppressed.
pub open spec fn root_result_witness(
    m: ScannerModel,
    root: Seq<char>,
    r: Seq<ProjectModel>,
    cs: Seq<Seq<Seq<char>>>,
) -> bool {
    &&& cs.len() == r.len()
    &&& (forall|k: int|
        0 <= k < r.len() ==> project_comps_ok(m, root, #[trigger] r[k], cs[k]))
    &&& (forall|k: int| 0 <= k < r.len() ==> m.markers.contains((#[trigger] r[k]).marker))
    &&& (forall|a: int, b: int|
        0 <= a < r.len() && 0 <= b < r.len() && a != b ==> !strict_prefix_of(
            #[trigger] cs[a],
            #[trigger] cs[b],
        ))
    &&& (forall|a: int, b: int|
        0 <= a < r.len() && 0 <= b < r.len() && a != b ==> !path_strict_ancestor(
            (#[trigger] r[a]).path,
            (#[trigger] r[b]).path,
        ))
}

/// What a single root contributes, whatever the filesystem held.
pub open spec fn root_result_ok(m: ScannerModel, root: Seq<char>, r: Seq<ProjectModel>) -> bool {
    exists|cs: Seq<Seq<Seq<char>>>| #[trigger] root_result_witness(m, root, r, cs)
}

/// Nested suppression, and the other per-root guarantees, hold of the
/// pure selection, in whatever order the entries were walked: over
/// well-formed entries with marker findings drawn from the configured
/// markers, every selected project is admissible and no two selected
/// directories stand in an ancestor relation — the selected component
/// lists witness it.
pub proof fn lemma_selection_ok(
    m: ScannerModel,
    root: Seq<char>,
    es: Seq<WalkEntryModel>,
    fs: Seq<Option<Seq<char>>>,
    i: int,
)
    requires
        0 <= i <= es.len(),
        es.len() == fs.len(),
        forall|j: int| 0 <= j < es.len() ==> comps_wf((#[trigger] es[j]).components),
        forall|j: int|
            0 <= j < fs.len() ==> ((#[trigger] fs[j]) is Some ==> m.markers.contains(fs[j]->0)),
    ensures
        ({
            let s = selection(root, es, fs, m.exclude_dirs, m.max_depth, i);
            &&& s.0.len() == s.1.len()
            &&& root_result_witness(m, root, s.0, s.1)
        }),
    decreases i,
{
    if i <= 0 {
    } else {
        lemma_selection_ok(m, root, es, fs, i - 1);
        let prev = selection(root, es, fs, m.exclude_dirs, m.max_depth, i - 1);
        let s = selection(root, es, fs, m.exclude_dirs, m.max_depth, i);
        if entry_accepted(root, es[i - 1], fs[i - 1], m.exclude_dirs, m.max_depth, prev.1) {
            let n = prev.0.len() as int;
            assert(s.0[n] == project_for(root, es[i - 1], fs[i - 1]));
            assert(s.1[n] == es[i - 1].components);
            assert forall|a: int, b: int|
                0 <= a < s.0.len() && 0 <= b < s.0.len() && a != b implies !strict_prefix_of(
                #[trigger] s.1[a],
                #[trigger] s.1[b],
            ) by {
                if a < n {
                    assert(s.1[a] == prev.1[a]);
                }
                if b < n {
                    assert(s.1[b] == prev.1[b]);
                }
            }
            assert(project_comps_ok(m, root, s.0[n], s.1[n])) by {
                let comps = es[i - 1].components;
                if comps.len() > 0 {
                    lemma_joined_base_name(root, comps);
                }
            }
            assert forall|k: int| 0 <= k < s.0.len() implies project_comps_ok(
                m,
                root,
                #[trigger] s.0[k],
                s.1[k],
            ) by {
                if k < n {
                    assert(s.0[k] == prev.0[k]);
                    assert(s.1[k] == prev.1[k]);
                }
            }
            assert forall|a: int, b: int|
                0 <= a < s.0.len() && 0 <= b < s.0.len() && a != b implies !path_strict_ancestor(
                (#[trigger] s.0[a]).path,
                (#[trigger] s.0[b]).path,
            ) by {
                if path_strict_ancestor(s.0[a].path, s.0[b].path) {
                    assert(project_comps_ok(m, root, s.0[a], s.1[a]));
                    assert(project_comps_ok(m, root, s.0[b], s.1[b]));
                    lemma_path_ancestor_is_component_prefix(root, s.1[a], s.1[b]);
                }
            }
        }
    }
}

impl Scanner {
    /// Scans one root: walks it once, runs marker detection on each
    /// directory, and reduces the findings to the root's project list.  A
    /// missing or unreadable root contributes nothing.  Whatever the
    /// filesystem answered, the result satisfies the per-root guarantees:
    /// admissible directories only, and no project nested inside another.
    pub fn scan_root(&self, root: &String) -> (r: Vec<Project>)
        ensures
            root_result_ok(self@, root@, r.deep_view()),
    {
        let entries = walk_root_entries(root, self.max_depth);
        let mut found: Vec<Option<String>> = Vec::new();
        let mut i: usize = 0;
        while i < entries.len()
            invariant
                found@.len() == i,
                i <= entries@.len(),
                forall|j: int|
                    0 <= j < i ==> ((#[trigger] found.deep_view()[j]) is Some
                        ==> self@.markers.contains(found.deep_view()[j]->0)),
            decreases entries@.len() - i,
        {
            let f: Option<String> = if entries[i].is_dir {
                let dir = join_path(root.as_str(), &entries[i].components);
                self.detect_marker(&dir)
            } else {
                None
            };
            let ghost fd_old = found.deep_view();
            found.push(f);
            proof {
                assert(found.deep_view() =~~= fd_old.push(f.deep_view()));
            }
            i = i + 1;
        }
        let r = select_projects(root, &entries, &found, &self.exclude_dirs, self.max_depth);
        proof {
            lemma_selection_ok(
                self@,
                root@,
                entries.deep_view(),
                found.deep_view(),
                entries@.len() as int,
            );
            let s = selection(
                root@,
                entries.deep_view(),
                found.deep_view(),
                self@.exclude_dirs,
                self@.max_depth,
                entries@.len() as int,
            );
            assert(root_result_witness(self@, root@, r.deep_view(), s.1));
        }
        r
    }
}

/// Relies on rayon's parallel iterators: `scan_root` runs once per root
/// across a worker pool, and the per-root results are collected in root
/// order.  Each element therefore satisfies `scan_root`'s guarantee for
/// its root.
#[verifier::external_body]
fn scan_roots_parallel(scanner: &Scanner, roots: &Vec<String>) -> (r: Vec<Vec<Project>>)
    ensures
        r.deep_view().len() == roots.deep_view().len(),
        forall|i: int|
            0 <= i < r.deep_view().len() ==> root_result_ok(
                scanner@,
                roots.deep_view()[i],
                #[trigger] r.deep_view()[i],
            ),
{
    roots.par_iter().map(|root| scanner.scan_root(root)).collect()
}

impl Scanner {
    /// Scans every configured root concurrently and merges the results:
    /// paths already admitted are dropped, and the survivors are returned
    /// sorted by case-insensitive name.  Missing roots and unreadable
    /// directories cost results, never the scan.
    pub fn scan(&self, root_paths: &Vec<String>) -> (r: Vec<Project>)
        ensures
            sorted_by_name(r.deep_view()),
            paths_distinct(r.deep_view()),
            forall|k: int|
                0 <= k < r.deep_view().len() ==> exists|i: int|
                    0 <= i < root_paths.deep_view().len() && project_ok(
                        self@,
                        root_paths.deep_view()[i],
                        #[trigger] r.deep_view()[k],
                    ),
    {
        let per_root = scan_roots_parallel(self, root_paths);
        let merged_list = merge_results(&per_root);
        let r = sort_by_name(&merged_list);
        proof {
            broadcast use vstd::seq_lib::group_to_multiset_ensures;

            let pr = per_root.deep_view();
            let flat = pr.flatten();
            let ml = merged_list.deep_view();
            let rv = r.deep_view();
            lemma_dedup_distinct(flat, flat.len() as int);
            lemma_permutation_distinct(ml, rv);
            lemma_dedup_member(flat, flat.len() as int);
            assert forall|k: int| 0 <= k < rv.len() implies exists|i: int|
                0 <= i < root_paths.deep_view().len() && project_ok(
                    self@,
                    root_paths.deep_view()[i],
                    #[trigger] rv[k],
                ) by {
                assert(rv.contains(rv[k]));
                assert(rv.to_multiset().count(rv[k]) > 0);
                assert(ml.to_multiset().count(rv[k]) > 0);
                assert(ml.contains(rv[k]));
                let mk = choose|t: int| 0 <= t < ml.len() && ml[t] == rv[k];
                assert(flat.contains(ml[mk]));
                lemma_flatten_member(pr, rv[k]);
                let li = choose|i: int| 0 <= i < pr.len() && (#[trigger] pr[i]).contains(rv[k]);
                assert(root_result_ok(self@, root_paths.deep_view()[li], pr[li]));
                let cs = choose|cs: Seq<Seq<Seq<char>>>|
                    #[trigger] root_result_witness(self@, root_paths.deep_view()[li], pr[li], cs);
                let pk = choose|t: int| 0 <= t < pr[li].len() && pr[li][t] == rv[k];
                assert(project_comps_ok(self@, root_paths.deep_view()[li], pr[li][pk], cs[pk]));
                assert(project_ok(self@, root_paths.deep_view()[li], rv[k]));
            }
        }
        r
    }
}

/// Whether a project satisfies every term of a query: each term must be a
/// substring of the case-folded name or of the case-folded path.
pub open spec fn project_matches(p: ProjectModel, terms: Seq<Seq<char>>) -> bool {
    forall|t: int|
        0 <= t < terms.len() ==> is_substring_of(#[trigger] terms[t], lower_of(p.name))
            || is_substring_of(terms[t], lower_of(p.path))
}

/// The first `i` projects that match the query, in order.
pub open spec fn filtered(projects: Seq<ProjectModel>, query: Seq<char>, i: int) -> Seq<
    ProjectModel,
>
    decreases i,
{
    if i <= 0 {
        Seq::empty()
    } else {
        let prev = filtered(projects, query, i - 1);
        if project_matches(projects[i - 1], split_terms(lower_of(query))) {
            prev.push(projects[i - 1])
        } else {
            prev
        }
    }
}

/// Whether the project matches every term.
fn matches_all_terms(p: &Project, terms: &Vec<String>) -> (r: bool)
    ensures
        r == project_matches(p@, terms.deep_view()),
{
    let lname = lowercase(p.name.as_str());
    let lpath = lowercase(p.path.as_str());
    let mut t: usize = 0;
    while t < terms.len()
        invariant
            t <= terms@.len(),
            lname@ == lower_of(p@.name),
            lpath@ == lower_of(p@.path),
            forall|s: int|
                0 <= s < t ==> is_substring_of(#[trigger] terms.deep_view()[s], lower_of(p@.name))
                    || is_substring_of(terms.deep_view()[s], lower_of(p@.path)),
        decreases terms@.len() - t,
    {
        proof {
            assert(terms.deep_view()[t as int] == terms[t as int]@);
        }
        let in_name = contains_sub(lname.as_str(), terms[t].as_str());
        if !in_name {
            let in_path = contains_sub(lpath.as_str(), terms[t].as_str());
            if !in_path {
                return false;
            }
        }
        t = t + 1;
    }
    true
}

/// Filters a project list by a query string: an empty query keeps every
/// project; otherwise the query is split on whitespace and a project is
/// kept iff every term occurs, case-insensitively, in its name or its
/// path.  This is a pure convenience filter, independent of scanning.
pub fn filter_projects<'a>(projects: &'a Vec<Project>, query: &str) -> (r: Vec<&'a Project>)
    ensures
        query@.len() == 0 ==> r.deep_view() == projects.deep_view(),
        query@.len() > 0 ==> r.deep_view() == filtered(
            projects.deep_view(),
            query@,
            projects@.len() as int,
        ),
{
    if query.is_empty() {
        let mut all: Vec<&'a Project> = Vec::new();
        let mut i: usize = 0;
        while i < projects.len()
            invariant
                i <= projects@.len(),
                all@.len() == i,
                forall|j: int| 0 <= j < i ==> all.deep_view()[j] == projects.deep_view()[j],
            decreases projects@.len() - i,
        {
            all.push(&projects[i]);
            i = i + 1;
        }
        proof {
            assert(all.deep_view() =~~= projects.deep_view());
        }
        return all;
    }
    let lquery = lowercase(query);
    let terms = split_spaces(lquery.as_str());
    let mut out: Vec<&'a Project> = Vec::new();
    proof {
        assert(out.deep_view() =~~= Seq::<ProjectModel>::empty());
    }
    let mut i: usize = 0;
    while i < projects.len()
        invariant
            i <= projects@.len(),
            terms.deep_view() == split_terms(lower_of(query@)),
            out.deep_view() == filtered(projects.deep_view(), query@, i as int),
        decreases projects@.len() - i,
    {
        proof {
            assert(projects.deep_view()[i as int] == projects[i as int]@);
        }
        if matches_all_terms(&projects[i], &terms) {
            out.push(&projects[i]);
            proof {
                assert(out.deep_view() =~~= filtered(
                    projects.deep_view(),
                    query@,
                    i as int,
                ).push(projects.deep_view()[i as int]));
            }
        }
        i = i + 1;
    }
    out
}

} // verus!
