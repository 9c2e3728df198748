//! The merge step of a scan: per-root result lists are flattened, paths
//! already admitted are dropped, and the survivors are ordered by
//! case-insensitive name.

use vstd::prelude::*;
use vstd::seq_lib::*;
use vstd::seq_lib::lemma_multiset_commutative;

use crate::project::Project;
use crate::project::ProjectModel;
use crate::text::lex_le;
use crate::text::lex_le_exec;
use crate::text::lemma_lex_le_total;
use crate::text::lemma_lex_le_trans;
use crate::text::lower_of;
use crate::text::lowercase;

verus! {

/// Whether some project in `s` has the given path.
pub open spec fn has_path(s: Seq<ProjectModel>, path: Seq<char>) -> bool {
    exists|k: int| 0 <= k < s.len() && s[k].path == path
}

/// The first `i` elements of `s` with every repeated path dropped: the
/// first occurrence of each path wins.
pub open spec fn dedup_by_path(s: Seq<ProjectModel>, i: int) -> Seq<ProjectModel>
    decreases i,
{
    if i <= 0 {
        Seq::empty()
    } else {
        let prev = dedup_by_path(s, i - 1);
        if has_path(prev, s[i - 1].path) {
            prev
        } else {
            prev.push(s[i - 1])
        }
    }
}

/// The merged contribution of a list of per-root result lists: their
/// concatenation, first occurrence of each path kept.
pub open spec fn merged(lists: Seq<Seq<ProjectModel>>) -> Seq<ProjectModel> {
    dedup_by_path(lists.flatten(), lists.flatten().len() as int)
}

/// Whether some project in `v` has the given path.
pub fn contains_path(v: &Vec<Project>, path: &String) -> (r: bool)
    ensures
        r == has_path(v.deep_view(), path@),
{
    let mut i: usize = 0;
    while i < v.len()
        invariant
            i <= v@.len(),
            forall|k: int| 0 <= k < i ==> v.deep_view()[k].path != path@,
        decreases v@.len() - i,
    {
        proof {
            assert(v.deep_view()[i as int] == v[i as int]@);
        }
        if v[i].path == *path {
            return true;
        }
        i = i + 1;
    }
    false
}

/// Merges per-root result lists into one list.  Lists are taken in order,
/// projects in list order; a project whose path was already admitted is
/// dropped, so exact duplicates — the same directory reached from two
/// roots — appear once.
pub fn merge_results(lists: &Vec<Vec<Project>>) -> (r: Vec<Project>)
    ensures
        r.deep_view() == merged(lists.deep_view()),
{
    let ghost all = lists.deep_view().flatten();
    let mut out: Vec<Project> = Vec::new();
    proof {
        assert(out.deep_view() =~~= Seq::<ProjectModel>::empty());
        assert(lists.deep_view().take(0) =~~= Seq::<Seq<ProjectModel>>::empty());
        Seq::<Seq<ProjectModel>>::empty().lemma_flatten_and_flatten_alt_are_equivalent();
        assert(lists.deep_view().take(0).flatten_alt() =~~= Seq::<ProjectModel>::empty());
    }
    let mut li: usize = 0;
    while li < lists.len()
        invariant
            li <= lists@.len(),
            all == lists.deep_view().flatten(),
            lists.deep_view().take(li as int).flatten_alt() =~= all.take(
                lists.deep_view().take(li as int).flatten_alt().len() as int,
            ),
            lists.deep_view().take(li as int).flatten_alt().len() <= all.len(),
            out.deep_view() == dedup_by_path(
                all,
                lists.deep_view().take(li as int).flatten_alt().len() as int,
            ),
        decreases lists@.len() - li,
    {
        let ghost done = lists.deep_view().take(li as int).flatten_alt();
        let ghost cur = lists.deep_view()[li as int];
        proof {
            assert(cur == lists[li as int].deep_view());
            assert(lists.deep_view().take(li as int + 1).drop_last() =~~= lists.deep_view().take(
                li as int,
            ));
            assert(lists.deep_view().take(li as int + 1).flatten_alt() =~~= done + cur);
            lemma_flatten_alt_prefix(lists.deep_view(), li as int + 1);
            assert((done + cur).len() == done.len() + cur.len());
            assert(done + cur =~= all.take((done.len() + cur.len()) as int));
            assert(done.len() + cur.len() <= all.len());
        }
        let inner = &lists[li];
        let mut pi: usize = 0;
        while pi < inner.len()
            invariant
                pi <= cur.len(),
                li < lists@.len(),
                all == lists.deep_view().flatten(),
                done == lists.deep_view().take(li as int).flatten_alt(),
                cur == lists.deep_view()[li as int],
                cur == inner.deep_view(),
                done + cur =~= all.take((done.len() + cur.len()) as int),
                done.len() + cur.len() <= all.len(),
                out.deep_view() == dedup_by_path(all, done.len() + pi as int),
            decreases cur.len() - pi,
        {
            proof {
                assert(all[done.len() + pi as int] == (done + cur)[done.len() + pi as int]);
                assert((done + cur)[done.len() + pi as int] == cur[pi as int]);
                assert(cur[pi as int] == inner[pi as int]@);
            }
            let p = &inner[pi];
            if !contains_path(&out, &p.path) {
                out.push(p.clone());
                proof {
                    assert(out.deep_view() =~~= dedup_by_path(all, done.len() + pi as int).push(
                        all[done.len() + pi as int],
                    ));
                }
            }
            pi = pi + 1;
        }
        proof {
            assert(lists.deep_view().take(li as int + 1).drop_last() =~~= lists.deep_view().take(
                li as int,
            ));
            assert(lists.deep_view().take(li as int + 1).flatten_alt() =~~= done + cur);
            assert((done + cur).len() == done.len() + cur.len());
        }
        li = li + 1;
    }
    proof {
        assert(lists.deep_view().take(lists.deep_view().len() as int) =~~= lists.deep_view());
        lists.deep_view().lemma_flatten_and_flatten_alt_are_equivalent();
        assert(lists.deep_view().flatten_alt() =~= all.take(
            lists.deep_view().flatten_alt().len() as int,
        ));
        assert(all.take(all.len() as int) =~= all);
    }
    out
}

/// Whether no two projects in the list share a path.
pub open spec fn paths_distinct(s: Seq<ProjectModel>) -> bool {
    forall|i: int, j: int|
        0 <= i < j < s.len() ==> (#[trigger] s[i]).path != (#[trigger] s[j]).path
}

/// The merge step never admits a path twice.
pub proof fn lemma_dedup_distinct(s: Seq<ProjectModel>, i: int)
    ensures
        paths_distinct(dedup_by_path(s, i)),
    decreases i,
{
    if i <= 0 {
    } else {
        lemma_dedup_distinct(s, i - 1);
        let prev = dedup_by_path(s, i - 1);
        let d = dedup_by_path(s, i);
        if !has_path(prev, s[i - 1].path) {
            assert forall|a: int, b: int| 0 <= a < b < d.len() implies (#[trigger] d[a]).path != (
            #[trigger] d[b]).path by {
                if b == d.len() - 1 {
                    assert(d[a] == prev[a]);
                    if prev[a].path == s[i - 1].path {
                        assert(has_path(prev, s[i - 1].path));
                    }
                } else {
                    assert(d[a] == prev[a]);
                    assert(d[b] == prev[b]);
                }
            }
        }
    }
}

/// Everything the merge step keeps came from the concatenated input.
pub proof fn lemma_dedup_member(s: Seq<ProjectModel>, i: int)
    requires
        i <= s.len(),
    ensures
        forall|k: int|
            0 <= k < dedup_by_path(s, i).len() ==> s.contains(#[trigger] dedup_by_path(s, i)[k]),
    decreases i,
{
    if i <= 0 {
    } else {
        lemma_dedup_member(s, i - 1);
        let prev = dedup_by_path(s, i - 1);
        let d = dedup_by_path(s, i);
        assert forall|k: int| 0 <= k < d.len() implies s.contains(#[trigger] d[k]) by {
            if k < prev.len() {
                assert(d[k] == prev[k]);
            } else {
                assert(d[k] == s[i - 1]);
            }
        }
    }
}

/// Every element of a flattened list of lists sits in one of the lists.
pub proof fn lemma_flatten_member(lists: Seq<Seq<ProjectModel>>, x: ProjectModel)
    requires
        lists.flatten().contains(x),
    ensures
        exists|i: int| 0 <= i < lists.len() && (#[trigger] lists[i]).contains(x),
    decreases lists.len(),
{
    if lists.len() == 0 {
    } else {
        let first = lists.first();
        let rest = lists.drop_first();
        let k = choose|k: int| 0 <= k < lists.flatten().len() && lists.flatten()[k] == x;
        if k < first.len() {
            assert(lists.flatten()[k] == first[k]);
            assert(lists[0].contains(x));
        } else {
            assert(lists.flatten()[k] == rest.flatten()[k - first.len()]);
            assert(rest.flatten().contains(x));
            lemma_flatten_member(rest, x);
            let i = choose|i: int| 0 <= i < rest.len() && (#[trigger] rest[i]).contains(x);
            assert(lists[i + 1] == rest[i]);
            assert(lists[i + 1].contains(x));
        }
    }
}

/// A permutation of a list whose paths are pairwise distinct has pairwise
/// distinct paths itself.
pub proof fn lemma_permutation_distinct(a: Seq<ProjectModel>, b: Seq<ProjectModel>)
    requires
        a.to_multiset() == b.to_multiset(),
        paths_distinct(a),
    ensures
        paths_distinct(b),
{
    broadcast use vstd::seq_lib::group_to_multiset_ensures;

    assert forall|i: int, j: int| 0 <= i < j < b.len() implies (#[trigger] b[i]).path != (
    #[trigger] b[j]).path by {
        if b[i].path == b[j].path {
            if b[i] == b[j] {
                let br = b.remove(j);
                assert(br.to_multiset() =~= b.to_multiset().remove(b[j]));
                assert(br[i] == b[i]);
                assert(br.contains(b[i]));
                assert(br.to_multiset().count(b[i]) > 0);
                assert(b.to_multiset().count(b[i]) >= 2);
                assert(a.to_multiset().count(b[i]) >= 2);
                assert(a.contains(b[i]));
                let i0 = choose|k: int| 0 <= k < a.len() && a[k] == b[i];
                let ar = a.remove(i0);
                assert(ar.to_multiset() =~= a.to_multiset().remove(a[i0]));
                assert(ar.to_multiset().count(b[i]) >= 1);
                assert(ar.contains(b[i]));
                let i1 = choose|k: int| 0 <= k < ar.len() && ar[k] == b[i];
                if i1 < i0 {
                    assert(a[i1] == b[i]);
                } else {
                    assert(a[i1 + 1] == b[i]);
                }
                assert(false);
            } else {
                assert(b.contains(b[i]));
                assert(b.contains(b[j]));
                assert(a.to_multiset().count(b[i]) > 0);
                assert(a.to_multiset().count(b[j]) > 0);
                assert(a.contains(b[i]));
                assert(a.contains(b[j]));
                let i0 = choose|k: int| 0 <= k < a.len() && a[k] == b[i];
                let j0 = choose|k: int| 0 <= k < a.len() && a[k] == b[j];
                assert(i0 != j0);
                assert(false);
            }
        }
    }
}

/// Every path seen in the first `i` elements is admitted by then.
proof fn lemma_dedup_has_path(s: Seq<ProjectModel>, i: int, j: int)
    requires
        0 <= j < i <= s.len(),
    ensures
        has_path(dedup_by_path(s, i), s[j].path),
    decreases i,
{
    let prev = dedup_by_path(s, i - 1);
    let d = dedup_by_path(s, i);
    if j == i - 1 {
        if has_path(prev, s[j].path) {
            let k = choose|k: int| 0 <= k < prev.len() && prev[k].path == s[j].path;
            assert(d[k] == prev[k]);
        } else {
            assert(d[d.len() - 1] == s[j]);
        }
    } else {
        lemma_dedup_has_path(s, i - 1, j);
        let k = choose|k: int| 0 <= k < prev.len() && prev[k].path == s[j].path;
        assert(d[k] == prev[k]);
    }
}

/// Elements whose paths were all admitted earlier change nothing.
proof fn lemma_dedup_saturated(s: Seq<ProjectModel>, i0: int, i: int)
    requires
        0 <= i0 <= i <= s.len(),
        forall|k: int|
            i0 <= k < i ==> has_path(dedup_by_path(s, i0), (#[trigger] s[k]).path),
    ensures
        dedup_by_path(s, i) == dedup_by_path(s, i0),
    decreases i - i0,
{
    if i > i0 {
        lemma_dedup_saturated(s, i0, i - 1);
    }
}

/// Two sequences that agree on a prefix are merged alike over it.
proof fn lemma_dedup_agree(s: Seq<ProjectModel>, t: Seq<ProjectModel>, i: int)
    requires
        0 <= i <= s.len(),
        i <= t.len(),
        forall|k: int| 0 <= k < i ==> #[trigger] s[k] == t[k],
    ensures
        dedup_by_path(s, i) == dedup_by_path(t, i),
    decreases i,
{
    if i > 0 {
        lemma_dedup_agree(s, t, i - 1);
    }
}

/// Scanning the same contribution twice adds nothing: merging a per-root
/// result list with itself yields exactly the merge of the list alone.
pub proof fn lemma_duplicate_root_merge(a: Seq<ProjectModel>)
    ensures
        merged(seq![a, a]) == merged(seq![a]),
{
    let two = seq![a, a];
    let one = seq![a];
    one.lemma_flatten_one_element();
    assert(one.first() == a);
    assert(one.flatten() == a);
    assert(two.drop_first() =~~= one);
    assert(two.first() == a);
    assert(two.flatten() =~= a + a);
    let aa = a + a;
    let n = a.len() as int;
    assert forall|k: int| 0 <= k < n implies #[trigger] aa[k] == a[k] by {}
    lemma_dedup_agree(aa, a, n);
    assert forall|k: int| n <= k < aa.len() implies has_path(
        dedup_by_path(aa, n),
        (#[trigger] aa[k]).path,
    ) by {
        assert(aa[k] == aa[k - n]);
        lemma_dedup_has_path(aa, n, k - n);
    }
    lemma_dedup_saturated(aa, n, aa.len() as int);
}

/// The order of the final list: case-insensitive comparison of names.
pub open spec fn name_le(a: ProjectModel, b: ProjectModel) -> bool {
    lex_le(lower_of(a.name), lower_of(b.name))
}

/// Whether a project list is sorted by case-insensitive name.
pub open spec fn sorted_by_name(s: Seq<ProjectModel>) -> bool {
    forall|i: int, j: int| 0 <= i < j < s.len() ==> name_le(#[trigger] s[i], #[trigger] s[j])
}

/// Compares two projects by case-insensitive name.
fn le_by_name(a: &Project, b: &Project) -> (r: bool)
    ensures
        r == name_le(a@, b@),
{
    let la = lowercase(a.name.as_str());
    let lb = lowercase(b.name.as_str());
    lex_le_exec(la.as_str(), lb.as_str())
}

/// Inserting between smaller and larger elements keeps a list sorted.
proof fn lemma_sorted_insert(s: Seq<ProjectModel>, x: ProjectModel, pos: int)
    requires
        sorted_by_name(s),
        0 <= pos <= s.len(),
        forall|j: int| 0 <= j < pos ==> name_le(#[trigger] s[j], x),
        forall|j: int| pos <= j < s.len() ==> name_le(x, #[trigger] s[j]),
    ensures
        sorted_by_name(s.insert(pos, x)),
{
    let t = s.insert(pos, x);
    s.insert_ensures(pos, x);
    assert forall|i: int, j: int| 0 <= i < j < t.len() implies name_le(#[trigger] t[i], #[trigger] t[j]) by {
        if i < pos {
            assert(t[i] == s[i]);
        } else if i == pos {
            assert(t[i] == x);
        } else {
            assert(t[i] == s[i - 1]);
        }
        if j < pos {
            assert(t[j] == s[j]);
        } else if j == pos {
            assert(t[j] == x);
        } else {
            assert(t[j] == s[j - 1]);
        }
    }
}

/// Inserting an element anywhere adds exactly it to the multiset.
proof fn lemma_insert_multiset(s: Seq<ProjectModel>, x: ProjectModel, pos: int)
    requires
        0 <= pos <= s.len(),
    ensures
        s.insert(pos, x).to_multiset() =~= s.to_multiset().insert(x),
{
    broadcast use vstd::seq_lib::group_to_multiset_ensures;

    let left = s.subrange(0, pos);
    let right = s.subrange(pos, s.len() as int);
    assert(s.insert(pos, x) =~= left.push(x) + right);
    lemma_multiset_commutative(left.push(x), right);
    lemma_multiset_commutative(left, right);
    assert(left + right =~= s);
    assert(left.push(x).to_multiset() =~= left.to_multiset().insert(x));
    assert(left.to_multiset().insert(x).add(right.to_multiset()) =~= s.to_multiset().insert(x));
}

/// Orders a project list by case-insensitive name.  The result holds
/// exactly the given projects; ties keep no promised order.
pub fn sort_by_name(v: &Vec<Project>) -> (r: Vec<Project>)
    ensures
        sorted_by_name(r.deep_view()),
        r.deep_view().to_multiset() == v.deep_view().to_multiset(),
{
    let mut out: Vec<Project> = Vec::new();
    proof {
        assert(out.deep_view() =~~= v.deep_view().take(0));
    }
    let mut i: usize = 0;
    while i < v.len()
        invariant
            i <= v@.len(),
            sorted_by_name(out.deep_view()),
            out.deep_view().to_multiset() == v.deep_view().take(i as int).to_multiset(),
        decreases v@.len() - i,
    {
        let x = v[i].clone();
        let ghost xm = v.deep_view()[i as int];
        proof {
            assert(v.deep_view()[i as int] == v[i as int]@);
        }
        let mut pos: usize = 0;
        loop
            invariant
                pos <= out@.len(),
                x@ == xm,
                forall|j: int| 0 <= j < pos ==> name_le(#[trigger] out.deep_view()[j], xm),
            ensures
                pos <= out@.len(),
                x@ == xm,
                forall|j: int| 0 <= j < pos ==> name_le(#[trigger] out.deep_view()[j], xm),
                pos < out@.len() ==> !name_le(out.deep_view()[pos as int], xm),
            decreases out@.len() - pos,
        {
            if pos == out.len() {
                break;
            }
            proof {
                assert(out.deep_view()[pos as int] == out[pos as int]@);
            }
            if !le_by_name(&out[pos], &x) {
                break;
            }
            pos = pos + 1;
        }
        let ghost so = out.deep_view();
        proof {
            if (pos as int) < so.len() {
                lemma_lex_le_total(lower_of(so[pos as int].name), lower_of(xm.name));
            }
            assert forall|j: int| pos <= j < so.len() implies name_le(xm, #[trigger] so[j]) by {
                if j > pos {
                    lemma_lex_le_trans(
                        lower_of(xm.name),
                        lower_of(so[pos as int].name),
                        lower_of(so[j].name),
                    );
                }
            }
            lemma_sorted_insert(so, xm, pos as int);
            lemma_insert_multiset(so, xm, pos as int);
        }
        let ghost old_sh = out@;
        out.insert(pos, x);
        proof {
            broadcast use vstd::seq_lib::group_to_multiset_ensures;

            so.insert_ensures(pos as int, xm);
            old_sh.insert_ensures(pos as int, x);
            assert(out.deep_view() =~~= so.insert(pos as int, xm));
            assert(v.deep_view().take(i as int + 1) =~~= v.deep_view().take(i as int).push(xm));
        }
        i = i + 1;
    }
    proof {
        assert(v.deep_view().take(v.deep_view().len() as int) =~~= v.deep_view());
    }
    out
}

/// A prefix of the flattened lists is a prefix of the whole flattening.
proof fn lemma_flatten_alt_prefix(lists: Seq<Seq<ProjectModel>>, i: int)
    requires
        0 <= i <= lists.len(),
    ensures
        lists.take(i).flatten_alt() =~= lists.flatten().take(
            lists.take(i).flatten_alt().len() as int,
        ),
        lists.take(i).flatten_alt().len() <= lists.flatten().len(),
    decreases lists.len() - i,
{
    if i == lists.len() {
        assert(lists.take(i) =~~= lists);
        lists.lemma_flatten_and_flatten_alt_are_equivalent();
        assert(lists.flatten_alt() =~= lists.flatten().take(lists.flatten_alt().len() as int));
    } else {
        lemma_flatten_alt_prefix(lists, i + 1);
        assert(lists.take(i + 1).drop_last() =~~= lists.take(i));
        assert(lists.take(i + 1).flatten_alt() =~~= lists.take(i).flatten_alt() + lists[i]);
    }
}

} // verus!
