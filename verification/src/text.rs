//! Character-sequence utilities: case folding, lexicographic order,
//! membership tests, path-component prefixes, and path assembly.

use vstd::prelude::*;
use vstd::string::StrSliceExecFns;
use vstd::string::StringExecFns;

verus! {

/// The sequence of characters that `str::to_lowercase` produces for a given
/// input.  The mapping is fixed but too large to write down, so it is left
/// uninterpreted; contracts relate results to inputs through this name.
pub uninterp spec fn lower_of(s: Seq<char>) -> Seq<char>;

/// Relies on `str::to_lowercase`: the result depends on the characters of
/// the input alone.
#[verifier::external_body]
pub(crate) fn lowercase(s: &str) -> (r: String)
    ensures
        r@ == lower_of(s@),
{
    s.to_lowercase()
}

/// Lexicographic order on character sequences, comparing scalar values.
pub open spec fn lex_le(a: Seq<char>, b: Seq<char>) -> bool
    decreases a.len(),
{
    if a.len() == 0 {
        true
    } else if b.len() == 0 {
        false
    } else if (a[0] as u32) < (b[0] as u32) {
        true
    } else if (a[0] as u32) > (b[0] as u32) {
        false
    } else {
        lex_le(a.skip(1), b.skip(1))
    }
}

/// `lex_le` is total: any two sequences are comparable.
pub proof fn lemma_lex_le_total(a: Seq<char>, b: Seq<char>)
    ensures
        lex_le(a, b) || lex_le(b, a),
    decreases a.len(),
{
    if a.len() == 0 || b.len() == 0 {
    } else if (a[0] as u32) == (b[0] as u32) {
        lemma_lex_le_total(a.skip(1), b.skip(1));
    }
}

/// `lex_le` is transitive.
pub proof fn lemma_lex_le_trans(a: Seq<char>, b: Seq<char>, c: Seq<char>)
    requires
        lex_le(a, b),
        lex_le(b, c),
    ensures
        lex_le(a, c),
    decreases a.len(),
{
    if a.len() == 0 || b.len() == 0 || c.len() == 0 {
    } else if (a[0] as u32) == (b[0] as u32) && (b[0] as u32) == (c[0] as u32) {
        lemma_lex_le_trans(a.skip(1), b.skip(1), c.skip(1));
    }
}

/// Dropping one equal leading character on both sides preserves the order.
proof fn lemma_lex_le_step(a: Seq<char>, b: Seq<char>)
    requires
        a.len() > 0,
        b.len() > 0,
        (a[0] as u32) == (b[0] as u32),
    ensures
        lex_le(a, b) == lex_le(a.skip(1), b.skip(1)),
{
}

/// Compares two strings in the order `lex_le` describes.
pub fn lex_le_exec(a: &str, b: &str) -> (r: bool)
    ensures
        r == lex_le(a@, b@),
{
    let alen: usize = a.unicode_len();
    let blen: usize = b.unicode_len();
    let mut i: usize = 0;
    proof {
        assert(a@.skip(0) =~= a@);
        assert(b@.skip(0) =~= b@);
    }
    loop
        invariant
            i <= alen,
            i <= blen,
            alen == a@.len(),
            blen == b@.len(),
            lex_le(a@, b@) == lex_le(a@.skip(i as int), b@.skip(i as int)),
        decreases alen - i,
    {
        if i == alen {
            return true;
        }
        if i == blen {
            return false;
        }
        let ca: u32 = a.get_char(i) as u32;
        let cb: u32 = b.get_char(i) as u32;
        proof {
            assert(a@.skip(i as int)[0] == a@[i as int]);
            assert(b@.skip(i as int)[0] == b@[i as int]);
        }
        if ca < cb {
            return true;
        }
        if ca > cb {
            return false;
        }
        proof {
            lemma_lex_le_step(a@.skip(i as int), b@.skip(i as int));
            assert(a@.skip(i as int).skip(1) =~= a@.skip(i as int + 1));
            assert(b@.skip(i as int).skip(1) =~= b@.skip(i as int + 1));
        }
        i = i + 1;
    }
}

/// Whether a list of strings contains the given string.
pub fn contains_string(v: &Vec<String>, s: &String) -> (r: bool)
    ensures
        r == v.deep_view().contains(s@),
{
    let mut i: usize = 0;
    while i < v.len()
        invariant
            i <= v.len(),
            forall|j: int| 0 <= j < i ==> v.deep_view()[j] != s@,
        decreases v.len() - i,
    {
        assert(v.deep_view()[i as int] == v[i as int]@);
        if v[i] == *s {
            return true;
        }
        i = i + 1;
    }
    false
}

/// One component path is a strict ancestor of another when its components
/// are a proper prefix of the other's.
pub open spec fn strict_prefix_of(a: Seq<Seq<char>>, b: Seq<Seq<char>>) -> bool {
    a.len() < b.len() && a =~= b.take(a.len() as int)
}

/// Decides `strict_prefix_of` on component lists.
pub fn is_strict_prefix(a: &Vec<String>, b: &Vec<String>) -> (r: bool)
    ensures
        r == strict_prefix_of(a.deep_view(), b.deep_view()),
{
    if a.len() >= b.len() {
        return false;
    }
    let mut i: usize = 0;
    while i < a.len()
        invariant
            i <= a.len(),
            a.len() < b.len(),
            forall|j: int| 0 <= j < i ==> a.deep_view()[j] == b.deep_view()[j],
        decreases a.len() - i,
    {
        assert(a.deep_view()[i as int] == a[i as int]@);
        assert(b.deep_view()[i as int] == b[i as int]@);
        if !(a[i] == b[i]) {
            return false;
        }
        i = i + 1;
    }
    proof {
        assert(a.deep_view() =~= b.deep_view().take(a.deep_view().len() as int));
    }
    true
}

/// The path of a directory given as components below a root: the root, then
/// each component preceded by a separator.
pub open spec fn joined_path(root: Seq<char>, comps: Seq<Seq<char>>) -> Seq<char>
    decreases comps.len(),
{
    if comps.len() == 0 {
        root
    } else {
        joined_path(root, comps.drop_last()) + seq!['/'] + comps.last()
    }
}

/// Builds the path string of a directory from the root path and the
/// component list.
pub fn join_path(root: &str, comps: &Vec<String>) -> (r: String)
    ensures
        r@ == joined_path(root@, comps.deep_view()),
{
    let mut s: String = root.to_owned();
    proof {
        assert(comps.deep_view().take(0) =~= Seq::<Seq<char>>::empty());
    }
    let mut i: usize = 0;
    while i < comps.len()
        invariant
            i <= comps.len(),
            s@ == joined_path(root@, comps.deep_view().take(i as int)),
        decreases comps.len() - i,
    {
        s.append("/");
        s.append(comps[i].as_str());
        proof {
            reveal_strlit("/");
            let t = comps.deep_view().take(i as int + 1);
            assert(t.drop_last() =~= comps.deep_view().take(i as int));
            assert(t.last() == comps[i as int]@);
            assert("/"@ =~= seq!['/']);
        }
        i = i + 1;
    }
    proof {
        assert(comps.deep_view().take(comps.deep_view().len() as int) =~= comps.deep_view());
    }
    s
}

/// Joins a directory path and an entry name with a separator.
pub fn join_one(dir: &str, name: &str) -> (r: String)
    ensures
        r@ == dir@ + seq!['/'] + name@,
{
    let mut s: String = dir.to_owned();
    s.append("/");
    s.append(name);
    proof {
        reveal_strlit("/");
        assert("/"@ =~= seq!['/']);
    }
    s
}

/// Copies a list of strings.
pub fn clone_strings(v: &Vec<String>) -> (r: Vec<String>)
    ensures
        r.deep_view() == v.deep_view(),
{
    let mut r: Vec<String> = Vec::new();
    let mut i: usize = 0;
    while i < v.len()
        invariant
            i <= v.len(),
            r@.len() == i,
            forall|j: int| 0 <= j < i ==> r.deep_view()[j] == v.deep_view()[j],
        decreases v.len() - i,
    {
        r.push(v[i].clone());
        i = i + 1;
    }
    proof {
        assert(r.deep_view() =~~= v.deep_view());
    }
    r
}

/// The final path component of a path string: everything after the last
/// separator, or the whole string when it holds none.
pub open spec fn base_name_of(s: Seq<char>) -> Seq<char>
    decreases s.len(),
{
    if s.len() == 0 {
        Seq::empty()
    } else if s[s.len() - 1] == '/' {
        Seq::empty()
    } else {
        base_name_of(s.take(s.len() - 1)) + seq![s[s.len() - 1]]
    }
}

/// After the last separator the rest of the string is the base name.
proof fn lemma_base_name_suffix(s: Seq<char>, k: int)
    requires
        0 <= k <= s.len(),
        forall|j: int| k <= j < s.len() ==> s[j] != '/',
        k == 0 || s[k - 1] == '/',
    ensures
        base_name_of(s) == s.skip(k),
    decreases s.len(),
{
    if k == s.len() {
        assert(s.skip(k) =~= Seq::<char>::empty());
    } else {
        assert(s[s.len() - 1] != '/');
        let t = s.take(s.len() - 1);
        lemma_base_name_suffix(t, k);
        assert(t.skip(k) + seq![s[s.len() - 1]] =~= s.skip(k));
    }
}

/// Extracts the final path component of a path string.
pub fn base_name(s: &str) -> (r: String)
    ensures
        r@ == base_name_of(s@),
{
    let len: usize = s.unicode_len();
    let mut k: usize = 0;
    let mut i: usize = 0;
    while i < len
        invariant
            i <= len,
            len == s@.len(),
            k <= i,
            forall|j: int| k <= j < i ==> s@[j] != '/',
            k == 0 || s@[k - 1] == '/',
        decreases len - i,
    {
        if s.get_char(i) == '/' {
            k = i + 1;
        }
        i = i + 1;
    }
    proof {
        lemma_base_name_suffix(s@, k as int);
    }
    s.substring_char(k, len).to_owned()
}

/// A well-formed path component: a real directory-entry name, nonempty
/// and free of the separator.
pub open spec fn component_wf(c: Seq<char>) -> bool {
    c.len() > 0 && (forall|t: int| 0 <= t < c.len() ==> c[t] != '/')
}

/// A well-formed component list: every component is.
pub open spec fn comps_wf(cs: Seq<Seq<char>>) -> bool {
    forall|k: int| 0 <= k < cs.len() ==> component_wf(#[trigger] cs[k])
}

/// One path string is a strict ancestor of another: a proper prefix at a
/// directory boundary.
pub open spec fn path_strict_ancestor(p: Seq<char>, q: Seq<char>) -> bool {
    p.len() < q.len() && q.take(p.len() as int) == p && q[p.len() as int] == '/'
}

/// The part of a joined path below the root: a separator before each
/// component.
pub open spec fn rel_path(comps: Seq<Seq<char>>) -> Seq<char>
    decreases comps.len(),
{
    if comps.len() == 0 {
        Seq::empty()
    } else {
        rel_path(comps.drop_last()) + seq!['/'] + comps.last()
    }
}

/// A joined path is the root followed by the relative part.
pub proof fn lemma_joined_rel(root: Seq<char>, comps: Seq<Seq<char>>)
    ensures
        joined_path(root, comps) =~= root + rel_path(comps),
    decreases comps.len(),
{
    if comps.len() == 0 {
    } else {
        lemma_joined_rel(root, comps.drop_last());
    }
}

/// Distinct well-formed component lists have distinct relative parts.
proof fn lemma_rel_path_injective(a: Seq<Seq<char>>, c: Seq<Seq<char>>)
    requires
        comps_wf(a),
        comps_wf(c),
        rel_path(a) == rel_path(c),
    ensures
        a =~= c,
    decreases a.len(),
{
    if a.len() == 0 {
        if c.len() > 0 {
            assert(rel_path(c).len() > 0);
        }
    } else if c.len() == 0 {
        assert(rel_path(a).len() > 0);
    } else {
        let ra = rel_path(a.drop_last());
        let rc = rel_path(c.drop_last());
        let u = a.last();
        let v = c.last();
        assert(component_wf(u));
        assert(component_wf(v));
        let s = rel_path(a);
        assert(s =~= ra + seq!['/'] + u);
        assert(s =~= rc + seq!['/'] + v);
        assert(s.len() == ra.len() + 1 + u.len());
        assert(s.len() == rc.len() + 1 + v.len());
        assert(s[ra.len() as int] == '/');
        assert(s[rc.len() as int] == '/');
        if ra.len() < rc.len() {
            assert(s[rc.len() as int] == (ra + seq!['/'] + u)[rc.len() as int]);
            assert((ra + seq!['/'] + u)[rc.len() as int] == u[rc.len() - ra.len() - 1]);
            assert(u[rc.len() - ra.len() - 1] != '/');
            assert(false);
        }
        if rc.len() < ra.len() {
            assert(s[ra.len() as int] == (rc + seq!['/'] + v)[ra.len() as int]);
            assert((rc + seq!['/'] + v)[ra.len() as int] == v[ra.len() - rc.len() - 1]);
            assert(v[ra.len() - rc.len() - 1] != '/');
            assert(false);
        }
        assert(ra =~= rc) by {
            assert(forall|t: int| 0 <= t < ra.len() ==> ra[t] == s[t] && rc[t] == s[t]);
        }
        assert(u =~= v) by {
            assert(forall|t: int|
                0 <= t < u.len() ==> u[t] == s[ra.len() + 1 + t] && v[t] == s[ra.len() + 1 + t]);
        }
        assert(comps_wf(a.drop_last())) by {
            assert(forall|k: int| 0 <= k < a.len() - 1 ==> a.drop_last()[k] == a[k]);
        }
        assert(comps_wf(c.drop_last())) by {
            assert(forall|k: int| 0 <= k < c.len() - 1 ==> c.drop_last()[k] == c[k]);
        }
        lemma_rel_path_injective(a.drop_last(), c.drop_last());
        assert(a =~= c) by {
            assert(a.len() == c.len());
            assert(forall|k: int|
                0 <= k < a.len() - 1 ==> a[k] == a.drop_last()[k] && c[k] == c.drop_last()[k]);
            assert(a[a.len() - 1] == u);
            assert(c[c.len() - 1] == v);
        }
    }
}

/// An ancestor relation between relative parts is a prefix relation
/// between their component lists.
proof fn lemma_rel_ancestor(a: Seq<Seq<char>>, b: Seq<Seq<char>>)
    requires
        comps_wf(a),
        comps_wf(b),
        path_strict_ancestor(rel_path(a), rel_path(b)),
    ensures
        strict_prefix_of(a, b),
    decreases b.len(),
{
    let ra = rel_path(a);
    let rb = rel_path(b);
    if b.len() == 0 {
        assert(rb.len() == 0);
    } else {
        let rp = rel_path(b.drop_last());
        let w = b.last();
        assert(component_wf(w));
        assert(rb =~= rp + seq!['/'] + w);
        assert(comps_wf(b.drop_last())) by {
            assert(forall|k: int| 0 <= k < b.len() - 1 ==> b.drop_last()[k] == b[k]);
        }
        if ra.len() == rp.len() {
            assert(ra =~= rp) by {
                assert(forall|t: int| 0 <= t < ra.len() ==> ra[t] == rb[t] && rp[t] == rb[t]);
            }
            lemma_rel_path_injective(a, b.drop_last());
            assert(a =~= b.take(a.len() as int));
        } else if ra.len() < rp.len() {
            assert(path_strict_ancestor(ra, rp)) by {
                assert(forall|t: int| 0 <= t < ra.len() + 1 ==> rp[t] == rb[t]);
                assert(rp.take(ra.len() as int) =~= rb.take(ra.len() as int));
            }
            lemma_rel_ancestor(a, b.drop_last());
            assert(a =~= b.take(a.len() as int)) by {
                assert(a =~= b.drop_last().take(a.len() as int));
                assert(forall|k: int| 0 <= k < a.len() ==> b.drop_last()[k] == b[k]);
            }
        } else {
            assert(rb[ra.len() as int] == w[ra.len() - rp.len() - 1]);
            assert(false);
        }
    }
}

/// Between paths joined below one root from well-formed components, the
/// ancestor relation on path strings is exactly the prefix relation on
/// component lists.
pub proof fn lemma_path_ancestor_is_component_prefix(
    root: Seq<char>,
    a: Seq<Seq<char>>,
    b: Seq<Seq<char>>,
)
    requires
        comps_wf(a),
        comps_wf(b),
        path_strict_ancestor(joined_path(root, a), joined_path(root, b)),
    ensures
        strict_prefix_of(a, b),
{
    lemma_joined_rel(root, a);
    lemma_joined_rel(root, b);
    let p = joined_path(root, a);
    let q = joined_path(root, b);
    let ra = rel_path(a);
    let rb = rel_path(b);
    assert(ra.len() < rb.len());
    assert(q[p.len() as int] == rb[ra.len() as int]);
    assert(rb.take(ra.len() as int) =~= ra) by {
        assert(forall|t: int|
            0 <= t < ra.len() ==> rb[t] == q[root.len() + t] && ra[t] == p[root.len() + t]);
        assert(forall|t: int| 0 <= t < p.len() ==> q[t] == p[t]) by {
            assert(forall|t: int| 0 <= t < p.len() ==> q.take(p.len() as int)[t] == q[t]);
        }
    }
    lemma_rel_ancestor(a, b);
}

/// The base name of a joined path is its last component, when the
/// components are well formed.
pub proof fn lemma_joined_base_name(root: Seq<char>, comps: Seq<Seq<char>>)
    requires
        comps.len() > 0,
        component_wf(comps.last()),
    ensures
        base_name_of(joined_path(root, comps)) == comps.last(),
{
    let p = joined_path(root, comps);
    let head = joined_path(root, comps.drop_last()) + seq!['/'];
    assert(p =~= head + comps.last());
    let k = head.len() as int;
    assert(p[k - 1] == '/');
    assert forall|j: int| k <= j < p.len() implies p[j] != '/' by {
        assert(p[j] == comps.last()[j - k]);
    }
    lemma_base_name_suffix(p, k);
    assert(p.skip(k) =~= comps.last());
}

/// Expands a leading tilde: `~` alone becomes `home`, `~/rest` becomes
/// `home/rest`, and any other path is returned unchanged.
pub fn expand_tilde(path: &str, home: &str) -> (r: String)
    ensures
        ({
            let p = path@;
            let h = home@;
            if p.len() == 1 && p[0] == '~' {
                r@ == h
            } else if p.len() >= 2 && p[0] == '~' && p[1] == '/' {
                r@ == h + p.skip(1)
            } else {
                r@ == p
            }
        }),
{
    let plen: usize = path.unicode_len();
    if plen >= 1 && path.get_char(0) == '~' {
        if plen == 1 {
            return home.to_owned();
        }
        if path.get_char(1) == '/' {
            let mut s: String = home.to_owned();
            s.append(path.substring_char(1, plen));
            proof {
                assert(path@.subrange(1, plen as int) =~= path@.skip(1));
            }
            return s;
        }
    }
    path.to_owned()
}

/// Unicode whitespace — the characters with the White_Space property,
/// the set `str::split_whitespace` splits on.
pub open spec fn is_space_char(c: char) -> bool {
    let u = c as u32;
    (9 <= u && u <= 13) || u == 0x20 || u == 0x85 || u == 0xa0 || u == 0x1680 || (0x2000 <= u && u
        <= 0x200a) || u == 0x2028 || u == 0x2029 || u == 0x202f || u == 0x205f || u == 0x3000
}

/// Decides `is_space_char`.
pub fn is_space(c: char) -> (r: bool)
    ensures
        r == is_space_char(c),
{
    let u: u32 = c as u32;
    (9 <= u && u <= 13) || u == 0x20 || u == 0x85 || u == 0xa0 || u == 0x1680 || (0x2000 <= u && u
        <= 0x200a) || u == 0x2028 || u == 0x2029 || u == 0x202f || u == 0x205f || u == 0x3000
}

/// The whitespace-separated words of `s`, given the word collected so
/// far.
pub open spec fn split_acc(s: Seq<char>, cur: Seq<char>) -> Seq<Seq<char>>
    decreases s.len(),
{
    if s.len() == 0 {
        if cur.len() == 0 {
            Seq::empty()
        } else {
            seq![cur]
        }
    } else if is_space_char(s[0]) {
        if cur.len() == 0 {
            split_acc(s.skip(1), Seq::empty())
        } else {
            seq![cur] + split_acc(s.skip(1), Seq::empty())
        }
    } else {
        split_acc(s.skip(1), cur.push(s[0]))
    }
}

/// The whitespace-separated words of `s`, in order, each nonempty.
pub open spec fn split_terms(s: Seq<char>) -> Seq<Seq<char>> {
    split_acc(s, Seq::empty())
}

/// Splits a string into its whitespace-separated words.
pub fn split_spaces(s: &str) -> (r: Vec<String>)
    ensures
        r.deep_view() == split_terms(s@),
{
    let len: usize = s.unicode_len();
    let mut out: Vec<String> = Vec::new();
    let mut start: usize = 0;
    let mut i: usize = 0;
    proof {
        assert(s@.skip(0) =~= s@);
        assert(s@.subrange(0, 0) =~= Seq::<char>::empty());
        assert(out.deep_view() =~~= Seq::<Seq<char>>::empty());
        assert(Seq::<Seq<char>>::empty() + split_acc(s@, Seq::<char>::empty()) =~~= split_terms(
            s@,
        ));
    }
    while i < len
        invariant
            start <= i <= len,
            len == s@.len(),
            out.deep_view() + split_acc(s@.skip(i as int), s@.subrange(start as int, i as int))
                == split_terms(s@),
        decreases len - i,
    {
        let ghost cur = s@.subrange(start as int, i as int);
        let c = s.get_char(i);
        proof {
            assert(s@.skip(i as int)[0] == s@[i as int]);
            assert(s@.skip(i as int).skip(1) =~= s@.skip(i as int + 1));
        }
        if is_space(c) {
            if start < i {
                out.push(s.substring_char(start, i).to_owned());
                proof {
                    assert(out.deep_view() =~~= out.deep_view().take(
                        out.deep_view().len() - 1,
                    ).push(cur));
                }
            }
            proof {
                assert(s@.subrange(i as int + 1, i as int + 1) =~= Seq::<char>::empty());
                if cur.len() == 0 {
                    assert(split_acc(s@.skip(i as int), cur) == split_acc(
                        s@.skip(i as int + 1),
                        Seq::<char>::empty(),
                    ));
                } else {
                    assert(split_acc(s@.skip(i as int), cur) =~~= seq![cur] + split_acc(
                        s@.skip(i as int + 1),
                        Seq::<char>::empty(),
                    ));
                }
            }
            start = i + 1;
        } else {
            proof {
                assert(cur.push(s@[i as int]) =~= s@.subrange(start as int, i as int + 1));
            }
        }
        i = i + 1;
    }
    proof {
        assert(s@.skip(len as int) =~= Seq::<char>::empty());
    }
    if start < len {
        let ghost cur = s@.subrange(start as int, len as int);
        out.push(s.substring_char(start, len).to_owned());
        proof {
            assert(split_acc(Seq::<char>::empty(), cur) =~~= seq![cur]);
            assert(out.deep_view() =~~= out.deep_view().take(out.deep_view().len() - 1).push(cur));
        }
    } else {
        proof {
            assert(s@.subrange(start as int, len as int).len() == 0);
        }
    }
    proof {
        assert(out.deep_view() =~~= split_terms(s@));
    }
    out
}

/// Shortens a path for display: when `home` is a prefix of `path`, it is
/// replaced by `~`; any other path is returned unchanged.
pub fn shorten_with_home(path: &str, home: &str) -> (r: String)
    ensures
        ({
            let p = path@;
            let h = home@;
            if h.len() <= p.len() && p.subrange(0, h.len() as int) == h {
                r@ == seq!['~'] + p.skip(h.len() as int)
            } else {
                r@ == p
            }
        }),
{
    let plen: usize = path.unicode_len();
    let hlen: usize = home.unicode_len();
    if hlen <= plen && match_at(path, home, 0, plen, hlen) {
        let mut s: String = "~".to_owned();
        s.append(path.substring_char(hlen, plen));
        proof {
            reveal_strlit("~");
            assert("~"@ =~= seq!['~']);
            assert(path@.subrange(hlen as int, plen as int) =~= path@.skip(hlen as int));
        }
        s
    } else {
        path.to_owned()
    }
}

/// Whether `needle` occurs contiguously inside `hay`.
pub open spec fn is_substring_of(needle: Seq<char>, hay: Seq<char>) -> bool {
    exists|k: int|
        0 <= k && k + needle.len() <= hay.len() && #[trigger] hay.subrange(
            k,
            k + needle.len() as int,
        ) == needle
}

/// Whether `needle` matches `hay` at offset `k`.
fn match_at(hay: &str, needle: &str, k: usize, hlen: usize, nlen: usize) -> (r: bool)
    requires
        hlen == hay@.len(),
        nlen == needle@.len(),
        k + nlen <= hlen,
    ensures
        r == (hay@.subrange(k as int, k as int + needle@.len() as int) == needle@),
{
    let mut j: usize = 0;
    while j < nlen
        invariant
            j <= nlen,
            k + nlen <= hlen,
            hlen == hay@.len(),
            nlen == needle@.len(),
            forall|t: int| 0 <= t < j ==> hay@[k + t] == needle@[t],
        decreases nlen - j,
    {
        let hc = hay.get_char(k + j);
        let nc = needle.get_char(j);
        if hc != nc {
            proof {
                assert(hay@.subrange(k as int, k as int + nlen as int)[j as int] == hay@[k + j]);
            }
            return false;
        }
        j = j + 1;
    }
    proof {
        assert(hay@.subrange(k as int, k as int + nlen as int) =~= needle@);
    }
    true
}

/// Decides `is_substring_of`.
pub fn contains_sub(hay: &str, needle: &str) -> (r: bool)
    ensures
        r == is_substring_of(needle@, hay@),
{
    let hlen: usize = hay.unicode_len();
    let nlen: usize = needle.unicode_len();
    if nlen > hlen {
        return false;
    }
    if nlen == 0 {
        proof {
            assert(hay@.subrange(0, 0 + needle@.len() as int) =~= needle@);
            assert(is_substring_of(needle@, hay@));
        }
        return true;
    }
    let mut k: usize = 0;
    while k <= hlen - nlen
        invariant
            hlen == hay@.len(),
            nlen == needle@.len(),
            1 <= nlen <= hlen,
            k <= hlen - nlen + 1,
            forall|t: int|
                0 <= t < k ==> #[trigger] hay@.subrange(t, t + nlen as int) != needle@,
        decreases hlen - nlen - k + 1,
    {
        if match_at(hay, needle, k, hlen, nlen) {
            return true;
        }
        k = k + 1;
    }
    false
}

} // verus!
