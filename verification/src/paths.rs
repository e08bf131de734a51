//! Paths, held as strings.
//!
//! A path's structure comes from `std::path::Path::components` (one trusted
//! call, its result named `path_components_of`); the file name, stem,
//! extension, prefix test, equality and order that the library uses are
//! derived from it, as std itself derives them. Joining is `Path::join`
//! itself (its result named `join_of`). Both follow the platform's own path
//! rules.

use vstd::prelude::*;
use crate::text::{
    chars_eq, chars_less, chars_of, concat_str, lemma_str_less_total, lemma_str_less_trans, str_less, string_eq,
    string_of, views,
};

verus! {

/// What `Path::components` yields for the path with the given characters:
/// each component's kind, numbered in the order of `std::path::Component`'s
/// variants (0 a prefix such as a drive, 1 the root directory, 2 `.`, 3 `..`,
/// 4 a normal name), and its text rendered with `to_string_lossy`.
pub uninterp spec fn path_components_of(p: Seq<char>) -> Seq<(u8, Seq<char>)>;

/// The views of components.
pub open spec fn comp_views(v: Seq<(u8, String)>) -> Seq<(u8, Seq<char>)> {
    v.map_values(|c: (u8, String)| (c.0, c.1@))
}

/// `Path::components`, each component as its kind and its text. The result
/// is named `path_components_of`; nothing more is claimed of it.
#[verifier::external_body]
pub(crate) fn path_components(p: &str) -> (r: Vec<(u8, String)>)
    ensures
        comp_views(r@) == path_components_of(p@),
{
    std::path::Path::new(p).components().map(|c| {
        let kind: u8 = match c {
            std::path::Component::Prefix(_) => 0,
            std::path::Component::RootDir => 1,
            std::path::Component::CurDir => 2,
            std::path::Component::ParentDir => 3,
            std::path::Component::Normal(_) => 4,
        };
        (kind, c.as_os_str().to_string_lossy().into_owned())
    }).collect()
}

/// A normal component: a name, not a prefix, the root, `.` or `..`.
pub open spec fn is_normal(c: (u8, Seq<char>)) -> bool {
    c.0 == 4
}

/// The names of the components, kinds left out.
pub open spec fn component_names(cs: Seq<(u8, Seq<char>)>) -> Seq<Seq<char>> {
    cs.map_values(|c: (u8, Seq<char>)| c.1)
}

/// `Path::file_name`: the last component, when it is a normal one.
pub open spec fn file_name_of(p: Seq<char>) -> Option<Seq<char>> {
    let cs = path_components_of(p);
    if cs.len() > 0 && is_normal(cs.last()) {
        Some(cs.last().1)
    } else {
        None
    }
}

/// Index of the last `.` in `s`.
pub open spec fn last_dot(s: Seq<char>) -> Option<int>
    decreases s.len(),
{
    if s.len() == 0 {
        None
    } else if s.last() == '.' {
        Some(s.len() - 1)
    } else {
        last_dot(s.drop_last())
    }
}

/// `Path::file_stem` of a file name: the part before the last `.`, or the
/// whole name when it has no `.` other than a leading one.
pub open spec fn stem_of_name(name: Seq<char>) -> Seq<char> {
    match last_dot(name) {
        Some(k) => if k == 0 {
            name
        } else {
            name.take(k)
        },
        None => name,
    }
}

/// `Path::extension` of a file name: the part after the last `.`, when
/// there is a `.` other than a leading one.
pub open spec fn ext_of_name(name: Seq<char>) -> Option<Seq<char>> {
    match last_dot(name) {
        Some(k) => if k == 0 {
            None
        } else {
            Some(name.skip(k + 1))
        },
        None => None,
    }
}

/// `Path::file_stem`.
pub open spec fn file_stem_of(p: Seq<char>) -> Option<Seq<char>> {
    match file_name_of(p) {
        Some(n) => Some(stem_of_name(n)),
        None => None,
    }
}

/// `Path::extension`.
pub open spec fn extension_of(p: Seq<char>) -> Option<Seq<char>> {
    match file_name_of(p) {
        Some(n) => ext_of_name(n),
        None => None,
    }
}

/// What `Path::join` gives for the two paths, rendered with
/// `to_string_lossy`.
pub uninterp spec fn join_of(base: Seq<char>, rel: Seq<char>) -> Seq<char>;

/// `Path::starts_with`: `base`'s components are a prefix of `p`'s.
pub open spec fn path_starts_with(p: Seq<char>, base: Seq<char>) -> bool {
    let a = path_components_of(p);
    let b = path_components_of(base);
    b.len() <= a.len() && a.take(b.len() as int) == b
}

/// `Path`'s `==`: equal components.
pub open spec fn path_equal(a: Seq<char>, b: Seq<char>) -> bool {
    path_components_of(a) == path_components_of(b)
}

/// Order of two components: by kind, in the order of
/// `std::path::Component`'s variants, then by text.
pub open spec fn component_less(a: (u8, Seq<char>), b: (u8, Seq<char>)) -> bool {
    a.0 < b.0 || (a.0 == b.0 && str_less(a.1, b.1))
}

/// Lexicographic order of component lists.
pub open spec fn components_less(a: Seq<(u8, Seq<char>)>, b: Seq<(u8, Seq<char>)>) -> bool
    decreases a.len(),
{
    if a.len() == 0 {
        b.len() > 0
    } else if b.len() == 0 {
        false
    } else if a[0] != b[0] {
        component_less(a[0], b[0])
    } else {
        components_less(a.drop_first(), b.drop_first())
    }
}

/// `PathBuf`'s `Ord`: lexicographic over the components.
pub open spec fn path_less(a: Seq<char>, b: Seq<char>) -> bool {
    components_less(path_components_of(a), path_components_of(b))
}

/// Components are totally ordered: the order is irreflexive, transitive,
/// and any two distinct components compare one way or the other.
pub proof fn lemma_component_less_order(a: (u8, Seq<char>), b: (u8, Seq<char>), c: (u8, Seq<char>))
    ensures
        !component_less(a, a),
        component_less(a, b) && component_less(b, c) ==> component_less(a, c),
        a != b ==> component_less(a, b) || component_less(b, a),
{
    lemma_str_less_total(a.1, b.1);
    lemma_str_less_total(a.1, a.1);
    if component_less(a, b) && component_less(b, c) && a.0 == b.0 && b.0 == c.0 {
        lemma_str_less_trans(a.1, b.1, c.1);
    }
}

/// Component lists are totally ordered, lexicographically.
pub proof fn lemma_components_less_order(a: Seq<(u8, Seq<char>)>, b: Seq<(u8, Seq<char>)>, c: Seq<(u8, Seq<char>)>)
    ensures
        !components_less(a, a),
        components_less(a, b) && components_less(b, c) ==> components_less(a, c),
        a != b ==> components_less(a, b) || components_less(b, a),
    decreases a.len(),
{
    if a.len() > 0 {
        lemma_component_less_order(a[0], a[0], a[0]);
        lemma_components_less_order(a.drop_first(), a.drop_first(), a.drop_first());
        if b.len() > 0 {
            lemma_component_less_order(a[0], b[0], b[0]);
            lemma_component_less_order(b[0], a[0], a[0]);
            if c.len() > 0 {
                lemma_component_less_order(a[0], b[0], c[0]);
                lemma_component_less_order(b[0], c[0], c[0]);
                lemma_component_less_order(c[0], a[0], a[0]);
            }
            if c.len() > 0 {
                lemma_components_less_order(a.drop_first(), b.drop_first(), c.drop_first());
            } else {
                lemma_components_less_order(a.drop_first(), b.drop_first(), b.drop_first());
            }
            if a != b && a[0] == b[0] {
                assert(a.drop_first() != b.drop_first()) by {
                    if a.drop_first() == b.drop_first() {
                        assert(a =~= seq![a[0]] + a.drop_first());
                        assert(b =~= seq![b[0]] + b.drop_first());
                    }
                }
            }
        }
    } else if b.len() == 0 {
        assert(a =~= b);
    }
}

/// Paths are ordered by their components: a strict weak order whose
/// equivalence is `Path`'s `==`.
pub proof fn lemma_path_less_order(a: Seq<char>, b: Seq<char>, c: Seq<char>)
    ensures
        !path_less(a, a),
        path_less(a, b) && path_less(b, c) ==> path_less(a, c),
        !path_less(a, b) && !path_less(b, a) <==> path_equal(a, b),
{
    lemma_components_less_order(path_components_of(a), path_components_of(b), path_components_of(c));
    lemma_components_less_order(path_components_of(b), path_components_of(a), path_components_of(a));
}

// ---------------------------------------------------------------------------

/// The characters `v[a..b]`.
pub fn sub_chars(v: &Vec<char>, a: usize, b: usize) -> (r: Vec<char>)
    requires
        a <= b <= v@.len(),
    ensures
        r@ == v@.subrange(a as int, b as int),
{
    let mut out: Vec<char> = Vec::new();
    let mut i: usize = a;
    while i < b
        invariant
            a <= i <= b <= v.len(),
            out@ == v@.subrange(a as int, i as int),
        decreases b - i,
    {
        out.push(v[i]);
        assert(v@.subrange(a as int, i as int).push(v@[i as int]) =~= v@.subrange(a as int, i + 1));
        i = i + 1;
    }
    out
}

/// `Path::file_name`.
pub fn file_name(p: &str) -> (r: Option<String>)
    ensures
        match r {
            Some(n) => file_name_of(p@) == Some(n@),
            None => file_name_of(p@) is None,
        },
{
    let cs = path_components(p);
    if cs.len() == 0 {
        return None;
    }
    let last = &cs[cs.len() - 1];
    assert(comp_views(cs@).last() == (last.0, last.1@));
    if last.0 == 4 {
        Some(last.1.clone())
    } else {
        None
    }
}

proof fn lemma_last_dot(s: Seq<char>)
    ensures
        match last_dot(s) {
            Some(k) => 0 <= k < s.len() && s[k] == '.',
            None => true,
        },
    decreases s.len(),
{
    if s.len() > 0 && s.last() != '.' {
        lemma_last_dot(s.drop_last());
    }
}

/// Index of the last `.` in `v`.
pub fn find_last_dot(v: &Vec<char>) -> (r: Option<usize>)
    ensures
        match r {
            Some(k) => last_dot(v@) == Some(k as int),
            None => last_dot(v@) is None,
        },
{
    let mut i: usize = v.len();
    assert(v@.take(i as int) =~= v@);
    while i > 0
        invariant
            i <= v.len(),
            last_dot(v@) == last_dot(v@.take(i as int)),
        decreases i,
    {
        assert(v@.take(i as int).last() == v@[i - 1]);
        assert(v@.take(i as int).drop_last() =~= v@.take(i - 1));
        if v[i - 1] == '.' {
            return Some(i - 1);
        }
        i = i - 1;
    }
    assert(v@.take(0) =~= Seq::<char>::empty());
    None
}

/// `Path::file_stem` and `Path::extension` of a file name.
pub fn split_name(name: &Vec<char>) -> (r: (Vec<char>, Option<Vec<char>>))
    ensures
        r.0@ == stem_of_name(name@),
        match r.1 {
            Some(e) => ext_of_name(name@) == Some(e@),
            None => ext_of_name(name@) is None,
        },
{
    proof {
        lemma_last_dot(name@);
    }
    match find_last_dot(name) {
        Some(k) => {
            if k == 0 {
                (sub_chars(name, 0, name.len()), None)
            } else {
                assert(k < name.len());
                (sub_chars(name, 0, k), Some(sub_chars(name, k + 1, name.len())))
            }
        },
        None => {
            assert(name@.subrange(0, name@.len() as int) =~= name@);
            (sub_chars(name, 0, name.len()), None)
        },
    }
}

/// `Path::file_stem`.
pub fn file_stem(p: &str) -> (r: Option<String>)
    ensures
        match r {
            Some(s) => file_stem_of(p@) == Some(s@),
            None => file_stem_of(p@) is None,
        },
{
    match file_name(p) {
        Some(n) => {
            let nc = chars_of(n.as_str());
            let (stem, _) = split_name(&nc);
            Some(string_of(&stem))
        },
        None => None,
    }
}

/// `Path::extension`.
pub fn extension(p: &str) -> (r: Option<String>)
    ensures
        match r {
            Some(s) => extension_of(p@) == Some(s@),
            None => extension_of(p@) is None,
        },
{
    match file_name(p) {
        Some(n) => {
            let nc = chars_of(n.as_str());
            let (_, ext) = split_name(&nc);
            match ext {
                Some(e) => Some(string_of(&e)),
                None => None,
            }
        },
        None => None,
    }
}

/// `Path::join`, rendered with `to_string_lossy`. The result is named
/// `join_of`; nothing more is claimed of it.
#[verifier::external_body]
pub(crate) fn join_path(base: &str, rel: &str) -> (r: String)
    ensures
        r@ == join_of(base@, rel@),
{
    std::path::Path::new(base).join(rel).to_string_lossy().into_owned()
}

/// `Path::starts_with`.
pub fn starts_with_path(p: &str, base: &str) -> (r: bool)
    ensures
        r == path_starts_with(p@, base@),
{
    let a = path_components(p);
    let b = path_components(base);
    if b.len() > a.len() {
        return false;
    }
    let mut i: usize = 0;
    while i < b.len()
        invariant
            b.len() <= a.len(),
            i <= b.len(),
            forall|k: int| 0 <= k < i ==> comp_views(a@)[k] == comp_views(b@)[k],
            comp_views(a@) == path_components_of(p@),
            comp_views(b@) == path_components_of(base@),
        decreases b.len() - i,
    {
        if a[i].0 != b[i].0 || !string_eq(&a[i].1, &b[i].1) {
            assert(comp_views(a@).take(b.len() as int)[i as int] != comp_views(b@)[i as int]);
            assert(comp_views(a@).take(b.len() as int) != comp_views(b@));
            return false;
        }
        i = i + 1;
    }
    assert(comp_views(a@).take(b.len() as int) =~= comp_views(b@));
    true
}

/// `Path`'s `==`.
pub fn paths_equal(a: &str, b: &str) -> (r: bool)
    ensures
        r == path_equal(a@, b@),
{
    let ca = path_components(a);
    let cb = path_components(b);
    if ca.len() != cb.len() {
        assert(comp_views(ca@).len() != comp_views(cb@).len());
        return false;
    }
    let mut i: usize = 0;
    while i < ca.len()
        invariant
            ca.len() == cb.len(),
            i <= ca.len(),
            forall|k: int| 0 <= k < i ==> comp_views(ca@)[k] == comp_views(cb@)[k],
            comp_views(ca@) == path_components_of(a@),
            comp_views(cb@) == path_components_of(b@),
        decreases ca.len() - i,
    {
        if ca[i].0 != cb[i].0 || !string_eq(&ca[i].1, &cb[i].1) {
            assert(comp_views(ca@)[i as int] != comp_views(cb@)[i as int]);
            assert(comp_views(ca@) != comp_views(cb@));
            return false;
        }
        i = i + 1;
    }
    assert(comp_views(ca@) =~= comp_views(cb@));
    true
}

/// `PathBuf`'s `<`.
pub fn path_lt(a: &str, b: &str) -> (r: bool)
    ensures
        r == path_less(a@, b@),
{
    let ca = path_components(a);
    let cb = path_components(b);
    let ghost va = comp_views(ca@);
    let ghost vb = comp_views(cb@);
    let mut i: usize = 0;
    assert(va.skip(0) =~= va);
    assert(vb.skip(0) =~= vb);
    while i < ca.len() && i < cb.len() && ca[i].0 == cb[i].0 && string_eq(&ca[i].1, &cb[i].1)
        invariant
            va == comp_views(ca@),
            vb == comp_views(cb@),
            i <= ca.len(),
            i <= cb.len(),
            components_less(va, vb) == components_less(va.skip(i as int), vb.skip(i as int)),
        decreases ca.len() - i,
    {
        assert(va.skip(i as int).drop_first() =~= va.skip(i + 1));
        assert(vb.skip(i as int).drop_first() =~= vb.skip(i + 1));
        i = i + 1;
    }
    if i == ca.len() {
        assert(va.skip(i as int).len() == 0);
        i < cb.len()
    } else if i == cb.len() {
        assert(vb.skip(i as int).len() == 0);
        false
    } else {
        assert(va.skip(i as int)[0] == va[i as int]);
        assert(vb.skip(i as int)[0] == vb[i as int]);
        let x = chars_of(ca[i].1.as_str());
        let y = chars_of(cb[i].1.as_str());
        ca[i].0 < cb[i].0 || (ca[i].0 == cb[i].0 && chars_less(&x, &y))
    }
}

} // verus!
