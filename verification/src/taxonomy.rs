//! The category taxonomy and its flattened form.
//!
//! A taxonomy is a forest: each named node is a leaf carrying keywords or a
//! parent carrying named children. Children (and the roots) are kept in
//! ascending name order, the order in which they are flattened.

use vstd::prelude::*;
use crate::error::ScanError;
use crate::text::{
    copy_string, copy_strings, concat_str, lowercase_all, lowercase_of, sort_dedup_strings,
    is_sorted_set_of, str_less, strictly_sorted, views, lemma_str_less_total,
    lemma_str_less_trans,
};

verus! {

/// A taxonomy node: a leaf with its keywords, or a parent with named
/// children in ascending name order.
#[derive(Debug)]
pub enum TaxonomyNode {
    Leaf(Vec<String>),
    Parent(Vec<(String, TaxonomyNode)>),
}

/// The top-level categories by name, in ascending name order.
#[derive(Debug)]
pub struct Taxonomy {
    pub roots: Vec<(String, TaxonomyNode)>,
}

/// A category as classifiers and rankers consume it.
#[derive(Debug, Clone)]
pub struct FlatCategory {
    /// Names from the root to this category, joined by `" / "`.
    pub path: String,
    /// Names from the root to this category.
    pub components: Vec<String>,
    /// The category's own name.
    pub name: String,
    /// Lower-cased keywords.
    pub keywords: Vec<String>,
    /// 1 for a top-level category, 2 for its children, and so on.
    pub depth: usize,
}

/// Mathematical form of a flattened category.
pub struct FlatView {
    pub path: Seq<char>,
    pub components: Seq<Seq<char>>,
    pub name: Seq<char>,
    pub keywords: Seq<Seq<char>>,
    pub depth: nat,
}

impl View for FlatCategory {
    type V = FlatView;

    open spec fn view(&self) -> FlatView {
        FlatView {
            path: self.path@,
            components: views(self.components@),
            name: self.name@,
            keywords: views(self.keywords@),
            depth: self.depth as nat,
        }
    }
}

/// The views of a sequence of flattened categories.
pub open spec fn flat_views(v: Seq<FlatCategory>) -> Seq<FlatView> {
    v.map_values(|c: FlatCategory| c@)
}

/// The separator between names in a category path.
pub open spec fn path_sep() -> Seq<char> {
    seq![' ', '/', ' ']
}

/// The names joined by `" / "`.
pub open spec fn join_names(cs: Seq<Seq<char>>) -> Seq<char>
    decreases cs.len(),
{
    if cs.len() == 0 {
        Seq::empty()
    } else if cs.len() == 1 {
        cs[0]
    } else {
        join_names(cs.drop_last()) + path_sep() + cs.last()
    }
}

/// Keys of a child list.
pub open spec fn keys_of(ch: Seq<(String, TaxonomyNode)>) -> Seq<Seq<char>> {
    ch.map_values(|e: (String, TaxonomyNode)| e.0@)
}

/// Child names are strictly ascending at every level.
pub open spec fn node_wf(n: TaxonomyNode) -> bool
    decreases n,
{
    match n {
        TaxonomyNode::Leaf(_) => true,
        TaxonomyNode::Parent(ch) => strictly_sorted(keys_of(ch@)) && forall|i: int|
            0 <= i < ch@.len() ==> node_wf(#[trigger] ch@[i].1),
    }
}

/// Names are strictly ascending at every level.
pub open spec fn children_wf(ch: Seq<(String, TaxonomyNode)>) -> bool {
    strictly_sorted(keys_of(ch)) && forall|i: int| 0 <= i < ch.len() ==> node_wf(#[trigger] ch[i].1)
}

/// Height of a node (a leaf has height 1).
pub open spec fn node_height(n: TaxonomyNode) -> nat
    decreases n,
{
    match n {
        TaxonomyNode::Leaf(_) => 1,
        TaxonomyNode::Parent(ch) => 1 + children_height(ch@),
    }
}

/// Largest height among the children (0 for none).
pub open spec fn children_height(ch: Seq<(String, TaxonomyNode)>) -> nat
    decreases ch,
{
    if ch.len() == 0 {
        0
    } else {
        let a = children_height(ch.drop_last());
        let b = node_height(ch.last().1);
        if a >= b {
            a
        } else {
            b
        }
    }
}

/// The lower-cased keywords of every leaf below `n`, leaves in order.
pub open spec fn node_keywords(n: TaxonomyNode) -> Seq<Seq<char>>
    decreases n,
{
    match n {
        TaxonomyNode::Leaf(kws) => views(kws@).map_values(|k: Seq<char>| lowercase_of(k)),
        TaxonomyNode::Parent(ch) => children_keywords(ch@),
    }
}

/// The lower-cased keywords of every leaf below the children, in order.
pub open spec fn children_keywords(ch: Seq<(String, TaxonomyNode)>) -> Seq<Seq<char>>
    decreases ch,
{
    if ch.len() == 0 {
        Seq::empty()
    } else {
        children_keywords(ch.drop_last()) + node_keywords(ch.last().1)
    }
}

/// The ascending list of the distinct elements of `s`.
pub open spec fn sorted_set(s: Seq<Seq<char>>) -> Seq<Seq<char>> {
    choose|r: Seq<Seq<char>>| is_sorted_set_of(r, s)
}

/// The flattened category of node `n` itself, reached by the names `names`.
pub open spec fn node_category(names: Seq<Seq<char>>, n: TaxonomyNode, depth: nat) -> FlatView {
    FlatView {
        path: join_names(names),
        components: names,
        name: names.last(),
        keywords: match n {
            TaxonomyNode::Leaf(_) => node_keywords(n),
            TaxonomyNode::Parent(ch) => sorted_set(children_keywords(ch@)),
        },
        depth,
    }
}

/// Pre-order flattening of `n`: the node itself, then its children in order.
pub open spec fn flat_node(names: Seq<Seq<char>>, n: TaxonomyNode, depth: nat) -> Seq<FlatView>
    decreases n,
{
    match n {
        TaxonomyNode::Leaf(_) => seq![node_category(names, n, depth)],
        TaxonomyNode::Parent(ch) => seq![node_category(names, n, depth)] + flat_children(
            names,
            ch@,
            depth + 1,
        ),
    }
}

/// Flattening of the children, in order.
pub open spec fn flat_children(names: Seq<Seq<char>>, ch: Seq<(String, TaxonomyNode)>, depth: nat) -> Seq<FlatView>
    decreases ch,
{
    if ch.len() == 0 {
        Seq::empty()
    } else {
        flat_children(names, ch.drop_last(), depth) + flat_node(
            names.push(ch.last().0@),
            ch.last().1,
            depth,
        )
    }
}

/// Two strictly ascending lists with the same elements are equal.
pub proof fn lemma_sorted_set_unique(r1: Seq<Seq<char>>, r2: Seq<Seq<char>>)
    requires
        strictly_sorted(r1),
        strictly_sorted(r2),
        r1.to_set() == r2.to_set(),
    ensures
        r1 == r2,
    decreases r1.len(),
{
    if r1.len() == 0 {
        if r2.len() > 0 {
            assert(r2.to_set().contains(r2[0]));
        }
        assert(r1 =~= r2);
    } else if r2.len() == 0 {
        assert(r1.to_set().contains(r1[0]));
    } else {
        // The first elements are the least of the common set.
        assert(r2.to_set().contains(r1[0]));
        assert(r1.to_set().contains(r2[0]));
        let i2 = choose|i: int| 0 <= i < r2.len() && r2[i] == r1[0];
        let i1 = choose|i: int| 0 <= i < r1.len() && r1[i] == r2[0];
        if i1 > 0 && i2 > 0 {
            assert(str_less(r1[0], r1[i1]));
            assert(str_less(r2[0], r2[i2]));
            lemma_str_less_total(r1[0], r2[0]);
        }
        if i1 > 0 && i2 == 0 {
            assert(str_less(r1[0], r1[i1]));
            lemma_str_less_total(r1[0], r1[0]);
        }
        if i2 > 0 && i1 == 0 {
            assert(str_less(r2[0], r2[i2]));
            lemma_str_less_total(r2[0], r2[0]);
        }
        assert(r1[0] == r2[0]);
        let t1 = r1.drop_first();
        let t2 = r2.drop_first();
        assert(strictly_sorted(t1)) by {
            assert forall|i: int, j: int| 0 <= i < j < t1.len() implies str_less(
                #[trigger] t1[i],
                #[trigger] t1[j],
            ) by {
                assert(t1[i] == r1[i + 1]);
                assert(t1[j] == r1[j + 1]);
            }
        }
        assert(strictly_sorted(t2)) by {
            assert forall|i: int, j: int| 0 <= i < j < t2.len() implies str_less(
                #[trigger] t2[i],
                #[trigger] t2[j],
            ) by {
                assert(t2[i] == r2[i + 1]);
                assert(t2[j] == r2[j + 1]);
            }
        }
        assert(t1.to_set() =~= t2.to_set()) by {
            assert forall|e: Seq<char>| t1.to_set().contains(e) implies t2.to_set().contains(e) by {
                let k = choose|k: int| 0 <= k < t1.len() && t1[k] == e;
                assert(r1[k + 1] == e);
                assert(str_less(r1[0], r1[k + 1]));
                lemma_str_less_total(r1[0], e);
                assert(r2.to_set().contains(e));
                let m = choose|m: int| 0 <= m < r2.len() && r2[m] == e;
                assert(m != 0);
                assert(t2[m - 1] == e);
            }
            assert forall|e: Seq<char>| t2.to_set().contains(e) implies t1.to_set().contains(e) by {
                let k = choose|k: int| 0 <= k < t2.len() && t2[k] == e;
                assert(r2[k + 1] == e);
                assert(str_less(r2[0], r2[k + 1]));
                lemma_str_less_total(r2[0], e);
                assert(r1.to_set().contains(e));
                let m = choose|m: int| 0 <= m < r1.len() && r1[m] == e;
                assert(m != 0);
                assert(t1[m - 1] == e);
            }
        }
        lemma_sorted_set_unique(t1, t2);
        assert(r1 =~= seq![r1[0]] + t1);
        assert(r2 =~= seq![r2[0]] + t2);
    }
}

/// A list that satisfies `is_sorted_set_of` is the `sorted_set`.
pub proof fn lemma_is_sorted_set(r: Seq<Seq<char>>, s: Seq<Seq<char>>)
    requires
        is_sorted_set_of(r, s),
    ensures
        r == sorted_set(s),
{
    let c = sorted_set(s);
    assert(is_sorted_set_of(c, s));
    lemma_sorted_set_unique(r, c);
}

/// Every list of strings has its sorted set.
pub(crate) proof fn lemma_sorted_set_exists(s: Seq<Seq<char>>)
    ensures
        is_sorted_set_of(sorted_set(s), s),
    decreases s.len(),
{
    if s.len() == 0 {
        let e = Seq::<Seq<char>>::empty();
        assert(e.to_set() =~= s.to_set());
        assert(is_sorted_set_of(e, s));
    } else {
        let t = s.drop_last();
        let x = s.last();
        lemma_sorted_set_exists(t);
        let r0 = sorted_set(t);
        assert(s =~= t.push(x));
        assert(s.to_set() =~= t.to_set().insert(x)) by {
            assert forall|e: Seq<char>| s.to_set().contains(e) implies t.to_set().insert(x).contains(e) by {
                let k = choose|k: int| 0 <= k < s.len() && s[k] == e;
                if k < t.len() {
                    assert(t[k] == e);
                }
            }
            assert forall|e: Seq<char>| t.to_set().insert(x).contains(e) implies s.to_set().contains(e) by {
                if e == x {
                    assert(s[s.len() - 1] == x);
                } else {
                    let k = choose|k: int| 0 <= k < t.len() && t[k] == e;
                    assert(s[k] == e);
                }
            }
        }
        if r0.to_set().contains(x) {
            assert(r0.to_set().insert(x) =~= r0.to_set());
            assert(is_sorted_set_of(r0, s));
        } else {
            // Insert x before the first element above it.
            lemma_insert_position(r0, x, 0);
            let p = choose|p: int| is_insert_pos(r0, x, p);
            let r = Seq::new(r0.len() + 1, |k: int| if k < p { r0[k] } else if k == p { x } else { r0[k - 1] });
            assert forall|i: int, j: int| 0 <= i < j < r.len() implies str_less(#[trigger] r[i], #[trigger] r[j]) by {
                if j < p {
                    assert(r[i] == r0[i] && r[j] == r0[j]);
                } else if j == p {
                    assert(r[i] == r0[i]);
                } else if i < p {
                    assert(r[i] == r0[i] && r[j] == r0[j - 1]);
                    assert(str_less(r0[i], x));
                    assert(str_less(x, r0[p]));
                    lemma_str_less_trans(r0[i], x, r0[p]);
                    if j - 1 > p {
                        lemma_str_less_trans(r0[i], r0[p], r0[j - 1]);
                    }
                } else if i == p {
                    assert(r[j] == r0[j - 1]);
                    if j - 1 > p {
                        lemma_str_less_trans(x, r0[p], r0[j - 1]);
                    }
                } else {
                    assert(r[i] == r0[i - 1] && r[j] == r0[j - 1]);
                }
            }
            assert(r.to_set() =~= r0.to_set().insert(x)) by {
                assert forall|e: Seq<char>| r.to_set().contains(e) implies r0.to_set().insert(x).contains(e) by {
                    let k = choose|k: int| 0 <= k < r.len() && r[k] == e;
                    if k < p {
                        assert(r0[k] == e);
                    } else if k > p {
                        assert(r0[k - 1] == e);
                    }
                }
                assert forall|e: Seq<char>| r0.to_set().insert(x).contains(e) implies r.to_set().contains(e) by {
                    if e == x {
                        assert(r[p] == x);
                    } else {
                        let k = choose|k: int| 0 <= k < r0.len() && r0[k] == e;
                        if k < p {
                            assert(r[k] == e);
                        } else {
                            assert(r[k + 1] == e);
                        }
                    }
                }
            }
            assert(is_sorted_set_of(r, s));
        }
    }
}

/// `x` belongs at position `q` of the ascending list `r`.
spec fn is_insert_pos(r: Seq<Seq<char>>, x: Seq<char>, q: int) -> bool {
    &&& 0 <= q <= r.len()
    &&& forall|k: int| 0 <= k < q ==> str_less(#[trigger] r[k], x)
    &&& q == r.len() || str_less(x, r[q])
}

/// The first position at or after `p` whose element is not below `x`
/// exists, given that those before `p` are below it.
proof fn lemma_insert_position(r: Seq<Seq<char>>, x: Seq<char>, p: int)
    requires
        0 <= p <= r.len(),
        strictly_sorted(r),
        !r.to_set().contains(x),
        forall|k: int| 0 <= k < p ==> str_less(#[trigger] r[k], x),
    ensures
        exists|q: int| is_insert_pos(r, x, q),
    decreases r.len() - p,
{
    if p == r.len() {
        assert(is_insert_pos(r, x, p));
    } else if str_less(r[p], x) {
        lemma_insert_position(r, x, p + 1);
    } else {
        lemma_str_less_total(r[p], x);
        assert(r.to_set().contains(r[p]));
        assert(str_less(x, r[p]));
        assert(is_insert_pos(r, x, p));
    }
}

/// The keywords of a node's own category, as a set, are those of all leaves
/// below it.
proof fn lemma_category_keywords(names: Seq<Seq<char>>, n: TaxonomyNode, depth: nat)
    ensures
        node_category(names, n, depth).keywords.to_set() == node_keywords(n).to_set(),
{
    match n {
        TaxonomyNode::Leaf(_) => {},
        TaxonomyNode::Parent(ch) => {
            lemma_sorted_set_exists(children_keywords(ch@));
        },
    }
}

/// The keywords below child `i` are among those below all the children.
proof fn lemma_child_keywords_in(ch: Seq<(String, TaxonomyNode)>, i: int)
    requires
        0 <= i < ch.len(),
    ensures
        node_keywords(ch[i].1).to_set().subset_of(children_keywords(ch).to_set()),
    decreases ch.len(),
{
    let a = children_keywords(ch.drop_last());
    let b = node_keywords(ch.last().1);
    assert(children_keywords(ch) == a + b);
    if i == ch.len() - 1 {
        assert forall|e: Seq<char>| b.to_set().contains(e) implies (a + b).to_set().contains(e) by {
            let k = choose|k: int| 0 <= k < b.len() && b[k] == e;
            assert((a + b)[a.len() + k] == e);
        }
    } else {
        lemma_child_keywords_in(ch.drop_last(), i);
        assert(ch.drop_last()[i] == ch[i]);
        assert forall|e: Seq<char>| a.to_set().contains(e) implies (a + b).to_set().contains(e) by {
            let k = choose|k: int| 0 <= k < a.len() && a[k] == e;
            assert((a + b)[k] == e);
        }
    }
}

/// A parent category's keywords include every keyword of each of its
/// children: a parent matches whatever any category below it matches.
pub proof fn lemma_parent_keywords_include_child(names: Seq<Seq<char>>, n: TaxonomyNode, i: int, depth: nat)
    requires
        n is Parent,
        0 <= i < n->Parent_0@.len(),
    ensures
        ({
            let ch = n->Parent_0@;
            node_category(names.push(ch[i].0@), ch[i].1, depth + 1).keywords.to_set().subset_of(
                node_category(names, n, depth).keywords.to_set(),
            )
        }),
{
    let ch = n->Parent_0@;
    lemma_category_keywords(names.push(ch[i].0@), ch[i].1, depth + 1);
    lemma_category_keywords(names, n, depth);
    lemma_child_keywords_in(ch, i);
}

// ---------------------------------------------------------------------------
// Shape of the flattening
// ---------------------------------------------------------------------------

/// A flattened category's fields agree with its names: it has at least one
/// name, its depth is the number of names, its path is the names joined by
/// `" / "`, and its own name is the last of them.
pub open spec fn entry_shape(c: FlatView) -> bool {
    &&& c.components.len() >= 1
    &&& c.depth == c.components.len()
    &&& c.path == join_names(c.components)
    &&& c.name == c.components.last()
}

/// `cs` starts with the names `names`.
pub open spec fn extends(names: Seq<Seq<char>>, cs: Seq<Seq<char>>) -> bool {
    names.len() <= cs.len() && cs.subrange(0, names.len() as int) == names
}

/// Entry `k` has its parent category, the entry with all its names but the
/// last, somewhere before it.
pub open spec fn parent_before(cats: Seq<FlatView>, k: int) -> bool {
    exists|i: int| 0 <= i < k && (#[trigger] cats[i]).components == cats[k].components.drop_last()
}

/// `x` is the name of one of the children.
pub open spec fn is_child_name(ch: Seq<(String, TaxonomyNode)>, x: Seq<char>) -> bool {
    exists|c: int| 0 <= c < ch.len() && (#[trigger] ch[c]).0@ == x
}

proof fn lemma_flat_node_shape(names: Seq<Seq<char>>, n: TaxonomyNode, depth: nat)
    requires
        depth == names.len(),
        names.len() >= 1,
    ensures
        ({
            let s = flat_node(names, n, depth);
            &&& s.len() >= 1
            &&& s[0].components == names
            &&& forall|k: int| 0 <= k < s.len() ==> entry_shape(#[trigger] s[k]) && extends(names, s[k].components)
            &&& forall|k: int| 0 < k < s.len() ==> (#[trigger] s[k]).components.len() > names.len()
            &&& forall|k: int| 0 <= k < s.len() && (#[trigger] s[k]).components.len() > names.len() ==> parent_before(s, k)
        }),
    decreases n,
{
    let s = flat_node(names, n, depth);
    match n {
        TaxonomyNode::Leaf(_) => {
            assert(names.subrange(0, names.len() as int) =~= names);
        },
        TaxonomyNode::Parent(ch) => {
            let head = node_category(names, n, depth);
            let rest = flat_children(names, ch@, depth + 1);
            lemma_flat_children_shape(names, ch@, depth + 1);
            assert(s == seq![head] + rest);
            assert(names.subrange(0, names.len() as int) =~= names);
            assert forall|k: int| 0 <= k < s.len() implies entry_shape(#[trigger] s[k]) && extends(names, s[k].components) by {
                if k > 0 {
                    assert(s[k] == rest[k - 1]);
                }
            }
            assert forall|k: int| 0 < k < s.len() implies (#[trigger] s[k]).components.len() > names.len() by {
                assert(s[k] == rest[k - 1]);
            }
            assert forall|k: int| 0 <= k < s.len() && (#[trigger] s[k]).components.len() > names.len() implies parent_before(s, k) by {
                assert(s[k] == rest[k - 1]);
                let cs = s[k].components;
                if cs.len() > names.len() + 1 {
                    assert(parent_before(rest, k - 1));
                    let i = choose|i: int| 0 <= i < k - 1 && (#[trigger] rest[i]).components == rest[k - 1].components.drop_last();
                    assert(s[i + 1] == rest[i]);
                } else {
                    assert(cs.drop_last() =~= cs.subrange(0, names.len() as int));
                    assert(s[0] == head);
                }
            }
        },
    }
}

proof fn lemma_flat_children_shape(names: Seq<Seq<char>>, ch: Seq<(String, TaxonomyNode)>, depth: nat)
    requires
        depth == names.len() + 1,
    ensures
        ({
            let s = flat_children(names, ch, depth);
            &&& forall|k: int| 0 <= k < s.len() ==> {
                &&& entry_shape(#[trigger] s[k])
                &&& extends(names, s[k].components)
                &&& s[k].components.len() > names.len()
                &&& is_child_name(ch, s[k].components[names.len() as int])
            }
            &&& forall|k: int| 0 <= k < s.len() && (#[trigger] s[k]).components.len() > names.len() + 1 ==> parent_before(s, k)
        }),
    decreases ch,
{
    if ch.len() > 0 {
        let a = flat_children(names, ch.drop_last(), depth);
        let key = ch.last().0@;
        let names2 = names.push(key);
        let b = flat_node(names2, ch.last().1, depth);
        let s = flat_children(names, ch, depth);
        lemma_flat_children_shape(names, ch.drop_last(), depth);
        lemma_flat_node_shape(names2, ch.last().1, depth);
        assert(s == a + b);
        assert forall|k: int| 0 <= k < s.len() implies {
            &&& entry_shape(#[trigger] s[k])
            &&& extends(names, s[k].components)
            &&& s[k].components.len() > names.len()
            &&& is_child_name(ch, s[k].components[names.len() as int])
        } by {
            if k < a.len() {
                assert(s[k] == a[k]);
                let c = choose|c: int| 0 <= c < ch.drop_last().len() && (#[trigger] ch.drop_last()[c]).0@ == a[k].components[names.len() as int];
                assert(ch.drop_last()[c] == ch[c]);
            } else {
                assert(s[k] == b[k - a.len()]);
                let cs = b[k - a.len()].components;
                assert(extends(names2, cs));
                assert(cs.subrange(0, names.len() as int) =~= cs.subrange(0, names2.len() as int).subrange(0, names.len() as int));
                assert(names2.subrange(0, names.len() as int) =~= names);
                assert(cs[names.len() as int] == cs.subrange(0, names2.len() as int)[names.len() as int]);
                assert(ch[ch.len() - 1] == ch.last());
            }
        }
        assert forall|k: int| 0 <= k < s.len() && (#[trigger] s[k]).components.len() > names.len() + 1 implies parent_before(s, k) by {
            if k < a.len() {
                assert(s[k] == a[k]);
                assert(parent_before(a, k));
                let i = choose|i: int| 0 <= i < k && (#[trigger] a[i]).components == a[k].components.drop_last();
                assert(s[i] == a[i]);
            } else {
                let kb = k - a.len();
                assert(s[k] == b[kb]);
                assert(b[kb].components.len() > names2.len());
                assert(parent_before(b, kb));
                let i = choose|i: int| 0 <= i < kb && (#[trigger] b[i]).components == b[kb].components.drop_last();
                assert(s[i + a.len()] == b[i]);
            }
        }
    }
}

/// The shape of every flattened category: it has at least one name, its
/// depth is the number of its names, its path is the names joined by
/// `" / "`, and its own name is the last one. The flattening is in
/// pre-order: a category below the top level comes after its parent.
pub proof fn lemma_flatten_shape(t: Taxonomy, k: int)
    requires
        0 <= k < flat_taxonomy(t).len(),
    ensures
        entry_shape(flat_taxonomy(t)[k]),
        flat_taxonomy(t)[k].components.len() == 1 ==> is_child_name(t.roots@, flat_taxonomy(t)[k].name),
        flat_taxonomy(t)[k].components.len() > 1 ==> parent_before(flat_taxonomy(t), k),
{
    lemma_flat_children_shape(Seq::empty(), t.roots@, 1);
    let s = flat_taxonomy(t);
    assert(s[k].components.len() > 0);
    assert(s[k].components[0] == s[k].components.last() || s[k].components.len() > 1);
}

proof fn lemma_flat_node_once(names: Seq<Seq<char>>, n: TaxonomyNode, depth: nat)
    requires
        depth == names.len(),
        names.len() >= 1,
        node_wf(n),
    ensures
        ({
            let s = flat_node(names, n, depth);
            forall|i: int, j: int| 0 <= i < j < s.len() ==> (#[trigger] s[i]).components != (#[trigger] s[j]).components
        }),
    decreases n,
{
    let s = flat_node(names, n, depth);
    lemma_flat_node_shape(names, n, depth);
    match n {
        TaxonomyNode::Leaf(_) => {},
        TaxonomyNode::Parent(ch) => {
            let rest = flat_children(names, ch@, depth + 1);
            lemma_flat_children_once(names, ch@, depth + 1);
            assert(s == seq![node_category(names, n, depth)] + rest);
            assert forall|i: int, j: int| 0 <= i < j < s.len() implies (#[trigger] s[i]).components != (#[trigger] s[j]).components by {
                assert(s[j] == rest[j - 1]);
                if i > 0 {
                    assert(s[i] == rest[i - 1]);
                }
            }
        },
    }
}

proof fn lemma_flat_children_once(names: Seq<Seq<char>>, ch: Seq<(String, TaxonomyNode)>, depth: nat)
    requires
        depth == names.len() + 1,
        children_wf(ch),
    ensures
        ({
            let s = flat_children(names, ch, depth);
            forall|i: int, j: int| 0 <= i < j < s.len() ==> (#[trigger] s[i]).components != (#[trigger] s[j]).components
        }),
    decreases ch,
{
    if ch.len() > 0 {
        let pre = ch.drop_last();
        let a = flat_children(names, pre, depth);
        let key = ch.last().0@;
        let names2 = names.push(key);
        let b = flat_node(names2, ch.last().1, depth);
        let s = flat_children(names, ch, depth);
        assert(keys_of(pre) =~= keys_of(ch).drop_last());
        assert forall|i: int| 0 <= i < pre.len() implies node_wf(#[trigger] pre[i].1) by {
            assert(pre[i] == ch[i]);
        }
        assert(node_wf(ch[ch.len() - 1].1));
        lemma_flat_children_once(names, pre, depth);
        lemma_flat_node_once(names2, ch.last().1, depth);
        lemma_flat_children_shape(names, pre, depth);
        lemma_flat_node_shape(names2, ch.last().1, depth);
        assert(s == a + b);
        assert forall|i: int, j: int| 0 <= i < j < s.len() implies (#[trigger] s[i]).components != (#[trigger] s[j]).components by {
            if j < a.len() {
                assert(s[i] == a[i] && s[j] == a[j]);
            } else if i >= a.len() {
                assert(s[i] == b[i - a.len()] && s[j] == b[j - a.len()]);
            } else {
                assert(s[i] == a[i] && s[j] == b[j - a.len()]);
                let ci = a[i].components;
                let cj = b[j - a.len()].components;
                let c = choose|c: int| 0 <= c < pre.len() && (#[trigger] pre[c]).0@ == ci[names.len() as int];
                assert(pre[c] == ch[c]);
                assert(keys_of(ch)[c] == ch[c].0@);
                assert(keys_of(ch)[ch.len() - 1] == key);
                assert(str_less(keys_of(ch)[c], keys_of(ch)[ch.len() - 1]));
                lemma_str_less_total(key, key);
                assert(extends(names2, cj));
                assert(cj[names.len() as int] == cj.subrange(0, names2.len() as int)[names.len() as int]);
                assert(cj[names.len() as int] == key);
                assert(ci[names.len() as int] != cj[names.len() as int]);
            }
        }
    }
}

/// In a well-formed taxonomy every category is flattened once: no two
/// entries have the same names.
pub proof fn lemma_flatten_once(t: Taxonomy, i: int, j: int)
    requires
        t.wf(),
        0 <= i < j < flat_taxonomy(t).len(),
    ensures
        flat_taxonomy(t)[i].components != flat_taxonomy(t)[j].components,
{
    lemma_flat_children_once(Seq::empty(), t.roots@, 1);
}

// ---------------------------------------------------------------------------
// Executable flattening
// ---------------------------------------------------------------------------

/// Appends the lower-cased keywords of every leaf below `node` to `out`.
fn collect_keywords(node: &TaxonomyNode, out: &mut Vec<String>)
    ensures
        views(final(out)@) == views(old(out)@) + node_keywords(*node),
    decreases node,
{
    match node {
        TaxonomyNode::Leaf(kw) => {
            let low = lowercase_all(kw);
            let mut i: usize = 0;
            let ghost start = views(out@);
            while i < low.len()
                invariant
                    i <= low.len(),
                    low@.len() == kw@.len(),
                    forall|k: int| 0 <= k < kw@.len() ==> #[trigger] low@[k]@ == lowercase_of(kw@[k]@),
                    views(out@) == start + views(kw@).map_values(|k: Seq<char>| lowercase_of(k)).take(i as int),
                decreases low.len() - i,
            {
                let ghost before = views(out@);
                out.push(copy_string(&low[i]));
                assert(views(out@) =~= before.push(low@[i as int]@));
                assert(views(kw@).map_values(|k: Seq<char>| lowercase_of(k)).take(i + 1)
                    =~= views(kw@).map_values(|k: Seq<char>| lowercase_of(k)).take(i as int).push(low@[i as int]@));
                assert(views(out@) =~= start + views(kw@).map_values(|k: Seq<char>| lowercase_of(k)).take(i + 1));
                i = i + 1;
            }
            assert(views(kw@).map_values(|k: Seq<char>| lowercase_of(k)).take(low.len() as int)
                =~= views(kw@).map_values(|k: Seq<char>| lowercase_of(k)));
        },
        TaxonomyNode::Parent(children) => {
            let ghost start = views(out@);
            let mut i: usize = 0;
            while i < children.len()
                invariant
                    i <= children.len(),
                    *node == TaxonomyNode::Parent(*children),
                    views(out@) == start + children_keywords(children@.take(i as int)),
                decreases children.len() - i,
            {
                proof {
                    vstd::std_specs::vec::axiom_vec_index_decreases(*children, i as int);
                    assert(decreases_to!(*node => (*node)->Parent_0));
                    assert(decreases_to!(*children => children[i as int]));
                    assert(decreases_to!(children[i as int] => children[i as int].1));
                }
                assert(decreases_to!(*node => children@[i as int].1));
                collect_keywords(&children[i].1, out);
                assert(children@.take(i + 1).drop_last() =~= children@.take(i as int));
                assert(views(out@) =~= start + children_keywords(children@.take(i + 1)));
                i = i + 1;
            }
            assert(children@.take(children.len() as int) =~= children@);
        },
    }
}

/// The names joined by `" / "`.
pub fn join_with_sep(cs: &Vec<String>) -> (r: String)
    ensures
        r@ == join_names(views(cs@)),
{
    let mut out = String::new();
    let mut i: usize = 0;
    proof {
        reveal_strlit(" / ");
    }
    assert(" / "@ =~= path_sep());
    while i < cs.len()
        invariant
            i <= cs.len(),
            out@ == join_names(views(cs@).take(i as int)),
            " / "@ == path_sep(),
        decreases cs.len() - i,
    {
        assert(views(cs@).take(i + 1).drop_last() =~= views(cs@).take(i as int));
        if i == 0 {
            out = copy_string(&cs[0]);
        } else {
            let a = concat_str(out.as_str(), " / ");
            out = concat_str(a.as_str(), cs[i].as_str());
        }
        i = i + 1;
    }
    assert(views(cs@).take(cs.len() as int) =~= views(cs@));
    out
}

/// Appends the pre-order flattening of `node`, reached by the names
/// `path`, to `out`.
fn walk(node: &TaxonomyNode, path: Vec<String>, out: &mut Vec<FlatCategory>, depth: usize)
    requires
        path@.len() > 0,
        depth + node_height(*node) <= usize::MAX,
    ensures
        flat_views(final(out)@) == flat_views(old(out)@) + flat_node(views(path@), *node, depth as nat),
    decreases node,
{
    let name = copy_string(&path[path.len() - 1]);
    assert(views(path@).last() == name@);
    let joined = join_with_sep(&path);
    match node {
        TaxonomyNode::Leaf(keywords) => {
            let mut kws: Vec<String> = Vec::new();
            collect_keywords(node, &mut kws);
            assert(views(kws@) =~= node_keywords(*node));
            let cat = FlatCategory { path: joined, components: path, name, keywords: kws, depth };
            out.push(cat);
            assert(flat_views(final(out)@) =~= flat_views(old(out)@) + flat_node(
                views(path@),
                *node,
                depth as nat,
            ));
        },
        TaxonomyNode::Parent(children) => {
            let mut all: Vec<String> = Vec::new();
            let mut i: usize = 0;
            while i < children.len()
                invariant
                    i <= children.len(),
                    *node == TaxonomyNode::Parent(*children),
                    views(all@) == children_keywords(children@.take(i as int)),
                decreases children.len() - i,
            {
                proof {
                    vstd::std_specs::vec::axiom_vec_index_decreases(*children, i as int);
                    assert(decreases_to!(*node => (*node)->Parent_0));
                    assert(decreases_to!(*children => children[i as int]));
                    assert(decreases_to!(children[i as int] => children[i as int].1));
                }
                assert(decreases_to!(*node => children@[i as int].1));
                collect_keywords(&children[i].1, &mut all);
                assert(children@.take(i + 1).drop_last() =~= children@.take(i as int));
                i = i + 1;
            }
            assert(children@.take(children.len() as int) =~= children@);
            let kws = sort_dedup_strings(all);
            proof {
                lemma_is_sorted_set(views(kws@), children_keywords(children@));
            }
            let comps = copy_strings(&path);
            let cat = FlatCategory { path: joined, components: comps, name, keywords: kws, depth };
            out.push(cat);
            let ghost mid = flat_views(out@);
            assert(mid =~= flat_views(old(out)@) + seq![node_category(views(path@), *node, depth as nat)]);
            proof {
                lemma_children_height(children@);
            }
            let mut j: usize = 0;
            while j < children.len()
                invariant
                    j <= children.len(),
                    *node == TaxonomyNode::Parent(*children),
                    path@.len() > 0,
                    depth + node_height(*node) <= usize::MAX,
                    node_height(*node) == 1 + children_height(children@),
                    forall|k: int| 0 <= k < children@.len() ==> node_height(#[trigger] children@[k].1) <= children_height(children@),
                    flat_views(out@) == mid + flat_children(views(path@), children@.take(j as int), depth as nat + 1),
                decreases children.len() - j,
            {
                let mut child_path = copy_strings(&path);
                child_path.push(copy_string(&children[j].0));
                assert(views(child_path@) =~= views(path@).push(children@[j as int].0@));
                assert(node_height(children@[j as int].1) <= children_height(children@));
                proof {
                    vstd::std_specs::vec::axiom_vec_index_decreases(*children, j as int);
                }
                assert(decreases_to!(*node => children@[j as int].1));
                walk(&children[j].1, child_path, out, depth + 1);
                assert(children@.take(j + 1).drop_last() =~= children@.take(j as int));
                assert(children@.take(j + 1).last() == children@[j as int]);
                assert(flat_views(out@) =~= mid + flat_children(views(path@), children@.take(j + 1), depth as nat + 1));
                j = j + 1;
            }
            assert(children@.take(children.len() as int) =~= children@);
            assert(flat_views(out@) =~= flat_views(old(out)@) + flat_node(views(path@), *node, depth as nat));
        },
    }
}

proof fn lemma_children_height(ch: Seq<(String, TaxonomyNode)>)
    ensures
        forall|k: int| 0 <= k < ch.len() ==> node_height(#[trigger] ch[k].1) <= children_height(ch),
    decreases ch.len(),
{
    if ch.len() > 0 {
        lemma_children_height(ch.drop_last());
        assert forall|k: int| 0 <= k < ch.len() implies node_height(#[trigger] ch[k].1) <= children_height(ch) by {
            if k < ch.len() - 1 {
                assert(ch.drop_last()[k] == ch[k]);
            }
        }
    }
}

/// Height of the tallest root.
pub open spec fn taxonomy_height(t: Taxonomy) -> nat {
    children_height(t.roots@)
}

/// Pre-order flattening of every root, roots in order, at depth 1.
pub open spec fn flat_taxonomy(t: Taxonomy) -> Seq<FlatView> {
    flat_children(Seq::empty(), t.roots@, 1)
}

/// The first flattened category whose path is `p`.
pub open spec fn find_flat(cats: Seq<FlatView>, p: Seq<char>) -> Option<FlatView>
    decreases cats.len(),
{
    if cats.len() == 0 {
        None
    } else if cats[0].path == p {
        Some(cats[0])
    } else {
        find_flat(cats.drop_first(), p)
    }
}

impl Taxonomy {
    /// Root names are strictly ascending at every level.
    pub open spec fn wf(&self) -> bool {
        children_wf(self.roots@)
    }

    /// Every category, leaf and parent, flattened in pre-order: a category
    /// comes before its children; names ascend at each level. A leaf's
    /// keywords are its own, lower-cased; a parent's are the distinct
    /// lower-cased keywords of all leaves below it, in ascending order.
    pub fn flatten(&self) -> (r: Vec<FlatCategory>)
        requires
            self.wf(),
            taxonomy_height(*self) < usize::MAX,
        ensures
            flat_views(r@) == flat_taxonomy(*self),
    {
        let mut out: Vec<FlatCategory> = Vec::new();
        proof {
            lemma_children_height(self.roots@);
        }
        let mut i: usize = 0;
        while i < self.roots.len()
            invariant
                i <= self.roots.len(),
                taxonomy_height(*self) < usize::MAX,
                forall|k: int| 0 <= k < self.roots@.len() ==> node_height(#[trigger] self.roots@[k].1) <= children_height(self.roots@),
                flat_views(out@) == flat_children(Seq::empty(), self.roots@.take(i as int), 1),
            decreases self.roots.len() - i,
        {
            let mut path: Vec<String> = Vec::new();
            path.push(copy_string(&self.roots[i].0));
            assert(views(path@) =~= Seq::<Seq<char>>::empty().push(self.roots@[i as int].0@));
            assert(node_height(self.roots@[i as int].1) <= children_height(self.roots@));
            walk(&self.roots[i].1, path, &mut out, 1);
            assert(self.roots@.take(i + 1).drop_last() =~= self.roots@.take(i as int));
            i = i + 1;
        }
        assert(self.roots@.take(self.roots.len() as int) =~= self.roots@);
        out
    }

    /// The flattened category whose path is `path`, if any.
    pub fn find(&self, path: &str) -> (r: Option<FlatCategory>)
        requires
            self.wf(),
            taxonomy_height(*self) < usize::MAX,
        ensures
            match r {
                Some(c) => find_flat(flat_taxonomy(*self), path@) == Some(c@),
                None => find_flat(flat_taxonomy(*self), path@) is None,
            },
    {
        let mut all = self.flatten();
        let ghost cats = flat_views(all@);
        let target = String::from_str(path);
        let mut i: usize = 0;
        assert(cats.skip(0) =~= cats);
        while i < all.len()
            invariant
                i <= all.len(),
                cats == flat_views(all@),
                cats == flat_taxonomy(*self),
                target@ == path@,
                find_flat(cats, path@) == find_flat(cats.skip(i as int), path@),
            decreases all.len() - i,
        {
            assert(cats.skip(i as int)[0] == all@[i as int]@);
            if all[i].path == target {
                let c = all.remove(i);
                return Some(c);
            }
            assert(cats.skip(i as int).drop_first() =~= cats.skip(i + 1));
            i = i + 1;
        }
        None
    }
}

/// A leaf with the given keywords.
fn leaf(words: &[&str]) -> (r: TaxonomyNode)
    ensures
        r is Leaf,
        views(r->Leaf_0@) == words@.map_values(|w: &str| w@),
{
    let mut out: Vec<String> = Vec::new();
    let mut i: usize = 0;
    while i < words.len()
        invariant
            i <= words@.len(),
            views(out@) == words@.map_values(|w: &str| w@).take(i as int),
        decreases words@.len() - i,
    {
        let ghost before = views(out@);
        out.push(String::from_str(words[i]));
        assert(views(out@) =~= before.push(words@[i as int]@));
        assert(words@.map_values(|w: &str| w@).take(i + 1) =~= words@.map_values(|w: &str| w@).take(i as int).push(words@[i as int]@));
        i = i + 1;
    }
    assert(words@.map_values(|w: &str| w@).take(words@.len() as int) =~= words@.map_values(|w: &str| w@));
    TaxonomyNode::Leaf(out)
}


/// A named entry.
fn named(name: &str, node: TaxonomyNode) -> (r: (String, TaxonomyNode))
    ensures
        r.0@ == name@,
        r.1 == node,
{
    (String::from_str(name), node)
}

/// The keywords of a leaf, as written.
pub open spec fn leaf_words(n: TaxonomyNode) -> Seq<Seq<char>> {
    match n {
        TaxonomyNode::Leaf(k) => views(k@),
        TaxonomyNode::Parent(_) => Seq::empty(),
    }
}

/// Entry `i` of `ch` is a leaf named `name` with keywords `words`.
pub open spec fn is_leaf_entry(ch: Seq<(String, TaxonomyNode)>, i: int, name: Seq<char>, words: Seq<Seq<char>>) -> bool {
    &&& ch[i].0@ == name
    &&& ch[i].1 is Leaf
    &&& leaf_words(ch[i].1) =~= words
}

/// The taxonomy that ships with the application.
pub open spec fn is_bundled(t: Taxonomy) -> bool {
    let r = t.roots@;
    &&& r.len() == 1
    &&& r[0].0@ == "Drums"@
    &&& r[0].1 is Parent
    &&& {
        let d = r[0].1->Parent_0@;
        &&& d.len() == 6
        &&& is_leaf_entry(d, 0, "Cymbals"@, seq!["cymbal"@, "cymbals"@, "crash"@, "ride"@, "splash"@, "china"@, "cym"@])
        &&& is_leaf_entry(
            d,
            1,
            "Hats"@,
            seq!["hat"@, "hats"@, "hihat"@, "hihats"@, "hh"@, "ch"@, "oh"@, "openhat"@, "closedhat"@],
        )
        &&& is_leaf_entry(
            d,
            2,
            "Kicks & Bassdrums"@,
            seq!["kick"@, "kicks"@, "kik"@, "kck"@, "bd"@, "bassdrum"@, "bassdrums"@],
        )
        &&& is_leaf_entry(
            d,
            3,
            "Percussion"@,
            seq![
                "perc"@, "percussion"@, "shaker"@, "shakers"@, "conga"@, "congas"@, "bongo"@, "bongos"@,
                "tamb"@, "tambourine"@, "cowbell"@, "clave"@, "claves"@, "guiro"@, "woodblock"@, "triangle"@,
            ],
        )
        &&& d[4].0@ == "Snares, Claps, & Rims"@
        &&& d[4].1 is Parent
        &&& {
            let c = d[4].1->Parent_0@;
            &&& c.len() == 3
            &&& is_leaf_entry(c, 0, "Claps"@, seq!["clap"@, "claps"@, "clp"@, "handclap"@, "snap"@, "snaps"@])
            &&& is_leaf_entry(c, 1, "Rims"@, seq!["rim"@, "rims"@, "rimshot"@, "sidestick"@, "stick"@, "rimclick"@])
            &&& is_leaf_entry(c, 2, "Snares"@, seq!["snare"@, "snares"@, "snr"@, "sd"@, "sn"@])
        }
        &&& is_leaf_entry(
            d,
            5,
            "Toms"@,
            seq!["tom"@, "toms"@, "floortom"@, "racktom"@, "lowtom"@, "midtom"@, "hitom"@],
        )
    }
}

impl Taxonomy {
    /// The taxonomy that ships with the application: a `Drums` root with
    /// kicks, snares/claps/rims, hats, cymbals, toms and percussion below it.
    /// Names ascend at every level, and it is three levels deep.
    pub fn default_bundled() -> (r: Result<Taxonomy, ScanError>)
        ensures
            r matches Ok(t) && is_bundled(t) && t.wf() && taxonomy_height(t) == 3,
    {
        let claps = named("Claps", leaf(&["clap", "claps", "clp", "handclap", "snap", "snaps"]));
        let rims = named("Rims", leaf(&["rim", "rims", "rimshot", "sidestick", "stick", "rimclick"]));
        let snares = named("Snares", leaf(&["snare", "snares", "snr", "sd", "sn"]));
        let ghost g_scr = seq![claps, rims, snares];
        let mut scr: Vec<(String, TaxonomyNode)> = Vec::new();
        scr.push(claps);
        scr.push(rims);
        scr.push(snares);
        assert(scr@ =~= g_scr);
        let cymbals = named("Cymbals", leaf(&["cymbal", "cymbals", "crash", "ride", "splash", "china", "cym"]));
        let hats = named("Hats", leaf(&["hat", "hats", "hihat", "hihats", "hh", "ch", "oh", "openhat", "closedhat"]));
        let kicks = named("Kicks & Bassdrums", leaf(&["kick", "kicks", "kik", "kck", "bd", "bassdrum", "bassdrums"]));
        let perc = named("Percussion", leaf(&["perc", "percussion", "shaker", "shakers", "conga", "congas", "bongo", "bongos", "tamb", "tambourine", "cowbell", "clave", "claves", "guiro", "woodblock", "triangle"]));
        let toms = named("Toms", leaf(&["tom", "toms", "floortom", "racktom", "lowtom", "midtom", "hitom"]));
        let snares_group = named("Snares, Claps, & Rims", TaxonomyNode::Parent(scr));
        let ghost g_drums = seq![cymbals, hats, kicks, perc, snares_group, toms];
        let mut drums: Vec<(String, TaxonomyNode)> = Vec::new();
        drums.push(cymbals);
        drums.push(hats);
        drums.push(kicks);
        drums.push(perc);
        drums.push(snares_group);
        drums.push(toms);
        assert(drums@ =~= g_drums);
        let mut roots: Vec<(String, TaxonomyNode)> = Vec::new();
        roots.push(named("Drums", TaxonomyNode::Parent(drums)));
        let t = Taxonomy { roots };
        proof {
            reveal_strlit("Claps");
            reveal_strlit("Rims");
            reveal_strlit("Snares");
            reveal_strlit("Cymbals");
            reveal_strlit("Hats");
            reveal_strlit("Kicks & Bassdrums");
            reveal_strlit("Percussion");
            reveal_strlit("Snares, Claps, & Rims");
            reveal_strlit("Toms");
            reveal_strlit("Drums");
            let sk = keys_of(scr@);
            assert(sk =~= seq!["Claps"@, "Rims"@, "Snares"@]);
            assert(strictly_sorted(sk)) by {
                assert forall|i: int, j: int| 0 <= i < j < sk.len() implies str_less(
                    #[trigger] sk[i],
                    #[trigger] sk[j],
                ) by {
                    assert(sk[i][0] != sk[j][0]);
                }
            }
            assert forall|i: int| 0 <= i < scr@.len() implies node_wf(#[trigger] scr@[i].1) by {
                assert(scr@[i].1 is Leaf);
            }
            assert(node_wf(TaxonomyNode::Parent(scr)));
            let dk = keys_of(drums@);
            assert(dk =~= seq!["Cymbals"@, "Hats"@, "Kicks & Bassdrums"@, "Percussion"@,
                "Snares, Claps, & Rims"@, "Toms"@]);
            assert(strictly_sorted(dk)) by {
                assert forall|i: int, j: int| 0 <= i < j < dk.len() implies str_less(
                    #[trigger] dk[i],
                    #[trigger] dk[j],
                ) by {
                    assert(dk[i][0] != dk[j][0]);
                }
            }
            assert forall|i: int| 0 <= i < drums@.len() implies node_wf(#[trigger] drums@[i].1) by {
                if i == 4 {
                    assert(drums@[4].1 == TaxonomyNode::Parent(scr));
                }
            }
            assert(node_wf(TaxonomyNode::Parent(drums)));
            let rk = keys_of(t.roots@);
            assert(rk =~= seq!["Drums"@]);
            assert(t.wf());
            reveal_with_fuel(children_height, 7);
            assert(children_height(scr@) == 1);
            assert(node_height(TaxonomyNode::Parent(scr)) == 2);
            assert(children_height(drums@) == 2);
            assert(taxonomy_height(t) == 3);
            assert(t.roots@[0].1 == TaxonomyNode::Parent(drums));
            assert(drums@[4].1 == TaxonomyNode::Parent(scr));
            assert(is_bundled(t));
        }
        Ok(t)
    }
}

} // verus!
