//! The order of paths: component by component, as std orders `Path`s.

use vstd::prelude::*;
use vstd::relations::{total_ordering, sorted_by};
use crate::path::{StorePath, is_root, is_cur, is_parent, components_of};
use crate::text::byte_pieces;
use crate::loaded::path_views;

verus! {

/// Byte strings in lexicographic order: the first differing byte decides,
/// and a proper prefix comes first.
pub open spec fn bytes_lt(a: Seq<u8>, b: Seq<u8>) -> bool
    decreases a.len(),
{
    if a.len() == 0 {
        b.len() > 0
    } else if b.len() == 0 {
        false
    } else if a[0] != b[0] {
        a[0] < b[0]
    } else {
        bytes_lt(a.drop_first(), b.drop_first())
    }
}

/// The kind of a component, in the order of std's `Component`: the root,
/// then `.`, then `..`, then names.
pub open spec fn component_rank(c: Seq<u8>) -> int {
    if is_root(c) {
        0
    } else if is_cur(c) {
        1
    } else if is_parent(c) {
        2
    } else {
        3
    }
}

/// Components ordered by kind, names by their bytes.
pub open spec fn component_lt(a: Seq<u8>, b: Seq<u8>) -> bool {
    component_rank(a) < component_rank(b) || (component_rank(a) == 3 && component_rank(b) == 3
        && bytes_lt(a, b))
}

/// Paths in lexicographic order of their components.
pub open spec fn path_lt(a: Seq<Seq<u8>>, b: Seq<Seq<u8>>) -> bool
    decreases a.len(),
{
    if a.len() == 0 {
        b.len() > 0
    } else if b.len() == 0 {
        false
    } else if a[0] != b[0] {
        component_lt(a[0], b[0])
    } else {
        path_lt(a.drop_first(), b.drop_first())
    }
}

/// Paths in the order in which std compares `Path`s, by their components;
/// two different texts with the same components (such as `a/b` and `a//b`)
/// come in the order of their bytes.
pub open spec fn raw_lt(a: Seq<u8>, b: Seq<u8>) -> bool {
    path_lt(components_of(a), components_of(b)) || (components_of(a) == components_of(b) && bytes_lt(a, b))
}

/// `a` comes no later than `b`.
pub open spec fn raw_le(a: Seq<u8>, b: Seq<u8>) -> bool {
    a == b || raw_lt(a, b)
}

/// The order of paths as a relation.
pub open spec fn path_order() -> spec_fn(Seq<u8>, Seq<u8>) -> bool {
    |a: Seq<u8>, b: Seq<u8>| raw_le(a, b)
}

proof fn lemma_same_head_tail<A>(a: Seq<A>, b: Seq<A>)
    requires
        a.len() > 0,
        b.len() > 0,
        a[0] == b[0],
        a.drop_first() == b.drop_first(),
    ensures
        a == b,
{
    assert(a.drop_first().len() == a.len() - 1);
    assert(b.drop_first().len() == b.len() - 1);
    assert(a.drop_first().len() == b.drop_first().len());
    assert(a.len() == b.len());
    assert forall|i: int| 0 <= i < a.len() implies a[i] == b[i] by {
        if i > 0 {
            assert(a[i] == a.drop_first()[i - 1]);
            assert(b[i] == b.drop_first()[i - 1]);
        }
    }
    assert(a =~= b);
}

proof fn lemma_bytes_lt_irreflexive(a: Seq<u8>)
    ensures
        !bytes_lt(a, a),
    decreases a.len(),
{
    if a.len() > 0 {
        lemma_bytes_lt_irreflexive(a.drop_first());
    }
}

proof fn lemma_bytes_lt_strict(a: Seq<u8>, b: Seq<u8>)
    ensures
        !(bytes_lt(a, b) && bytes_lt(b, a)),
        a != b ==> bytes_lt(a, b) || bytes_lt(b, a),
        !bytes_lt(a, a),
    decreases a.len(),
{
    lemma_bytes_lt_irreflexive(a);
    if a.len() > 0 && b.len() > 0 {
        lemma_bytes_lt_strict(a.drop_first(), b.drop_first());
        if a[0] == b[0] && a.drop_first() == b.drop_first() {
            lemma_same_head_tail(a, b);
        }
    } else if a.len() == 0 && b.len() == 0 {
        assert(a =~= b);
    }
}

proof fn lemma_bytes_lt_transitive(a: Seq<u8>, b: Seq<u8>, c: Seq<u8>)
    requires
        bytes_lt(a, b),
        bytes_lt(b, c),
    ensures
        bytes_lt(a, c),
    decreases a.len(),
{
    if a.len() > 0 && a[0] == b[0] && b[0] == c[0] {
        lemma_bytes_lt_transitive(a.drop_first(), b.drop_first(), c.drop_first());
    }
}

proof fn lemma_component_lt_strict(a: Seq<u8>, b: Seq<u8>)
    ensures
        !(component_lt(a, b) && component_lt(b, a)),
        a != b ==> component_lt(a, b) || component_lt(b, a),
        !component_lt(a, a),
{
    lemma_bytes_lt_strict(a, b);
    if a != b && component_rank(a) == component_rank(b) && component_rank(a) < 3 {
        assert(a =~= b);
    }
}

proof fn lemma_component_lt_transitive(a: Seq<u8>, b: Seq<u8>, c: Seq<u8>)
    requires
        component_lt(a, b),
        component_lt(b, c),
    ensures
        component_lt(a, c),
{
    if component_rank(a) == 3 && component_rank(b) == 3 && component_rank(c) == 3 {
        lemma_bytes_lt_transitive(a, b, c);
    }
}

proof fn lemma_path_lt_irreflexive(a: Seq<Seq<u8>>)
    ensures
        !path_lt(a, a),
    decreases a.len(),
{
    if a.len() > 0 {
        lemma_path_lt_irreflexive(a.drop_first());
    }
}

proof fn lemma_path_lt_strict(a: Seq<Seq<u8>>, b: Seq<Seq<u8>>)
    ensures
        !(path_lt(a, b) && path_lt(b, a)),
        a != b ==> path_lt(a, b) || path_lt(b, a),
        !path_lt(a, a),
    decreases a.len(),
{
    lemma_path_lt_irreflexive(a);
    if a.len() > 0 && b.len() > 0 {
        lemma_component_lt_strict(a[0], b[0]);
        lemma_path_lt_strict(a.drop_first(), b.drop_first());
        if a[0] == b[0] && a.drop_first() == b.drop_first() {
            lemma_same_head_tail(a, b);
        }
    } else if a.len() == 0 && b.len() == 0 {
        assert(a =~= b);
    }
}

proof fn lemma_path_lt_transitive(a: Seq<Seq<u8>>, b: Seq<Seq<u8>>, c: Seq<Seq<u8>>)
    requires
        path_lt(a, b),
        path_lt(b, c),
    ensures
        path_lt(a, c),
    decreases a.len(),
{
    if a.len() > 0 && b.len() > 0 && c.len() > 0 {
        if a[0] == b[0] && b[0] == c[0] {
            lemma_path_lt_transitive(a.drop_first(), b.drop_first(), c.drop_first());
        } else if a[0] != b[0] && b[0] != c[0] {
            lemma_component_lt_transitive(a[0], b[0], c[0]);
            if a[0] == c[0] {
                lemma_component_lt_strict(a[0], b[0]);
            }
        } else if a[0] == b[0] {
        } else {
        }
    }
}

proof fn lemma_raw_lt_strict(a: Seq<u8>, b: Seq<u8>)
    ensures
        !(raw_lt(a, b) && raw_lt(b, a)),
        a != b ==> raw_lt(a, b) || raw_lt(b, a),
        !raw_lt(a, a),
{
    lemma_path_lt_strict(components_of(a), components_of(b));
    lemma_bytes_lt_strict(a, b);
}

proof fn lemma_raw_lt_transitive(a: Seq<u8>, b: Seq<u8>, c: Seq<u8>)
    requires
        raw_lt(a, b),
        raw_lt(b, c),
    ensures
        raw_lt(a, c),
{
    let (x, y, z) = (components_of(a), components_of(b), components_of(c));
    if path_lt(x, y) && path_lt(y, z) {
        lemma_path_lt_transitive(x, y, z);
    } else if x == y && y == z {
        lemma_bytes_lt_transitive(a, b, c);
    }
}

/// The order of paths is a total order.
pub proof fn lemma_path_order_total()
    ensures
        total_ordering(path_order()),
{
    let r = path_order();
    assert forall|x: Seq<u8>| #[trigger] r(x, x) by {}
    assert forall|x: Seq<u8>, y: Seq<u8>| #[trigger] r(x, y) && #[trigger] r(y, x) implies x == y by {
        lemma_raw_lt_strict(x, y);
    }
    assert forall|x: Seq<u8>, y: Seq<u8>, z: Seq<u8>| #[trigger] r(x, y) && #[trigger] r(y, z) implies r(x, z) by {
        if x != y && y != z {
            lemma_raw_lt_transitive(x, y, z);
        }
    }
    assert forall|x: Seq<u8>, y: Seq<u8>| #[trigger] r(x, y) || #[trigger] r(y, x) by {
        lemma_raw_lt_strict(x, y);
    }
}

fn bytes_less(a: &[u8], b: &[u8]) -> (r: bool)
    ensures
        r == bytes_lt(a@, b@),
{
    let mut i: usize = 0;
    assert(a@.skip(0) =~= a@);
    assert(b@.skip(0) =~= b@);
    loop
        invariant
            i <= a@.len(),
            i <= b@.len(),
            bytes_lt(a@, b@) == bytes_lt(a@.skip(i as int), b@.skip(i as int)),
        decreases a@.len() - i,
    {
        if i == a.len() {
            assert(a@.skip(i as int).len() == 0);
            return i < b.len();
        }
        if i == b.len() {
            assert(b@.skip(i as int).len() == 0);
            return false;
        }
        assert(a@.skip(i as int)[0] == a@[i as int]);
        assert(b@.skip(i as int)[0] == b@[i as int]);
        if a[i] != b[i] {
            return a[i] < b[i];
        }
        assert(a@.skip(i as int).drop_first() =~= a@.skip(i as int + 1));
        assert(b@.skip(i as int).drop_first() =~= b@.skip(i as int + 1));
        i += 1;
    }
}

fn rank(c: &Vec<u8>) -> (r: u8)
    ensures
        r as int == component_rank(c@),
{
    let root: [u8; 1] = [47];
    let cur: [u8; 1] = [46];
    let parent: [u8; 2] = [46, 46];
    assert(root@ =~= seq![47u8]);
    assert(cur@ =~= seq![46u8]);
    assert(parent@ =~= seq![46u8, 46u8]);
    if crate::path::bytes_equal(c.as_slice(), &root) {
        0
    } else if crate::path::bytes_equal(c.as_slice(), &cur) {
        1
    } else if crate::path::bytes_equal(c.as_slice(), &parent) {
        2
    } else {
        3
    }
}

fn component_less(a: &Vec<u8>, b: &Vec<u8>) -> (r: bool)
    ensures
        r == component_lt(a@, b@),
{
    let ra = rank(a);
    let rb = rank(b);
    ra < rb || (ra == 3 && rb == 3 && bytes_less(a.as_slice(), b.as_slice()))
}

fn components_less(a: &Vec<Vec<u8>>, b: &Vec<Vec<u8>>) -> (r: bool)
    ensures
        r == path_lt(byte_pieces(a@), byte_pieces(b@)),
{
    let ghost x = byte_pieces(a@);
    let ghost y = byte_pieces(b@);
    let mut i: usize = 0;
    assert(x.skip(0) =~= x);
    assert(y.skip(0) =~= y);
    loop
        invariant
            x == byte_pieces(a@),
            y == byte_pieces(b@),
            i <= x.len(),
            i <= y.len(),
            path_lt(x, y) == path_lt(x.skip(i as int), y.skip(i as int)),
        decreases x.len() - i,
    {
        if i == a.len() {
            assert(x.skip(i as int).len() == 0);
            return i < b.len();
        }
        if i == b.len() {
            assert(y.skip(i as int).len() == 0);
            return false;
        }
        assert(x.skip(i as int)[0] == a@[i as int]@);
        assert(y.skip(i as int)[0] == b@[i as int]@);
        if !crate::path::bytes_equal(a[i].as_slice(), b[i].as_slice()) {
            return component_less(&a[i], &b[i]);
        }
        assert(x.skip(i as int).drop_first() =~= x.skip(i as int + 1));
        assert(y.skip(i as int).drop_first() =~= y.skip(i as int + 1));
        i += 1;
    }
}

/// Whether `a` comes before `b` in the order of paths (see [`raw_lt`]).
pub fn path_less(a: &StorePath, b: &StorePath) -> (r: bool)
    ensures
        r == raw_lt(a@, b@),
{
    let ca = a.components();
    let cb = b.components();
    proof { lemma_path_lt_strict(components_of(a@), components_of(b@)); }
    if components_less(&ca, &cb) {
        true
    } else if components_less(&cb, &ca) {
        false
    } else {
        bytes_less(a.bytes.as_slice(), b.bytes.as_slice())
    }
}

proof fn lemma_empty_to_multiset<A>(s: Seq<A>)
    requires
        s.len() == 0,
    ensures
        s.to_multiset() =~= vstd::multiset::Multiset::<A>::empty(),
{
    vstd::seq_lib::to_multiset_len(s);
    vstd::multiset::lemma_multiset_empty_len(s.to_multiset());
}

proof fn lemma_views_insert(v: Seq<StorePath>, i: int, x: StorePath)
    requires
        0 <= i <= v.len(),
    ensures
        path_views(v.insert(i, x)) =~= path_views(v).insert(i, x@),
{
}

/// `files` in the order of paths: the same paths, each no later than the
/// next, which is the one such arrangement.
pub fn sort_paths(files: Vec<StorePath>) -> (r: Vec<StorePath>)
    ensures
        path_views(r@) == path_views(files@).sort_by(path_order()),
{
    proof { lemma_path_order_total(); }
    let ghost input = path_views(files@);
    let ghost order = path_order();
    let mut rest = files;
    let mut out: Vec<StorePath> = Vec::new();
    assert(path_views(out@) =~= Seq::<Seq<u8>>::empty());
    proof { lemma_empty_to_multiset(path_views(out@)); }
    assert(path_views(out@).to_multiset().add(path_views(rest@).to_multiset()) =~= input.to_multiset());
    while rest.len() > 0
        invariant
            order == path_order(),
            total_ordering(order),
            path_views(out@).to_multiset().add(path_views(rest@).to_multiset()) == input.to_multiset(),
            sorted_by(path_views(out@), order),
        decreases rest@.len(),
    {
        let ghost old_rest = rest@;
        let x = rest.pop().unwrap();
        assert(old_rest =~= rest@.push(x));
        assert(path_views(old_rest) =~= path_views(rest@).push(x@));
        let ghost g = path_views(out@);
        let mut p: usize = 0;
        while p < out.len() && !path_less(&x, &out[p])
            invariant
                g == path_views(out@),
                p <= out@.len(),
                forall|j: int| 0 <= j < p ==> !raw_lt(x@, #[trigger] g[j]),
            decreases out@.len() - p,
        {
            p += 1;
        }
        assert(p < g.len() ==> raw_lt(x@, g[p as int]));
        proof { lemma_views_insert(out@, p as int, x); }
        let ghost xv = x@;
        out.insert(p, x);
        let ghost h = path_views(out@);
        assert(h =~= g.insert(p as int, xv));
        assert forall|i: int, j: int| 0 <= i < j < h.len() implies #[trigger] order(h[i], h[j]) by {
            if j < p {
                assert(h[i] == g[i] && h[j] == g[j]);
            } else if i > p {
                assert(h[i] == g[i - 1] && h[j] == g[j - 1]);
            } else if i == p {
                assert(h[j] == g[j - 1]);
                assert(order(xv, g[p as int]));
                if j - 1 > p {
                    assert(order(g[p as int], g[j - 1]));
                }
            } else if j == p {
                assert(h[i] == g[i]);
                assert(!raw_lt(xv, g[i]));
                lemma_raw_lt_strict(xv, g[i]);
            } else {
                assert(i < p < j);
                assert(h[i] == g[i] && h[j] == g[j - 1]);
            }
        }
        proof {
            vstd::seq_lib::to_multiset_insert(g, p as int, xv);
            vstd::seq_lib::to_multiset_build(path_views(rest@), xv);
        }
        assert(h.to_multiset() =~= g.to_multiset().insert(xv));
        assert(path_views(old_rest).to_multiset() =~= path_views(rest@).to_multiset().insert(xv));
        assert(h.to_multiset().add(path_views(rest@).to_multiset()) =~= input.to_multiset());
    }
    assert(path_views(rest@) =~= Seq::<Seq<u8>>::empty());
    proof { lemma_empty_to_multiset(path_views(rest@)); }
    assert(path_views(out@).to_multiset() =~= input.to_multiset());
    proof {
        input.lemma_sort_by_ensures(order);
        vstd::seq_lib::lemma_sorted_unique(path_views(out@), input.sort_by(order), order);
    }
    out
}

} // verus!
