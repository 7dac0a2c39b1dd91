//! Paths as the bytes that the operating system holds (Unix).
//!
//! A [`StorePath`] keeps the text of a path exactly as it was given.  Its
//! components are read the way std's `Path::components` documents it:
//! repeated separators are ignored, `.` is dropped except at the start of a
//! relative path, and a trailing separator means nothing.  Each component is
//! written as the bytes it stands for: `/` for the root, `.` for the current
//! directory, `..` for the parent directory, the name for any other.

use vstd::prelude::*;
use crate::text::{byte_pieces, lemma_byte_pieces_push, split_bytes, split_seq};

verus! {

/// A Unix path, as its bytes.
#[derive(Debug)]
pub struct StorePath {
    pub bytes: Vec<u8>,
}

impl View for StorePath {
    type V = Seq<u8>;

    open spec fn view(&self) -> Seq<u8> {
        self.bytes@
    }
}

/// The root component `/`.
pub open spec fn is_root(c: Seq<u8>) -> bool {
    c == seq![47u8]
}

/// The current-directory component `.`.
pub open spec fn is_cur(c: Seq<u8>) -> bool {
    c == seq![46u8]
}

/// The parent-directory component `..`.
pub open spec fn is_parent(c: Seq<u8>) -> bool {
    c == seq![46u8, 46u8]
}

/// A component that names a file or directory.
pub open spec fn is_normal(c: Seq<u8>) -> bool {
    !is_root(c) && !is_cur(c) && !is_parent(c)
}

/// Every component names a file or directory (no root, `.` or `..`).
pub open spec fn all_normal(p: Seq<Seq<u8>>) -> bool {
    forall|i: int| 0 <= i < p.len() ==> is_normal(#[trigger] p[i])
}

/// The pieces of `pieces` with `sep` between neighbours.
pub open spec fn join_with(pieces: Seq<Seq<u8>>, sep: u8) -> Seq<u8>
    decreases pieces.len(),
{
    if pieces.len() == 0 {
        Seq::empty()
    } else if pieces.len() == 1 {
        pieces[0]
    } else {
        join_with(pieces.drop_last(), sep) + seq![sep] + pieces.last()
    }
}

/// The `/`-separated pieces of the text of a path.
pub open spec fn path_pieces(raw: Seq<u8>) -> Seq<Seq<u8>> {
    split_seq(raw, 47u8)
}

/// A piece that gives a component after the start: neither empty nor `.`.
pub open spec fn is_kept(piece: Seq<u8>) -> bool {
    piece.len() > 0 && piece != seq![46u8]
}

/// The positions of the pieces that give components after the start.
pub open spec fn kept_indices(pieces: Seq<Seq<u8>>) -> Seq<int>
    decreases pieces.len(),
{
    if pieces.len() == 0 {
        Seq::empty()
    } else {
        let k = kept_indices(pieces.drop_last());
        if is_kept(pieces.last()) {
            k.push(pieces.len() - 1)
        } else {
            k
        }
    }
}

/// The path starts at the root.
pub open spec fn has_root(raw: Seq<u8>) -> bool {
    raw.len() > 0 && raw[0] == 47
}

/// A relative path that starts with the component `.`.
pub open spec fn has_cur(raw: Seq<u8>) -> bool {
    !has_root(raw) && raw.len() > 0 && raw[0] == 46 && (raw.len() == 1 || raw[1] == 47)
}

/// The component that the start of the path gives: the root, a leading
/// `.`, or none.
pub open spec fn lead(raw: Seq<u8>) -> Seq<Seq<u8>> {
    if has_root(raw) {
        seq![seq![47u8]]
    } else if has_cur(raw) {
        seq![seq![46u8]]
    } else {
        Seq::empty()
    }
}

/// The components of the path `raw`.
pub open spec fn components_of(raw: Seq<u8>) -> Seq<Seq<u8>> {
    let ps = path_pieces(raw);
    lead(raw) + kept_indices(ps).map_values(|i: int| ps[i])
}

/// The text of the pieces `from` to `to` of `raw`.
pub open spec fn piece_text(raw: Seq<u8>, from: int, to: int) -> Seq<u8> {
    join_with(path_pieces(raw).subrange(from, to), 47u8)
}

/// The text of `raw` from its `j`-th component after the start through its
/// last component; empty when there is no such component.
pub open spec fn text_from(raw: Seq<u8>, j: int) -> Seq<u8> {
    let k = kept_indices(path_pieces(raw));
    if j >= k.len() {
        Seq::empty()
    } else {
        piece_text(raw, k[j], k.last() + 1)
    }
}

/// `rel` resolved against `base`, as std's `Path::join` does on Unix: an
/// absolute `rel` replaces `base`; otherwise `rel` follows `base`, with a
/// separator between them when `base` is non-empty and does not end with one.
pub open spec fn join_raw(base: Seq<u8>, rel: Seq<u8>) -> Seq<u8> {
    if has_root(rel) {
        rel
    } else if base.len() > 0 && base.last() != 47 {
        base + seq![47u8] + rel
    } else {
        base + rel
    }
}

/// The rest of `p` after the components of `base`, when `p` starts with
/// them, as std's `Path::strip_prefix` gives it: the text of `p` from the
/// first remaining component through the last, or, when `base` has no
/// components and `p` has a root or leading `.`, `p` up to its last component.
pub open spec fn strip_raw(p: Seq<u8>, base: Seq<u8>) -> Option<Seq<u8>> {
    let cp = components_of(p);
    let cb = components_of(base);
    let m = cb.len() as int;
    let l = lead(p).len() as int;
    let k = kept_indices(path_pieces(p));
    if !(m <= cp.len() && cp.take(m) == cb) {
        None
    } else if m >= l {
        Some(text_from(p, m - l))
    } else if k.len() == 0 {
        Some(lead(p)[0])
    } else {
        Some(piece_text(p, 0, k.last() + 1))
    }
}

/// The directory that holds `p`, as std's `Path::parent` gives it: `p` up
/// to the component before its last, when the last is not the root.
pub open spec fn parent_raw(p: Seq<u8>) -> Option<Seq<u8>> {
    let k = kept_indices(path_pieces(p));
    if k.len() >= 2 {
        Some(piece_text(p, 0, k[k.len() - 2] + 1))
    } else if k.len() == 1 {
        if lead(p).len() == 1 {
            Some(lead(p)[0])
        } else {
            Some(Seq::empty())
        }
    } else if has_cur(p) {
        Some(Seq::empty())
    } else {
        None
    }
}

/// The positions of the kept pieces lie inside `pieces`, in increasing order,
/// and each names a kept piece.
pub proof fn lemma_kept_indices(pieces: Seq<Seq<u8>>)
    ensures
        forall|j: int| 0 <= j < kept_indices(pieces).len() ==> 0 <= #[trigger] kept_indices(pieces)[j] < pieces.len()
            && is_kept(pieces[kept_indices(pieces)[j]]),
        forall|i: int, j: int| 0 <= i < j < kept_indices(pieces).len() ==> kept_indices(pieces)[i] < kept_indices(pieces)[j],
    decreases pieces.len(),
{
    if pieces.len() > 0 {
        lemma_kept_indices(pieces.drop_last());
        let k = kept_indices(pieces.drop_last());
        assert forall|j: int| 0 <= j < k.len() implies pieces[k[j]] == pieces.drop_last()[k[j]] by {}
    }
}

/// Joining the pieces of a split gives back the text.
pub proof fn lemma_join_split(s: Seq<u8>, sep: u8)
    ensures
        join_with(split_seq(s, sep), sep) == s,
        split_seq(s, sep).len() >= 1,
    decreases s.len(),
{
    if s.len() == 0 {
        assert(join_with(split_seq(s, sep), sep) =~= s);
    } else {
        let t = s.drop_last();
        let r = split_seq(t, sep);
        lemma_join_split(t, sep);
        if s.last() == sep {
            let r2 = r.push(Seq::<u8>::empty());
            assert(r2.drop_last() =~= r);
            assert(join_with(r2, sep) =~= s);
        } else {
            let r2 = r.update(r.len() - 1, r.last().push(s.last()));
            if r.len() == 1 {
                assert(join_with(r2, sep) =~= s);
            } else {
                assert(r2.drop_last() =~= r.drop_last());
                let a = join_with(r.drop_last(), sep);
                assert(t == a + seq![sep] + r.last());
                assert(r2.last() == r.last().push(s.last()));
                assert(join_with(r2, sep) == a + seq![sep] + r.last().push(s.last()));
                assert(s =~= t.push(s.last()));
                assert(join_with(r2, sep) =~= s);
            }
        }
    }
}

/// The first piece of a split is the text before the first separator, and
/// there is more than one piece exactly when a separator occurs.
proof fn lemma_split_first(s: Seq<u8>, sep: u8, p: int)
    requires
        0 <= p <= s.len(),
        forall|j: int| 0 <= j < p ==> s[j] != sep,
        p < s.len() ==> s[p] == sep,
    ensures
        split_seq(s, sep)[0] == s.take(p),
        p < s.len() ==> split_seq(s, sep).len() >= 2,
        p == s.len() ==> split_seq(s, sep).len() == 1,
    decreases s.len(),
{
    if s.len() == 0 {
        assert(s.take(p) =~= Seq::<u8>::empty());
    } else {
        let t = s.drop_last();
        if p < t.len() {
            lemma_split_first(t, sep, p);
            assert(t.take(p) =~= s.take(p));
        } else {
            lemma_split_first(t, sep, t.len() as int);
            assert(t.take(t.len() as int) =~= t);
            if p == t.len() {
                assert(s.take(p) =~= t);
            } else {
                assert(s.take(p) =~= s);
                assert(t.push(s.last()) =~= s);
            }
        }
    }
}

proof fn lemma_join_grows(ps: Seq<Seq<u8>>, c1: int, c2: int)
    requires
        1 <= c1 <= c2 <= ps.len(),
    ensures
        join_with(ps.take(c1), 47u8).len() + (c2 - c1) <= join_with(ps.take(c2), 47u8).len(),
        join_with(ps.take(c2), 47u8).len() >= ps[c2 - 1].len(),
    decreases c2,
{
    let t = ps.take(c2);
    if c2 == 1 {
        assert(t.len() == 1);
    } else {
        assert(t.drop_last() =~= ps.take(c2 - 1));
        assert(t.last() == ps[c2 - 1]);
        if c1 < c2 {
            lemma_join_grows(ps, c1, c2 - 1);
        }
    }
}

/// A parent is shorter than its child.
pub proof fn lemma_parent_shorter(p: Seq<u8>)
    ensures
        parent_raw(p) matches Some(q) ==> q.len() < p.len(),
{
    let ps = path_pieces(p);
    let k = kept_indices(ps);
    lemma_kept_indices(ps);
    lemma_join_split(p, 47u8);
    assert(ps.take(ps.len() as int) =~= ps);
    if k.len() >= 2 {
        let c1 = k[k.len() - 2] + 1;
        let c2 = k[k.len() - 1] + 1;
        assert(ps.subrange(0, c1) =~= ps.take(c1));
        lemma_join_grows(ps, c1, c2);
        lemma_join_grows(ps, c2, ps.len() as int);
    } else if k.len() == 1 {
        let c = k[0] + 1;
        lemma_join_grows(ps, c, ps.len() as int);
        lemma_join_grows(ps, c, c);
        if has_root(p) {
            lemma_split_first(p, 47u8, 0);
            assert(p.take(0) =~= Seq::<u8>::empty());
            assert(k[0] >= 1);
            assert(ps.take(c).drop_last() =~= ps.take(c - 1));
        } else if has_cur(p) {
            lemma_split_first(p, 47u8, 1);
            assert(p.take(1) =~= seq![46u8]);
            assert(k[0] >= 1);
            assert(ps.take(c).drop_last() =~= ps.take(c - 1));
        }
    }
}

/// Whether two byte strings are equal.
pub fn bytes_equal(a: &[u8], b: &[u8]) -> (r: bool)
    ensures
        r == (a@ == b@),
{
    if a.len() != b.len() {
        return false;
    }
    let mut i: usize = 0;
    while i < a.len()
        invariant
            a@.len() == b@.len(),
            i <= a@.len(),
            forall|j: int| 0 <= j < i ==> a@[j] == b@[j],
        decreases a@.len() - i,
    {
        if a[i] != b[i] {
            return false;
        }
        i += 1;
    }
    assert(a@ =~= b@);
    true
}

fn is_root_component(c: &Vec<u8>) -> (r: bool)
    ensures
        r == is_root(c@),
{
    let root: [u8; 1] = [47];
    assert(root@ =~= seq![47u8]);
    bytes_equal(c.as_slice(), &root)
}

fn is_cur_component(c: &Vec<u8>) -> (r: bool)
    ensures
        r == is_cur(c@),
{
    let cur: [u8; 1] = [46];
    assert(cur@ =~= seq![46u8]);
    bytes_equal(c.as_slice(), &cur)
}

fn is_parent_component(c: &Vec<u8>) -> (r: bool)
    ensures
        r == is_parent(c@),
{
    let parent: [u8; 2] = [46, 46];
    assert(parent@ =~= seq![46u8, 46u8]);
    bytes_equal(c.as_slice(), &parent)
}

fn single_byte(b: u8) -> (r: Vec<u8>)
    ensures
        r@ == seq![b],
{
    let mut v: Vec<u8> = Vec::new();
    v.push(b);
    assert(v@ =~= seq![b]);
    v
}

fn copy_bytes(b: &[u8]) -> (r: Vec<u8>)
    ensures
        r@ == b@,
{
    vstd::slice::slice_to_vec(b)
}

fn append_bytes(out: &mut Vec<u8>, b: &[u8])
    ensures
        final(out)@ == old(out)@ + b@,
{
    let ghost start = out@;
    let mut i: usize = 0;
    while i < b.len()
        invariant
            i <= b@.len(),
            out@ =~= start + b@.take(i as int),
        decreases b@.len() - i,
    {
        out.push(b[i]);
        i += 1;
    }
    assert(b@.take(b@.len() as int) =~= b@);
}

/// `pieces[from..to]` separated by `/` (see [`join_with`]).
fn join_range(pieces: &Vec<Vec<u8>>, from: usize, to: usize) -> (r: Vec<u8>)
    requires
        from <= to <= pieces@.len(),
    ensures
        r@ == join_with(byte_pieces(pieces@).subrange(from as int, to as int), 47u8),
{
    let ghost all = byte_pieces(pieces@).subrange(from as int, to as int);
    let mut out: Vec<u8> = Vec::new();
    let mut k: usize = from;
    assert(all.take(0) =~= Seq::<Seq<u8>>::empty());
    while k < to
        invariant
            from <= k <= to <= pieces@.len(),
            all == byte_pieces(pieces@).subrange(from as int, to as int),
            out@ == join_with(all.take(k - from), 47u8),
        decreases to - k,
    {
        let ghost prefix = all.take(k - from + 1);
        assert(prefix.drop_last() =~= all.take(k - from));
        assert(prefix.last() == pieces@[k as int]@);
        let ghost before = out@;
        if k > from {
            out.push(47);
        }
        append_bytes(&mut out, pieces[k].as_slice());
        if k == from {
            assert(prefix.len() == 1);
            assert(out@ =~= prefix[0]);
        } else {
            assert(out@ =~= before + seq![47u8] + pieces@[k as int]@);
        }
        k += 1;
    }
    assert(all.take(to - from) =~= all);
    out
}

/// The positions of the kept pieces of `pieces` (see [`kept_indices`]).
fn kept(pieces: &Vec<Vec<u8>>) -> (r: Vec<usize>)
    ensures
        r@.map_values(|x: usize| x as int) == kept_indices(byte_pieces(pieces@)),
{
    let ghost ps = byte_pieces(pieces@);
    let mut out: Vec<usize> = Vec::new();
    let mut i: usize = 0;
    assert(ps.take(0) =~= Seq::<Seq<u8>>::empty());
    assert(out@.map_values(|x: usize| x as int) =~= Seq::<int>::empty());
    while i < pieces.len()
        invariant
            ps == byte_pieces(pieces@),
            i <= ps.len(),
            out@.map_values(|x: usize| x as int) == kept_indices(ps.take(i as int)),
        decreases ps.len() - i,
    {
        let ghost p1 = ps.take(i as int + 1);
        assert(p1.drop_last() =~= ps.take(i as int));
        assert(p1.last() == pieces@[i as int]@);
        let ghost before = out@;
        let piece = &pieces[i];
        let dot: [u8; 1] = [46];
        assert(dot@ =~= seq![46u8]);
        if piece.len() > 0 && !bytes_equal(piece.as_slice(), &dot) {
            out.push(i);
            assert(out@.map_values(|x: usize| x as int) =~= before.map_values(|x: usize| x as int).push(i as int));
        }
        i += 1;
    }
    assert(ps.take(ps.len() as int) =~= ps);
    out
}

impl StorePath {
    /// The path with the given bytes.
    pub fn from_bytes(bytes: &[u8]) -> (r: StorePath)
        ensures
            r@ == bytes@,
    {
        StorePath { bytes: copy_bytes(bytes) }
    }

    /// A copy of this path.
    pub fn duplicate(&self) -> (r: StorePath)
        ensures
            r@ == self@,
    {
        StorePath { bytes: copy_bytes(self.bytes.as_slice()) }
    }

    /// Whether the path starts at the root.
    pub fn is_absolute(&self) -> (r: bool)
        ensures
            r == has_root(self@),
    {
        self.bytes.len() > 0 && self.bytes[0] == 47
    }

    fn starts_with_cur(&self) -> (r: bool)
        ensures
            r == has_cur(self@),
    {
        !self.is_absolute() && self.bytes.len() > 0 && self.bytes[0] == 46 && (self.bytes.len() == 1
            || self.bytes[1] == 47)
    }

    /// The components of this path (see [`components_of`]).
    pub fn components(&self) -> (r: Vec<Vec<u8>>)
        ensures
            byte_pieces(r@) == components_of(self@),
    {
        let pieces = split_bytes(self.bytes.as_slice(), 47);
        let ghost ps = path_pieces(self@);
        let k = kept(&pieces);
        let ghost kk = kept_indices(ps);
        proof { lemma_kept_indices(ps); }
        let mut out: Vec<Vec<u8>> = Vec::new();
        if self.is_absolute() {
            let c = single_byte(47);
            proof { lemma_byte_pieces_push(out@, c); }
            out.push(c);
        } else if self.starts_with_cur() {
            let c = single_byte(46);
            proof { lemma_byte_pieces_push(out@, c); }
            out.push(c);
        }
        assert(byte_pieces(out@) =~= lead(self@));
        let mut j: usize = 0;
        while j < k.len()
            invariant
                byte_pieces(pieces@) == ps,
                ps == path_pieces(self@),
                k@.map_values(|x: usize| x as int) == kk,
                kk == kept_indices(ps),
                forall|t: int| 0 <= t < kk.len() ==> 0 <= #[trigger] kk[t] < ps.len(),
                j <= k@.len(),
                byte_pieces(out@) =~= lead(self@) + kk.take(j as int).map_values(|i: int| ps[i]),
            decreases k@.len() - j,
        {
            assert(kk[j as int] == k@[j as int] as int);
            let c = copy_bytes(pieces[k[j]].as_slice());
            proof { lemma_byte_pieces_push(out@, c); }
            out.push(c);
            assert(kk.take(j as int + 1).map_values(|i: int| ps[i]) =~= kk.take(j as int).map_values(|i: int| ps[i]).push(ps[kk[j as int]]));
            j += 1;
        }
        assert(kk.take(kk.len() as int) =~= kk);
        out
    }

    /// Whether every component names a file or directory.
    pub fn all_normal(&self) -> (r: bool)
        ensures
            r == all_normal(components_of(self@)),
    {
        let comps = self.components();
        let ghost c = components_of(self@);
        let mut i: usize = 0;
        while i < comps.len()
            invariant
                c == components_of(self@),
                byte_pieces(comps@) == c,
                i <= c.len(),
                forall|j: int| 0 <= j < i ==> is_normal(#[trigger] c[j]),
            decreases c.len() - i,
        {
            let x = &comps[i];
            assert(c[i as int] == x@);
            if is_root_component(x) || is_cur_component(x) || is_parent_component(x) {
                return false;
            }
            i += 1;
        }
        true
    }

    /// `rel` resolved against this path (see [`join_raw`]).
    pub fn join(&self, rel: &StorePath) -> (r: StorePath)
        ensures
            r@ == join_raw(self@, rel@),
    {
        if rel.is_absolute() {
            return rel.duplicate();
        }
        let mut out = copy_bytes(self.bytes.as_slice());
        let n = self.bytes.len();
        if n > 0 && self.bytes[n - 1] != 47 {
            out.push(47);
        }
        append_bytes(&mut out, rel.bytes.as_slice());
        StorePath { bytes: out }
    }

    /// The rest of this path after the components of `base`, when it starts
    /// with them (see [`strip_raw`]).
    pub fn strip_prefix(&self, base: &StorePath) -> (r: Option<StorePath>)
        ensures
            r matches Some(rest) ==> strip_raw(self@, base@) == Some(rest@),
            r is None ==> strip_raw(self@, base@) is None,
    {
        let cp = self.components();
        let cb = base.components();
        let ghost vp = components_of(self@);
        let ghost vb = components_of(base@);
        let m = cb.len();
        if m > cp.len() {
            return None;
        }
        let mut i: usize = 0;
        while i < m
            invariant
                vp == components_of(self@),
                vb == components_of(base@),
                byte_pieces(cp@) == vp,
                byte_pieces(cb@) == vb,
                m == vb.len(),
                m <= vp.len(),
                i <= m,
                forall|j: int| 0 <= j < i ==> vp[j] == vb[j],
            decreases m - i,
        {
            if !bytes_equal(cp[i].as_slice(), cb[i].as_slice()) {
                assert(vp.take(m as int)[i as int] != vb[i as int]);
                return None;
            }
            i += 1;
        }
        assert(vp.take(m as int) =~= vb);
        let pieces = split_bytes(self.bytes.as_slice(), 47);
        let ghost ps = path_pieces(self@);
        let k = kept(&pieces);
        let ghost kk = kept_indices(ps);
        proof { lemma_kept_indices(ps); }
        let plen = pieces.len();
        assert(ps.len() == plen);
        assert(forall|t: int| 0 <= t < k@.len() ==> k@[t] as int == kk[t]);
        let l: usize = if self.is_absolute() || self.starts_with_cur() { 1 } else { 0 };
        assert(l == lead(self@).len());
        if m >= l {
            let j = m - l;
            if j >= k.len() {
                return Some(StorePath { bytes: Vec::new() });
            }
            let from = k[j];
            assert(kk[k@.len() - 1] < plen);
            let to = k[k.len() - 1] + 1;
            assert(from as int == kk[j as int]);
            assert(to as int == kk.last() + 1);
            assert(kk[j as int] <= kk.last());
            Some(StorePath { bytes: join_range(&pieces, from, to) })
        } else if k.len() == 0 {
            if self.is_absolute() {
                Some(StorePath { bytes: single_byte(47) })
            } else {
                Some(StorePath { bytes: single_byte(46) })
            }
        } else {
            assert(kk[k@.len() - 1] < plen);
            let to = k[k.len() - 1] + 1;
            assert(to as int == kk.last() + 1);
            Some(StorePath { bytes: join_range(&pieces, 0, to) })
        }
    }

    /// The directory that holds this path (see [`parent_raw`]).
    pub fn parent(&self) -> (r: Option<StorePath>)
        ensures
            r matches Some(p) ==> parent_raw(self@) == Some(p@),
            r is None ==> parent_raw(self@) is None,
    {
        let pieces = split_bytes(self.bytes.as_slice(), 47);
        let ghost ps = path_pieces(self@);
        let k = kept(&pieces);
        let ghost kk = kept_indices(ps);
        proof { lemma_kept_indices(ps); }
        let n = k.len();
        if n >= 2 {
            assert(kk[n - 2] == k@[n - 2] as int);
            assert(kk[n - 2] < ps.len());
            let plen = pieces.len();
            assert(ps.len() == plen);
            let to = k[n - 2] + 1;
            assert(to as int == kk[n - 2] + 1);
            Some(StorePath { bytes: join_range(&pieces, 0, to) })
        } else if n == 1 {
            if self.is_absolute() {
                Some(StorePath { bytes: single_byte(47) })
            } else if self.starts_with_cur() {
                Some(StorePath { bytes: single_byte(46) })
            } else {
                Some(StorePath { bytes: Vec::new() })
            }
        } else if self.starts_with_cur() {
            Some(StorePath { bytes: Vec::new() })
        } else {
            None
        }
    }

    /// The bytes of this path.
    pub fn render(&self) -> (r: Vec<u8>)
        ensures
            r@ == self@,
    {
        copy_bytes(self.bytes.as_slice())
    }
}

} // verus!
