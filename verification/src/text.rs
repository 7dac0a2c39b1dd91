//! Character and byte helpers shared by the checks.

use vstd::prelude::*;

verus! {

/// The characters of `s`, one element per `char`.
pub fn chars_of(s: &str) -> (r: Vec<char>)
    ensures
        r@ == s@,
{
    let n = s.unicode_len();
    let mut r: Vec<char> = Vec::new();
    let mut i: usize = 0;
    while i < n
        invariant
            n == s@.len(),
            i <= n,
            r@ == s@.take(i as int),
        decreases n - i,
    {
        r.push(s.get_char(i));
        i += 1;
        assert(r@ =~= s@.take(i as int));
    }
    assert(r@ =~= s@);
    r
}


/// The pieces of `s` between the occurrences of `sep`, in order: `k`
/// separators give `k + 1` pieces, some of which may be empty.
pub open spec fn split_seq<A>(s: Seq<A>, sep: A) -> Seq<Seq<A>>
    decreases s.len(),
{
    if s.len() == 0 {
        seq![Seq::empty()]
    } else {
        let r = split_seq(s.drop_last(), sep);
        if s.last() == sep {
            r.push(Seq::empty())
        } else {
            r.update(r.len() - 1, r.last().push(s.last()))
        }
    }
}

/// The position of the first `c` in `s`, or `s.len()` when `c` does not occur.
pub open spec fn first_position<A>(s: Seq<A>, c: A) -> int
    decreases s.len(),
{
    if s.len() == 0 {
        0
    } else if s[0] == c {
        0
    } else {
        1 + first_position(s.drop_first(), c)
    }
}

pub proof fn lemma_first_position_bounds<A>(s: Seq<A>, c: A)
    ensures
        0 <= first_position(s, c) <= s.len(),
        first_position(s, c) < s.len() ==> s[first_position(s, c)] == c,
        forall|j: int| 0 <= j < first_position(s, c) ==> s[j] != c,
    decreases s.len(),
{
    if s.len() > 0 && s[0] != c {
        lemma_first_position_bounds(s.drop_first(), c);
        assert forall|j: int| 0 <= j < first_position(s, c) implies s[j] != c by {
            if j > 0 {
                assert(s[j] == s.drop_first()[j - 1]);
            }
        }
    }
}

/// The position of the first `c` in `b`, or `b.len()` when `c` does not occur.
pub fn find_byte(b: &[u8], c: u8) -> (r: usize)
    ensures
        r == first_position(b@, c),
        r <= b@.len(),
        r < b@.len() ==> b@[r as int] == c,
        forall|j: int| 0 <= j < r ==> b@[j] != c,
{
    let mut i: usize = 0;
    assert(b@.skip(0) =~= b@);
    while i < b.len()
        invariant
            i <= b@.len(),
            forall|j: int| 0 <= j < i ==> b@[j] != c,
            first_position(b@, c) == i + first_position(b@.skip(i as int), c),
        decreases b@.len() - i,
    {
        if b[i] == c {
            assert(b@.skip(i as int)[0] == c);
            proof { lemma_first_position_bounds(b@, c); }
            return i;
        }
        assert(b@.skip(i as int).drop_first() =~= b@.skip(i as int + 1));
        i += 1;
    }
    assert(b@.skip(i as int).len() == 0);
    i
}

/// The byte contents of a sequence of byte vectors.
pub open spec fn byte_pieces(v: Seq<Vec<u8>>) -> Seq<Seq<u8>> {
    v.map_values(|x: Vec<u8>| x@)
}

/// Appending a vector appends its contents.
pub proof fn lemma_byte_pieces_push(v: Seq<Vec<u8>>, x: Vec<u8>)
    ensures
        byte_pieces(v.push(x)) =~= byte_pieces(v).push(x@),
{
}

/// The pieces of `b` between the occurrences of `sep` (see [`split_seq`]).
pub fn split_bytes(b: &[u8], sep: u8) -> (r: Vec<Vec<u8>>)
    ensures
        byte_pieces(r@) == split_seq(b@, sep),
{
    let mut pieces: Vec<Vec<u8>> = Vec::new();
    let mut current: Vec<u8> = Vec::new();
    let mut i: usize = 0;
    assert(b@.take(0).len() == 0);
    assert(byte_pieces(pieces@).push(current@) =~= split_seq(b@.take(0), sep));
    while i < b.len()
        invariant
            i <= b@.len(),
            byte_pieces(pieces@).push(current@) =~= split_seq(b@.take(i as int), sep),
        decreases b@.len() - i,
    {
        let ghost before = byte_pieces(pieces@).push(current@);
        let ghost s1 = b@.take(i as int + 1);
        assert(s1.drop_last() =~= b@.take(i as int));
        assert(s1.last() == b@[i as int]);
        if b[i] == sep {
            let ghost old_pieces = byte_pieces(pieces@);
            let done = current;
            pieces.push(done);
            current = Vec::new();
            assert(byte_pieces(pieces@) =~= old_pieces.push(done@));
            assert(byte_pieces(pieces@).push(current@) =~= before.push(Seq::empty()));
        } else {
            current.push(b[i]);
            assert(byte_pieces(pieces@).push(current@) =~= before.update(
                before.len() - 1,
                before.last().push(b@[i as int]),
            ));
        }
        i += 1;
    }
    assert(b@.take(i as int) =~= b@);
    let ghost old_pieces = byte_pieces(pieces@);
    let ghost last = current@;
    pieces.push(current);
    assert(byte_pieces(pieces@) =~= old_pieces.push(last));
    pieces
}


/// `text` ends with the bytes `suffix`.
pub open spec fn ends_with_bytes(text: Seq<u8>, suffix: Seq<u8>) -> bool {
    suffix.len() <= text.len() && text.skip(text.len() - suffix.len()) == suffix
}

/// In valid UTF-8 text that ends with the encoding of some characters, the
/// place where that encoding starts is a character boundary.
pub proof fn lemma_suffix_boundary(text: Seq<u8>, suffix: Seq<char>)
    requires
        vstd::utf8::valid_utf8(text),
        ends_with_bytes(text, vstd::utf8::encode_utf8(suffix)),
    ensures
        vstd::utf8::is_char_boundary(text, text.len() - vstd::utf8::encode_utf8(suffix).len()),
{
    let e = vstd::utf8::encode_utf8(suffix);
    let k = text.len() - e.len();
    if e.len() == 0 {
        vstd::utf8::is_char_boundary_start_end_of_seq(text);
    } else {
        assert(suffix.len() > 0);
        vstd::utf8::encode_utf8_first_scalar(suffix);
        assert(text[k] == text.skip(k)[0]);
        vstd::utf8::is_char_boundary_iff_not_is_continuation_byte(text, k);
    }
}

/// The character contents of a sequence of strings.
pub open spec fn string_pieces(v: Seq<String>) -> Seq<Seq<char>> {
    v.map_values(|x: String| x@)
}

proof fn lemma_string_pieces_push(v: Seq<String>, x: String)
    ensures
        string_pieces(v.push(x)) =~= string_pieces(v).push(x@),
{
}

/// The pieces of `s` between the occurrences of `sep` (see [`split_seq`]).
pub fn split_str(s: &str, sep: char) -> (r: Vec<String>)
    ensures
        string_pieces(r@) == split_seq(s@, sep),
{
    let chars = chars_of(s);
    let n = chars.len();
    let mut pieces: Vec<String> = Vec::new();
    let mut start: usize = 0;
    let mut i: usize = 0;
    assert(s@.take(0).len() == 0);
    assert(s@.subrange(0, 0) =~= Seq::<char>::empty());
    assert(string_pieces(pieces@) =~= Seq::<Seq<char>>::empty());
    assert(string_pieces(pieces@).push(s@.subrange(0, 0)) =~= split_seq(s@.take(0), sep));
    while i < n
        invariant
            n == s@.len(),
            chars@ == s@,
            start <= i <= n,
            string_pieces(pieces@).push(s@.subrange(start as int, i as int)) =~= split_seq(
                s@.take(i as int),
                sep,
            ),
        decreases n - i,
    {
        let ghost before = string_pieces(pieces@).push(s@.subrange(start as int, i as int));
        let ghost s1 = s@.take(i as int + 1);
        assert(s1.drop_last() =~= s@.take(i as int));
        assert(s1.last() == s@[i as int]);
        if chars[i] == sep {
            let piece = s.substring_char(start, i).to_owned();
            assert(piece@ == s@.subrange(start as int, i as int));
            proof { lemma_string_pieces_push(pieces@, piece); }
            pieces.push(piece);
            start = i + 1;
            assert(s@.subrange(start as int, i as int + 1) =~= Seq::<char>::empty());
            assert(string_pieces(pieces@).push(s@.subrange(start as int, i as int + 1))
                =~= before.push(Seq::empty()));
        } else {
            assert(s@.subrange(start as int, i as int + 1) =~= s@.subrange(
                start as int,
                i as int,
            ).push(s@[i as int]));
            assert(string_pieces(pieces@).push(s@.subrange(start as int, i as int + 1))
                =~= before.update(before.len() - 1, before.last().push(s@[i as int])));
        }
        i += 1;
    }
    assert(s@.take(n as int) =~= s@);
    let last = s.substring_char(start, n).to_owned();
    proof { lemma_string_pieces_push(pieces@, last); }
    pieces.push(last);
    pieces
}

/// Whether two strings hold the same characters.
pub fn str_equal(a: &str, b: &str) -> (r: bool)
    ensures
        r == (a@ == b@),
{
    let n = a.unicode_len();
    if n != b.unicode_len() {
        return false;
    }
    let mut i: usize = 0;
    while i < n
        invariant
            n == a@.len(),
            n == b@.len(),
            i <= n,
            forall|j: int| 0 <= j < i ==> a@[j] == b@[j],
        decreases n - i,
    {
        if a.get_char(i) != b.get_char(i) {
            return false;
        }
        i += 1;
    }
    assert(a@ =~= b@);
    true
}

/// Names the text that `format!("{:?}", s)` gives for a string `s`: the
/// string in double quotes, with quotes, backslashes and non-printable
/// characters escaped.
pub uninterp spec fn debug_quoted(s: Seq<char>) -> Seq<char>;

/// The `Debug` form of `s`, as the `{:?}` format of std writes it.
/// Nothing about the characters of the result is claimed beyond its name.
#[verifier::external_body]
pub(crate) fn quote(s: &str) -> (r: String)
    ensures
        r@ == debug_quoted(s@),
{
    format!("{:?}", s)
}

/// Names the text that `String::from_utf8_lossy` gives for the bytes `b`.
pub uninterp spec fn lossy_text(b: Seq<u8>) -> Seq<char>;

/// The bytes `b` as text, invalid UTF-8 replaced by U+FFFD, through
/// `String::from_utf8_lossy`.  Claimed: for valid UTF-8 the result is the
/// decoded text (std documents that valid input is returned unchanged); for
/// other input only the name [`lossy_text`] is claimed.
#[verifier::external_body]
pub(crate) fn lossy_string(b: &[u8]) -> (r: String)
    ensures
        r@ == lossy_text(b@),
        vstd::utf8::valid_utf8(b@) ==> r@ == vstd::utf8::decode_utf8(b@),
{
    String::from_utf8_lossy(b).into_owned()
}

/// The bytes `b` as a `String` when they are valid UTF-8, through
/// `String::from_utf8`, which std documents to fail exactly on invalid
/// UTF-8 and otherwise to keep the bytes.
#[verifier::external_body]
pub(crate) fn utf8_string(b: Vec<u8>) -> (r: Option<String>)
    ensures
        r is Some <==> vstd::utf8::valid_utf8(b@),
        r matches Some(s) ==> s@ == vstd::utf8::decode_utf8(b@),
{
    String::from_utf8(b).ok()
}

/// `a` followed by `b`.
pub fn concat(a: String, b: &str) -> (r: String)
    ensures
        r@ == a@ + b@,
{
    let mut a = a;
    a.append(b);
    a
}

} // verus!
