//! Allowed-path patterns: `/`-separated segments, each a wildcard glob or a
//! `<name>` field.

use vstd::prelude::*;
use crate::config::Error;
use crate::text::{split_seq, split_str, string_pieces, debug_quoted, quote, concat, chars_of};

verus! {

/// One segment of a pattern.
#[derive(Debug)]
pub enum Segment {
    /// A wildcard pattern for one path segment.
    Glob(String),
    /// A `<name>` field, by name.
    Field(String),
}

/// The meaning of a [`Segment`].
pub enum SegmentView {
    Glob(Seq<char>),
    Field(Seq<char>),
}

impl View for Segment {
    type V = SegmentView;

    open spec fn view(&self) -> SegmentView {
        match self {
            Segment::Glob(g) => SegmentView::Glob(g@),
            Segment::Field(n) => SegmentView::Field(n@),
        }
    }
}

/// A parsed pattern, with the text that it came from.
#[derive(Debug)]
pub struct Pattern {
    pub source: String,
    pub segments: Vec<Segment>,
}

/// The meaning of a [`Pattern`]: its text and its segments.
pub struct PatternView {
    pub source: Seq<char>,
    pub segments: Seq<SegmentView>,
}

impl View for Pattern {
    type V = PatternView;

    open spec fn view(&self) -> PatternView {
        PatternView { source: self.source@, segments: segment_views(self.segments@) }
    }
}

/// The meanings of a sequence of patterns.
pub open spec fn pattern_views(v: Seq<Pattern>) -> Seq<PatternView> {
    v.map_values(|p: Pattern| p@)
}

/// The segments of a pattern.
pub open spec fn segment_views(v: Seq<Segment>) -> Seq<SegmentView> {
    v.map_values(|s: Segment| s@)
}

/// A character allowed in a field name: an ASCII letter or digit, or `_`.
pub open spec fn is_name_char(c: char) -> bool {
    ('a' <= c <= 'z') || ('A' <= c <= 'Z') || ('0' <= c <= '9') || c == '_'
}

/// The error for a pattern that is empty or starts or ends with `/`.
pub open spec fn bad_pattern_message(source: Seq<char>) -> Seq<char> {
    "invalid allowed path pattern "@ + debug_quoted(source)
}

/// The error for a segment with only one of `<` and `>`.
pub open spec fn malformed_field_message(source: Seq<char>) -> Seq<char> {
    "malformed field in pattern "@ + debug_quoted(source)
}

/// The error for a field whose name is empty or holds another character.
pub open spec fn bad_name_message(name: Seq<char>, source: Seq<char>) -> Seq<char> {
    "invalid field name <"@ + name + "> in pattern "@ + debug_quoted(source)
}

/// The meaning of one segment `part` of the pattern `source`: a segment
/// that starts with `<` or ends with `>` must be `<name>` with a non-empty
/// name of name characters; any other segment is a glob.
pub open spec fn classify_part(source: Seq<char>, part: Seq<char>) -> Result<SegmentView, Seq<char>> {
    if (part.len() > 0 && part[0] == '<') || (part.len() > 0 && part.last() == '>') {
        if part.len() >= 2 && part[0] == '<' && part.last() == '>' {
            let name = part.subrange(1, part.len() - 1);
            if name.len() > 0 && forall|i: int| 0 <= i < name.len() ==> is_name_char(#[trigger] name[i]) {
                Ok(SegmentView::Field(name))
            } else {
                Err(bad_name_message(name, source))
            }
        } else {
            Err(malformed_field_message(source))
        }
    } else {
        Ok(SegmentView::Glob(part))
    }
}

/// The segments of `parts`, or the error of the first part that has one.
pub open spec fn classify_parts(source: Seq<char>, parts: Seq<Seq<char>>) -> Result<Seq<SegmentView>, Seq<char>>
    decreases parts.len(),
{
    if parts.len() == 0 {
        Ok(Seq::empty())
    } else {
        match classify_parts(source, parts.drop_last()) {
            Err(m) => Err(m),
            Ok(segments) => match classify_part(source, parts.last()) {
                Err(m) => Err(m),
                Ok(s) => Ok(segments.push(s)),
            },
        }
    }
}

/// The segments of the pattern `source`, or the message of its error.
pub open spec fn pattern_meaning(source: Seq<char>) -> Result<Seq<SegmentView>, Seq<char>> {
    if source.len() == 0 || source[0] == '/' || source.last() == '/' {
        Err(bad_pattern_message(source))
    } else {
        classify_parts(source, split_seq(source, '/'))
    }
}

proof fn lemma_classify_error_stays(source: Seq<char>, parts: Seq<Seq<char>>, k: int)
    requires
        0 <= k <= parts.len(),
        classify_parts(source, parts.take(k)) is Err,
    ensures
        classify_parts(source, parts) == classify_parts(source, parts.take(k)),
    decreases parts.len(),
{
    if k == parts.len() {
        assert(parts.take(k) =~= parts);
    } else {
        assert(parts.drop_last().take(k) =~= parts.take(k));
        lemma_classify_error_stays(source, parts.drop_last(), k);
    }
}

fn name_char(c: char) -> (r: bool)
    ensures
        r == is_name_char(c),
{
    ('a' <= c && c <= 'z') || ('A' <= c && c <= 'Z') || ('0' <= c && c <= '9') || c == '_'
}

fn error_with_source(lead: &str, source: &str) -> (r: Error)
    ensures
        r matches Error::InvalidConfig(m) && m@ == lead@ + debug_quoted(source@),
{
    Error::InvalidConfig(concat(lead.to_owned(), quote(source).as_str()))
}

fn classify(source: &str, part: &String) -> (r: Result<Segment, Error>)
    ensures
        match (r, classify_part(source@, part@)) {
            (Ok(s), Ok(v)) => s@ == v,
            (Err(Error::InvalidConfig(m)), Err(e)) => m@ == e,
            _ => false,
        },
{
    let chars = chars_of(part.as_str());
    let n = chars.len();
    if (n > 0 && chars[0] == '<') || (n > 0 && chars[n - 1] == '>') {
        if n >= 2 && chars[0] == '<' && chars[n - 1] == '>' {
            let name = part.as_str().substring_char(1, n - 1);
            let mut ok = n > 2;
            let mut i: usize = 1;
            while ok && i < n - 1
                invariant
                    n == part@.len(),
                    chars@ == part@,
                    n >= 2,
                    1 <= i <= n - 1,
                    ok ==> n > 2,
                    ok ==> forall|j: int| 1 <= j < i ==> is_name_char(#[trigger] part@[j]),
                    !ok ==> (n == 2 || exists|j: int| 1 <= j < n - 1 && !is_name_char(#[trigger] part@[j])),
                decreases n - 1 - i + (if ok { 1int } else { 0int }),
            {
                if !name_char(chars[i]) {
                    ok = false;
                } else {
                    i += 1;
                }
            }
            proof {
                let nm = part@.subrange(1, n - 1);
                assert(name@ == nm);
                if ok {
                    assert forall|k: int| 0 <= k < nm.len() implies is_name_char(#[trigger] nm[k]) by {
                        assert(nm[k] == part@[k + 1]);
                        assert(is_name_char(part@[k + 1]));
                    }
                } else if n > 2 {
                    let j = choose|j: int| 1 <= j < n - 1 && !is_name_char(#[trigger] part@[j]);
                    assert(nm[j - 1] == part@[j]);
                }
            }
            if ok {
                let field = name.to_owned();
                assert(field@ == part@.subrange(1, n - 1));
                assert(classify_part(source@, part@) == Ok::<SegmentView, Seq<char>>(SegmentView::Field(field@)));
                Ok(Segment::Field(field))
            } else {
                let m = concat(concat(concat("invalid field name <".to_owned(), name), "> in pattern "), quote(source).as_str());
                Err(Error::InvalidConfig(m))
            }
        } else {
            Err(error_with_source("malformed field in pattern ", source))
        }
    } else {
        let glob = part.clone();
        assert(glob@ == part@);
        Ok(Segment::Glob(glob))
    }
}

/// Parses the pattern `source` into its segments (see [`pattern_meaning`]).
pub fn parse_pattern(source: &str) -> (r: Result<Pattern, Error>)
    ensures
        match (r, pattern_meaning(source@)) {
            (Ok(p), Ok(segments)) => p.source@ == source@ && segment_views(p.segments@) == segments,
            (Err(Error::InvalidConfig(m)), Err(e)) => m@ == e,
            _ => false,
        },
{
    let chars = chars_of(source);
    let n = chars.len();
    if n == 0 || chars[0] == '/' || chars[n - 1] == '/' {
        return Err(error_with_source("invalid allowed path pattern ", source));
    }
    let parts = split_str(source, '/');
    let ghost all = split_seq(source@, '/');
    let mut segments: Vec<Segment> = Vec::new();
    let mut k: usize = 0;
    assert(all.take(0) =~= Seq::<Seq<char>>::empty());
    assert(segment_views(segments@) =~= Seq::<SegmentView>::empty());
    assert(pattern_meaning(source@) == classify_parts(source@, all));
    while k < parts.len()
        invariant
            pattern_meaning(source@) == classify_parts(source@, all),
            string_pieces(parts@) == all,
            all == split_seq(source@, '/'),
            k <= parts@.len(),
            classify_parts(source@, all.take(k as int)) == Ok::<Seq<SegmentView>, Seq<char>>(segment_views(segments@)),
        decreases parts@.len() - k,
    {
        let ghost p1 = all.take(k as int + 1);
        assert(p1.drop_last() =~= all.take(k as int));
        assert(p1.last() == parts@[k as int]@);
        match classify(source, &parts[k]) {
            Ok(segment) => {
                let ghost before = segment_views(segments@);
                segments.push(segment);
                assert(segment_views(segments@) =~= before.push(segment@));
            },
            Err(e) => {
                proof { lemma_classify_error_stays(source@, all, k as int + 1); }
                return Err(e);
            },
        }
        k += 1;
    }
    assert(all.take(parts@.len() as int) =~= all);
    Ok(Pattern { source: source.to_owned(), segments })
}

} // verus!
