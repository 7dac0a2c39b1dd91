//! Properties that hold across calls and inputs.

use vstd::prelude::*;
use vstd::relations::total_ordering;
use crate::config::{Config, field_values, fields_distinct, lemma_field_position};
use crate::text::string_pieces;
use crate::glob::glob_match;
use crate::loaded::{
    check_all, path_verdict, judge_path, no_match_message, first_shape_match, shape_matches,
    accepts, first_undefined, first_undefined_in, host_field, not_utf8_message,
};
use crate::order::{path_order, lemma_path_order_total};
use crate::path::{join_raw, strip_raw, has_root, all_normal, components_of};
use crate::pattern::{PatternView, SegmentView, pattern_meaning, classify_parts, classify_part};
use crate::config::config_problem;
use crate::host::{valid_host, valid_hostname, valid_label, valid_port, is_alnum, is_digit};
use crate::text::first_position;
use crate::text::{split_seq, ends_with_bytes};

verus! {

/// A lone `*` matches every value.
pub proof fn law_star_matches_everything(value: Seq<char>)
    ensures
        glob_match(seq!['*'], value),
    decreases value.len(),
{
    let p = seq!['*'];
    assert(p.len() == 1 && p.last() == '*');
    assert(p.drop_last() =~= Seq::<char>::empty());
    if value.len() > 0 {
        law_star_matches_everything(value.drop_last());
    } else {
        assert(glob_match(p.drop_last(), value));
    }
}

/// A lone `?` matches exactly the values of one character.
pub proof fn law_question_mark_matches_one_character(value: Seq<char>)
    ensures
        glob_match(seq!['?'], value) <==> value.len() == 1,
{
    let p = seq!['?'];
    assert(p.len() == 1 && p.last() == '?');
    assert(p.drop_last() =~= Seq::<char>::empty());
    if value.len() > 0 {
        assert(value.drop_last().len() == value.len() - 1);
        assert(glob_match(p, value) == glob_match(p.drop_last(), value.drop_last()));
    }
}

/// A pattern without `*` and `?` matches only itself.
pub proof fn law_literal_matches_itself_only(pattern: Seq<char>, value: Seq<char>)
    requires
        forall|i: int| 0 <= i < pattern.len() ==> #[trigger] pattern[i] != '*' && pattern[i] != '?',
    ensures
        glob_match(pattern, value) <==> pattern == value,
    decreases pattern.len(),
{
    if pattern.len() > 0 {
        let q = pattern.drop_last();
        assert forall|i: int| 0 <= i < q.len() implies #[trigger] q[i] != '*' && q[i] != '?' by {
            assert(q[i] == pattern[i]);
        }
        if value.len() > 0 {
            law_literal_matches_itself_only(q, value.drop_last());
            if pattern == value {
                assert(q =~= value.drop_last());
            }
            if q == value.drop_last() && pattern.last() == value.last() {
                assert(pattern =~= value) by {
                    assert(pattern =~= q.push(pattern.last()));
                    assert(value =~= value.drop_last().push(value.last()));
                }
            }
        }
    } else {
        if value.len() == 0 {
            assert(pattern =~= value);
        }
    }
}

/// Wildcards never reach across `/`: a path whose number of segments
/// differs from that of every pattern fits none of them.
pub proof fn law_segment_count_must_agree(c: Config, patterns: Seq<PatternView>, path: Seq<char>)
    requires
        forall|i: int| 0 <= i < patterns.len() ==> #[trigger] patterns[i].segments.len() != split_seq(path, '/').len(),
    ensures
        judge_path(c, patterns, path) == Some(no_match_message()),
    decreases patterns.len(),
{
    let segments = split_seq(path, '/');
    lemma_no_shape(patterns, segments);
}

/// A path that some pattern accepts (its shape fits and every field value
/// is allowed) is not reported, whatever the other patterns say.
pub proof fn law_fitting_path_accepted(c: Config, patterns: Seq<PatternView>, path: Seq<char>, i: int)
    requires
        0 <= i < patterns.len(),
        accepts(c, patterns[i], split_seq(path, '/')),
    ensures
        judge_path(c, patterns, path) is None,
{
}

proof fn lemma_no_shape(patterns: Seq<PatternView>, segments: Seq<Seq<char>>)
    requires
        forall|i: int| 0 <= i < patterns.len() ==> #[trigger] patterns[i].segments.len() != segments.len(),
    ensures
        first_shape_match(patterns, segments) == patterns.len(),
        forall|i: int| 0 <= i < patterns.len() ==> !shape_matches(#[trigger] patterns[i], segments),
    decreases patterns.len(),
{
    if patterns.len() > 0 {
        let q = patterns.drop_last();
        assert forall|i: int| 0 <= i < q.len() implies #[trigger] q[i].segments.len() != segments.len() by {
            assert(q[i] == patterns[i]);
        }
        lemma_no_shape(q, segments);
        assert(patterns.last() == patterns[patterns.len() - 1]);
    }
}

/// Checking a list of paths is checking its parts one after the other: the
/// report for `a` followed by `b` is the report for `a` followed by the
/// report for `b`.
pub proof fn law_check_splits(
    root: Seq<u8>,
    c: Config,
    patterns: Seq<PatternView>,
    a: Seq<Seq<u8>>,
    b: Seq<Seq<u8>>,
)
    ensures
        check_all(root, c, patterns, a + b) == check_all(root, c, patterns, a) + check_all(root, c, patterns, b),
    decreases b.len(),
{
    if b.len() == 0 {
        assert(a + b =~= a);
        assert(check_all(root, c, patterns, a) + check_all(root, c, patterns, b) =~= check_all(root, c, patterns, a));
    } else {
        assert((a + b).drop_last() =~= a + b.drop_last());
        assert((a + b).last() == b.last());
        law_check_splits(root, c, patterns, a, b.drop_last());
        let before_a = check_all(root, c, patterns, a);
        let before_b = check_all(root, c, patterns, b.drop_last());
        match path_verdict(root, c, patterns, b.last()) {
            Some(v) => {
                assert(before_a + before_b.push(v) =~= (before_a + before_b).push(v));
            },
            None => {},
        }
    }
}

/// A check reports nothing exactly when no path is reported.
pub proof fn law_clean_check(
    root: Seq<u8>,
    c: Config,
    patterns: Seq<PatternView>,
    paths: Seq<Seq<u8>>,
)
    ensures
        check_all(root, c, patterns, paths).len() == 0 <==> forall|i: int|
            0 <= i < paths.len() ==> #[trigger] path_verdict(root, c, patterns, paths[i]) is None,
    decreases paths.len(),
{
    if paths.len() > 0 {
        law_clean_check(root, c, patterns, paths.drop_last());
        let q = paths.drop_last();
        assert forall|i: int| 0 <= i < q.len() implies #[trigger] q[i] == paths[i] by {}
        if check_all(root, c, patterns, paths).len() == 0 {
            assert forall|i: int| 0 <= i < paths.len() implies #[trigger] path_verdict(root, c, patterns, paths[i]) is None by {
                if i < q.len() {
                    assert(path_verdict(root, c, patterns, q[i]) is None);
                }
            }
        }
        if forall|i: int| 0 <= i < paths.len() ==> #[trigger] path_verdict(root, c, patterns, paths[i]) is None {
            assert(path_verdict(root, c, patterns, paths[paths.len() - 1]) is None);
            assert forall|i: int| 0 <= i < q.len() implies #[trigger] path_verdict(root, c, patterns, q[i]) is None by {
                assert(path_verdict(root, c, patterns, paths[i]) is None);
            }
        }
    }
}

/// The order in which the files of the store are found does not matter:
/// two lists of the same files, in any order, give the same report.
pub proof fn law_scan_order_irrelevant(
    root: Seq<u8>,
    c: Config,
    patterns: Seq<PatternView>,
    files1: Seq<Seq<u8>>,
    files2: Seq<Seq<u8>>,
)
    requires
        files1.to_multiset() == files2.to_multiset(),
    ensures
        check_all(root, c, patterns, files1.sort_by(path_order())) == check_all(
            root,
            c,
            patterns,
            files2.sort_by(path_order()),
        ),
{
    lemma_path_order_total();
    files1.lemma_sort_by_ensures(path_order());
    files2.lemma_sort_by_ensures(path_order());
    vstd::seq_lib::lemma_sorted_unique(files1.sort_by(path_order()), files2.sort_by(path_order()), path_order());
}

/// A repository-relative path and the same path made absolute under the
/// root are checked alike.
pub proof fn law_relative_paths_resolve_against_root(
    root: Seq<u8>,
    c: Config,
    patterns: Seq<PatternView>,
    rel: Seq<u8>,
)
    requires
        has_root(root),
        !has_root(rel),
    ensures
        path_verdict(root, c, patterns, rel) == path_verdict(root, c, patterns, join_raw(root, rel)),
{
    let joined = join_raw(root, rel);
    assert(joined[0] == root[0]);
}

/// Only files inside the store are reported, and only those whose text in
/// the store ends with the extension, whether that text is UTF-8 or not.
pub proof fn law_only_store_files_reported(
    root: Seq<u8>,
    c: Config,
    patterns: Seq<PatternView>,
    supplied: Seq<u8>,
)
    ensures
        path_verdict(root, c, patterns, supplied) is Some ==> ({
            let in_repo = strip_raw(join_raw(root, supplied), root);
            &&& in_repo is Some
            &&& strip_raw(in_repo.unwrap(), c.store.basedir@) is Some
            &&& all_normal(components_of(strip_raw(in_repo.unwrap(), c.store.basedir@).unwrap()))
            &&& ends_with_bytes(
                strip_raw(in_repo.unwrap(), c.store.basedir@).unwrap(),
                vstd::utf8::encode_utf8(c.store.extension@),
            )
        }),
{
}

/// Every field segment of the patterns of a loaded configuration names the
/// built-in `host` field or a defined field.
pub proof fn law_loaded_fields_defined(c: Config, patterns: Seq<PatternView>)
    requires
        first_undefined(c, patterns) is None,
    ensures
        forall|i: int, k: int|
            0 <= i < patterns.len() && 0 <= k < patterns[i].segments.len() ==> (
            #[trigger] patterns[i].segments[k] matches SegmentView::Field(name) ==> name == host_field()
                || field_values(c, name) is Some),
    decreases patterns.len(),
{
    if patterns.len() > 0 {
        let q = patterns.drop_last();
        law_loaded_fields_defined(c, q);
        let last = patterns.last();
        lemma_fields_defined_in(c, last.source, last.segments);
        assert forall|i: int, k: int|
            0 <= i < patterns.len() && 0 <= k < patterns[i].segments.len() implies (
            #[trigger] patterns[i].segments[k] matches SegmentView::Field(name) ==> name == host_field()
                || field_values(c, name) is Some) by {
            if i < q.len() {
                assert(patterns[i] == q[i]);
                assert(q[i].segments[k] == patterns[i].segments[k]);
            } else {
                assert(patterns[i] == last);
            }
        }
    }
}

proof fn lemma_fields_defined_in(c: Config, source: Seq<char>, segments: Seq<SegmentView>)
    requires
        first_undefined_in(c, source, segments) is None,
    ensures
        forall|k: int| 0 <= k < segments.len() ==> (#[trigger] segments[k] matches SegmentView::Field(name)
            ==> name == host_field() || field_values(c, name) is Some),
    decreases segments.len(),
{
    if segments.len() > 0 {
        let q = segments.drop_last();
        lemma_fields_defined_in(c, source, q);
        assert forall|k: int| 0 <= k < segments.len() implies (#[trigger] segments[k] matches SegmentView::Field(name)
            ==> name == host_field() || field_values(c, name) is Some) by {
            if k < q.len() {
                assert(segments[k] == q[k]);
            }
        }
    }
}

/// With distinct field names, the values accepted for `name` are those of
/// the one field called `name`, and there are none when no field is.
pub proof fn law_field_lookup(c: Config, name: Seq<char>)
    requires
        fields_distinct(c.fields@),
    ensures
        forall|i: int| 0 <= i < c.fields@.len() && #[trigger] c.fields@[i].name@ == name
            ==> field_values(c, name) == Some(string_pieces(c.fields@[i].allowed@)),
        (forall|i: int| 0 <= i < c.fields@.len() ==> #[trigger] c.fields@[i].name@ != name)
            ==> field_values(c, name) is None,
{
    lemma_field_position(c.fields@, name);
}

/// A pattern has one segment for each `/`-separated part of its text.
pub proof fn law_pattern_segments_follow_slashes(source: Seq<char>)
    ensures
        pattern_meaning(source) matches Ok(segments) ==> segments.len() == split_seq(source, '/').len(),
{
    if !(source.len() == 0 || source[0] == '/' || source.last() == '/') {
        lemma_classify_length(source, split_seq(source, '/'));
    }
}

proof fn lemma_classify_length(source: Seq<char>, parts: Seq<Seq<char>>)
    ensures
        classify_parts(source, parts) matches Ok(segments) ==> segments.len() == parts.len(),
    decreases parts.len(),
{
    if parts.len() > 0 {
        lemma_classify_length(source, parts.drop_last());
    }
}

/// A pattern without `*` matches only values of its own length: each
/// character of it, `?` included, stands for exactly one character.
pub proof fn law_no_star_fixes_length(pattern: Seq<char>, value: Seq<char>)
    requires
        forall|i: int| 0 <= i < pattern.len() ==> #[trigger] pattern[i] != '*',
        glob_match(pattern, value),
    ensures
        value.len() == pattern.len(),
    decreases pattern.len(),
{
    if pattern.len() > 0 {
        let q = pattern.drop_last();
        assert forall|i: int| 0 <= i < q.len() implies #[trigger] q[i] != '*' by {
            assert(q[i] == pattern[i]);
        }
        assert(pattern.last() == pattern[pattern.len() - 1]);
        law_no_star_fixes_length(q, value.drop_last());
    }
}

/// A file in the store, of plain components, that ends with the extension,
/// is valid UTF-8 and is more than the extension, is judged by its text
/// without the extension, however many components it has: it is reported,
/// by that text, exactly when the patterns find fault with it.
pub proof fn law_store_files_are_judged(
    root: Seq<u8>,
    c: Config,
    patterns: Seq<PatternView>,
    supplied: Seq<u8>,
    in_repo: Seq<u8>,
    text: Seq<u8>,
)
    requires
        strip_raw(join_raw(root, supplied), root) == Some(in_repo),
        strip_raw(in_repo, c.store.basedir@) == Some(text),
        all_normal(components_of(text)),
        ends_with_bytes(text, vstd::utf8::encode_utf8(c.store.extension@)),
        vstd::utf8::valid_utf8(text),
        text.len() > vstd::utf8::encode_utf8(c.store.extension@).len(),
    ensures
        ({
            let stem = text.take(text.len() - vstd::utf8::encode_utf8(c.store.extension@).len());
            path_verdict(root, c, patterns, supplied) == match judge_path(
                c,
                patterns,
                vstd::utf8::decode_utf8(stem),
            ) {
                Some(m) => Some((stem, m)),
                None => None,
            }
        }),
{
}

/// A file in the store, of plain components, that ends with the extension
/// but is not valid UTF-8, is reported as such, by its text in the
/// repository.
pub proof fn law_non_utf8_store_files_reported(
    root: Seq<u8>,
    c: Config,
    patterns: Seq<PatternView>,
    supplied: Seq<u8>,
    in_repo: Seq<u8>,
    text: Seq<u8>,
)
    requires
        strip_raw(join_raw(root, supplied), root) == Some(in_repo),
        strip_raw(in_repo, c.store.basedir@) == Some(text),
        all_normal(components_of(text)),
        ends_with_bytes(text, vstd::utf8::encode_utf8(c.store.extension@)),
        !vstd::utf8::valid_utf8(text),
    ensures
        path_verdict(root, c, patterns, supplied) == Some((in_repo, not_utf8_message())),
{
}

/// A base directory that is relative and made of plain names, however many,
/// never breaks the base-directory rule; with a valid extension and at least
/// one pattern, the configuration has no problem.
pub proof fn law_plain_relative_basedir_accepted(c: Config)
    requires
        !has_root(c.store.basedir@),
        all_normal(components_of(c.store.basedir@)),
    ensures
        config_problem(c) != Some("store.basedir must be relative to the repository root"@),
        (c.store.extension@.len() > 0 && !c.store.extension@.contains('/') && !c.store.extension@.contains('\\')
            && c.paths.allowed@.len() > 0) ==> config_problem(c) is None,
{
    if c.store.extension@.len() == 0 {
        lemma_literals_differ_empty_ext();
    } else if c.store.extension@.contains('/') || c.store.extension@.contains('\\') {
        lemma_literals_differ_separator();
    } else if c.paths.allowed@.len() == 0 {
        lemma_literals_differ_patterns();
    }
}

proof fn lemma_literals_differ_empty_ext()
    ensures
        "store.extension must not be empty"@ != "store.basedir must be relative to the repository root"@,
{
    reveal_strlit("store.extension must not be empty");
    reveal_strlit("store.basedir must be relative to the repository root");
    assert("store.extension must not be empty"@[6] != "store.basedir must be relative to the repository root"@[6]);
}

proof fn lemma_literals_differ_separator()
    ensures
        "store.extension must not contain a path separator"@ != "store.basedir must be relative to the repository root"@,
{
    reveal_strlit("store.extension must not contain a path separator");
    reveal_strlit("store.basedir must be relative to the repository root");
    assert("store.extension must not contain a path separator"@[6] != "store.basedir must be relative to the repository root"@[6]);
}

proof fn lemma_literals_differ_patterns()
    ensures
        "paths.allowed must contain at least one pattern"@ != "store.basedir must be relative to the repository root"@,
{
    reveal_strlit("paths.allowed must contain at least one pattern");
    reveal_strlit("store.basedir must be relative to the repository root");
    assert("paths.allowed must contain at least one pattern"@[0] != "store.basedir must be relative to the repository root"@[0]);
}

/// The text that a segment was written as: a glob as itself, a field as
/// its name in angle brackets.
pub open spec fn written_as(s: SegmentView) -> Seq<char> {
    match s {
        SegmentView::Glob(g) => g,
        SegmentView::Field(name) => seq!['<'] + name + seq!['>'],
    }
}

/// Parsing keeps the text: each segment of a parsed pattern, written back,
/// is the `/`-separated piece of the source at its place; in particular a
/// glob segment is exactly the text of its piece.
pub proof fn law_parsed_segments_write_back(source: Seq<char>)
    ensures
        pattern_meaning(source) matches Ok(segments) ==> {
            &&& segments.len() == split_seq(source, '/').len()
            &&& forall|k: int| 0 <= k < segments.len() ==> #[trigger] written_as(segments[k]) == split_seq(source, '/')[k]
        },
{
    if !(source.len() == 0 || source[0] == '/' || source.last() == '/') {
        lemma_classify_writes_back(source, split_seq(source, '/'));
    }
}

proof fn lemma_part_writes_back(source: Seq<char>, part: Seq<char>)
    ensures
        classify_part(source, part) matches Ok(s) ==> written_as(s) == part,
{
    if let Ok(s) = classify_part(source, part) {
        if let SegmentView::Field(name) = s {
            assert(seq!['<'] + name + seq!['>'] =~= part);
        }
    }
}

proof fn lemma_classify_writes_back(source: Seq<char>, parts: Seq<Seq<char>>)
    ensures
        classify_parts(source, parts) matches Ok(segments) ==> {
            &&& segments.len() == parts.len()
            &&& forall|k: int| 0 <= k < segments.len() ==> #[trigger] written_as(segments[k]) == parts[k]
        },
    decreases parts.len(),
{
    if parts.len() > 0 {
        lemma_classify_writes_back(source, parts.drop_last());
        lemma_part_writes_back(source, parts.last());
        if let Ok(segments) = classify_parts(source, parts) {
            let before = segments.drop_last();
            assert forall|k: int| 0 <= k < segments.len() implies #[trigger] written_as(segments[k]) == parts[k] by {
                if k < segments.len() - 1 {
                    assert(segments[k] == before[k]);
                    assert(parts[k] == parts.drop_last()[k]);
                }
            }
        }
    }
}

/// `b` with an ASCII capital letter turned into its small letter.
pub open spec fn lower_byte(b: u8) -> u8 {
    if 65 <= b <= 90 {
        (b + 32) as u8
    } else {
        b
    }
}

/// `v` with every ASCII capital letter turned into its small letter.
pub open spec fn ascii_lower(v: Seq<u8>) -> Seq<u8> {
    Seq::new(v.len(), |i: int| lower_byte(v[i]))
}

proof fn lemma_lower_split(s: Seq<u8>, sep: u8)
    requires
        !(65 <= sep <= 90),
        !(97 <= sep <= 122),
    ensures
        split_seq(ascii_lower(s), sep) =~~= split_seq(s, sep).map_values(|x: Seq<u8>| ascii_lower(x)),
    decreases s.len(),
{
    if s.len() == 0 {
        assert(ascii_lower(s) =~= s);
        assert(ascii_lower(Seq::<u8>::empty()) =~= Seq::<u8>::empty());
    } else {
        let t = s.drop_last();
        assert(ascii_lower(s).drop_last() =~= ascii_lower(t));
        assert(ascii_lower(s).last() == lower_byte(s.last()));
        lemma_lower_split(t, sep);
        crate::path::lemma_join_split(t, sep);
        let r = split_seq(t, sep);
        if s.last() == sep {
            assert(ascii_lower(Seq::<u8>::empty()) =~= Seq::<u8>::empty());
            assert(r.push(Seq::<u8>::empty()).map_values(|x: Seq<u8>| ascii_lower(x)) =~~= r.map_values(|x: Seq<u8>| ascii_lower(x)).push(Seq::<u8>::empty()));
        } else {
            assert(ascii_lower(r.last().push(s.last())) =~= ascii_lower(r.last()).push(lower_byte(s.last())));
            assert(r.update(r.len() - 1, r.last().push(s.last())).map_values(|x: Seq<u8>| ascii_lower(x)) =~~= r.map_values(
                |x: Seq<u8>| ascii_lower(x),
            ).update(r.len() - 1, ascii_lower(r.last()).push(lower_byte(s.last()))));
        }
    }
}

proof fn lemma_lower_first_position(s: Seq<u8>)
    ensures
        first_position(ascii_lower(s), 58u8) == first_position(s, 58u8),
    decreases s.len(),
{
    if s.len() > 0 {
        assert(ascii_lower(s).drop_first() =~= ascii_lower(s.drop_first()));
        lemma_lower_first_position(s.drop_first());
    }
}

proof fn lemma_lower_label(l: Seq<u8>)
    ensures
        valid_label(ascii_lower(l)) == valid_label(l),
{
    let m = ascii_lower(l);
    assert forall|i: int| 0 <= i < l.len() implies (is_alnum(#[trigger] m[i]) || m[i] == 45) == (is_alnum(l[i]) || l[i] == 45) by {}
    if valid_label(l) {
        assert forall|i: int| 0 <= i < m.len() implies is_alnum(#[trigger] m[i]) || m[i] == 45 by {
            assert(is_alnum(l[i]) || l[i] == 45);
        }
    }
    if valid_label(m) {
        assert forall|i: int| 0 <= i < l.len() implies is_alnum(#[trigger] l[i]) || l[i] == 45 by {
            assert(is_alnum(m[i]) || m[i] == 45);
        }
    }
}

proof fn lemma_lower_hostname(h: Seq<u8>)
    ensures
        valid_hostname(ascii_lower(h)) == valid_hostname(h),
{
    lemma_lower_split(h, 46u8);
    let a = split_seq(h, 46u8);
    let b = split_seq(ascii_lower(h), 46u8);
    assert(b.len() == a.len());
    assert forall|k: int| 0 <= k < a.len() implies valid_label(#[trigger] b[k]) == valid_label(a[k]) by {
        assert(b[k] == ascii_lower(a[k]));
        lemma_lower_label(a[k]);
    }
    if valid_hostname(h) {
        assert forall|k: int| 0 <= k < b.len() implies valid_label(#[trigger] b[k]) by {
            assert(valid_label(a[k]));
        }
    }
    if valid_hostname(ascii_lower(h)) {
        assert forall|k: int| 0 <= k < a.len() implies valid_label(#[trigger] a[k]) by {
            assert(valid_label(b[k]));
        }
    }
}

proof fn lemma_lower_port(p: Seq<u8>)
    ensures
        valid_port(ascii_lower(p)) == valid_port(p),
{
    if forall|i: int| 0 <= i < p.len() ==> is_digit(#[trigger] p[i]) {
        assert(ascii_lower(p) =~= p);
    } else {
        let i = choose|i: int| 0 <= i < p.len() && !is_digit(#[trigger] p[i]);
        assert(!is_digit(ascii_lower(p)[i]));
    }
}

/// Host names do not depend on letter case: a value is a valid host exactly
/// when its lower-case form is, so capital letters are accepted wherever
/// small ones are.
pub proof fn law_host_ignores_case(value: Seq<u8>)
    ensures
        valid_host(ascii_lower(value)) == valid_host(value),
{
    let m = ascii_lower(value);
    lemma_lower_first_position(value);
    let colon = first_position(value, 58u8);
    if colon == value.len() {
        lemma_lower_hostname(value);
    } else {
        crate::text::lemma_first_position_bounds(value, 58u8);
        assert(m.take(colon) =~= ascii_lower(value.take(colon)));
        assert(m.skip(colon + 1) =~= ascii_lower(value.skip(colon + 1)));
        lemma_lower_hostname(value.take(colon));
        lemma_lower_port(value.skip(colon + 1));
    }
}

/// Every ASCII letter, capital or small, and every digit is a host label
/// of its own.
pub proof fn law_letters_and_digits_are_labels(b: u8)
    requires
        (65 <= b <= 90) || (97 <= b <= 122) || (48 <= b <= 57),
    ensures
        valid_label(seq![b]),
{
}

} // verus!
