//! A loaded configuration and the checks that it applies to paths.

use vstd::prelude::*;
use crate::config::{Config, Error, config_problem, field_values, field_position, validate_config, lemma_field_position, fields_distinct};
use crate::pattern::{Pattern, PatternView, Segment, SegmentView, pattern_meaning, pattern_views, parse_pattern};
use crate::path::{StorePath, join_raw, strip_raw, all_normal, components_of, parent_raw};
use crate::order::{path_order, sort_paths};
use crate::text::{debug_quoted, quote, concat, string_pieces, str_equal, split_seq, split_str, ends_with_bytes, lemma_suffix_boundary, utf8_string, lossy_text, lossy_string};
use crate::glob::{glob_match, glob_matches};
use crate::host::{valid_host, host_matches};

verus! {

/// The file name of the configuration.
pub const CONFIG_FILE: &'static str = "passlint.toml";

/// The built-in field that accepts a host name with an optional port.
pub open spec fn host_field() -> Seq<char> {
    "host"@
}

/// A password path that breaks the rules.
#[derive(Debug)]
pub struct Violation {
    /// The path, relative to the store and without the extension; or,
    /// when it is not valid UTF-8, relative to the repository root.
    pub path: Vec<u8>,
    pub message: String,
}

impl View for Violation {
    type V = (Seq<u8>, Seq<char>);

    open spec fn view(&self) -> (Seq<u8>, Seq<char>) {
        (self.path@, self.message@)
    }
}

/// The contents of a sequence of violations.
pub open spec fn violation_views(v: Seq<Violation>) -> Seq<(Seq<u8>, Seq<char>)> {
    v.map_values(|x: Violation| x@)
}

/// The decimal digit `d`.
pub open spec fn digit_char(d: int) -> char {
    seq!['0', '1', '2', '3', '4', '5', '6', '7', '8', '9'][d]
}

/// The decimal numeral of `n`, without leading zeros.
pub open spec fn decimal_text(n: nat) -> Seq<char>
    decreases n,
{
    if n < 10 {
        seq![digit_char(n as int)]
    } else {
        decimal_text(n / 10) + seq![digit_char((n % 10) as int)]
    }
}

/// The line that opens a report of `count` violations.
pub open spec fn heading_text(count: nat) -> Seq<char> {
    "Error: "@ + decimal_text(count) + " violation"@ + (if count == 1 {
        Seq::<char>::empty()
    } else {
        "s"@
    }) + " found"@
}

fn digit_string(d: usize) -> (r: String)
    requires
        d < 10,
    ensures
        r@ == seq![digit_char(d as int)],
{
    let t: &str = if d == 0 {
        proof { reveal_strlit("0"); }
        "0"
    } else if d == 1 {
        proof { reveal_strlit("1"); }
        "1"
    } else if d == 2 {
        proof { reveal_strlit("2"); }
        "2"
    } else if d == 3 {
        proof { reveal_strlit("3"); }
        "3"
    } else if d == 4 {
        proof { reveal_strlit("4"); }
        "4"
    } else if d == 5 {
        proof { reveal_strlit("5"); }
        "5"
    } else if d == 6 {
        proof { reveal_strlit("6"); }
        "6"
    } else if d == 7 {
        proof { reveal_strlit("7"); }
        "7"
    } else if d == 8 {
        proof { reveal_strlit("8"); }
        "8"
    } else {
        proof { reveal_strlit("9"); }
        "9"
    };
    assert(t@ =~= seq![digit_char(d as int)]);
    t.to_owned()
}

/// The decimal numeral of `n` (see [`decimal_text`]).
pub fn decimal_string(n: usize) -> (r: String)
    ensures
        r@ == decimal_text(n as nat),
    decreases n,
{
    if n < 10 {
        digit_string(n)
    } else {
        let head = decimal_string(n / 10);
        let last = digit_string(n % 10);
        concat(head, last.as_str())
    }
}

/// The line that opens a report of `count` violations, such as
/// `Error: 2 violations found` (see [`heading_text`]).
pub fn violation_heading(count: usize) -> (r: String)
    ensures
        r@ == heading_text(count as nat),
{
    let mut text = concat("Error: ".to_owned(), decimal_string(count).as_str());
    text = concat(text, " violation");
    if count != 1 {
        text = concat(text, "s");
    }
    concat(text, " found")
}

/// A configuration ready to check paths: the repository root, the
/// configuration, and its parsed patterns.
#[derive(Debug)]
pub struct LoadedConfig {
    root: StorePath,
    config: Config,
    patterns: Vec<Pattern>,
}

/// The patterns `sources`, parsed, or the error of the first bad one.
pub open spec fn compile_all(sources: Seq<Seq<char>>) -> Result<Seq<PatternView>, Seq<char>>
    decreases sources.len(),
{
    if sources.len() == 0 {
        Ok(Seq::empty())
    } else {
        match compile_all(sources.drop_last()) {
            Err(m) => Err(m),
            Ok(done) => match pattern_meaning(sources.last()) {
                Err(m) => Err(m),
                Ok(segments) => Ok(done.push(PatternView { source: sources.last(), segments })),
            },
        }
    }
}

/// The error for a field segment that names no field.
pub open spec fn undefined_field_message(source: Seq<char>, name: Seq<char>) -> Seq<char> {
    "pattern "@ + debug_quoted(source) + " refers to undefined field <"@ + name + ">"@
}

/// The error for the first segment of `segments` that names a field which
/// is neither `host` nor defined.
pub open spec fn first_undefined_in(c: Config, source: Seq<char>, segments: Seq<SegmentView>) -> Option<Seq<char>>
    decreases segments.len(),
{
    if segments.len() == 0 {
        None
    } else {
        match first_undefined_in(c, source, segments.drop_last()) {
            Some(m) => Some(m),
            None => match segments.last() {
                SegmentView::Field(name) => if name != host_field() && field_values(c, name) is None {
                    Some(undefined_field_message(source, name))
                } else {
                    None
                },
                SegmentView::Glob(_) => None,
            },
        }
    }
}

/// The error for the first pattern of `patterns` that names an undefined field.
pub open spec fn first_undefined(c: Config, patterns: Seq<PatternView>) -> Option<Seq<char>>
    decreases patterns.len(),
{
    if patterns.len() == 0 {
        None
    } else {
        match first_undefined(c, patterns.drop_last()) {
            Some(m) => Some(m),
            None => first_undefined_in(c, patterns.last().source, patterns.last().segments),
        }
    }
}

proof fn lemma_compile_error_stays(sources: Seq<Seq<char>>, k: int)
    requires
        0 <= k <= sources.len(),
        compile_all(sources.take(k)) is Err,
    ensures
        compile_all(sources) == compile_all(sources.take(k)),
    decreases sources.len(),
{
    if k == sources.len() {
        assert(sources.take(k) =~= sources);
    } else {
        assert(sources.drop_last().take(k) =~= sources.take(k));
        lemma_compile_error_stays(sources.drop_last(), k);
    }
}

proof fn lemma_undefined_in_stays(c: Config, source: Seq<char>, segments: Seq<SegmentView>, k: int)
    requires
        0 <= k <= segments.len(),
        first_undefined_in(c, source, segments.take(k)) is Some,
    ensures
        first_undefined_in(c, source, segments) == first_undefined_in(c, source, segments.take(k)),
    decreases segments.len(),
{
    if k == segments.len() {
        assert(segments.take(k) =~= segments);
    } else {
        assert(segments.drop_last().take(k) =~= segments.take(k));
        lemma_undefined_in_stays(c, source, segments.drop_last(), k);
    }
}

proof fn lemma_undefined_stays(c: Config, patterns: Seq<PatternView>, k: int)
    requires
        0 <= k <= patterns.len(),
        first_undefined(c, patterns.take(k)) is Some,
    ensures
        first_undefined(c, patterns) == first_undefined(c, patterns.take(k)),
    decreases patterns.len(),
{
    if k == patterns.len() {
        assert(patterns.take(k) =~= patterns);
    } else {
        assert(patterns.drop_last().take(k) =~= patterns.take(k));
        lemma_undefined_stays(c, patterns.drop_last(), k);
    }
}

/// The index of the first field called `name`.
fn find_field(config: &Config, name: &str) -> (r: usize)
    ensures
        r == field_position(config.fields@, name@),
        r <= config.fields@.len(),
{
    proof { lemma_field_position(config.fields@, name@); }
    let mut i: usize = 0;
    while i < config.fields.len()
        invariant
            i <= config.fields@.len(),
            forall|j: int| 0 <= j < i ==> config.fields@[j].name@ != name@,
            0 <= field_position(config.fields@, name@) <= config.fields@.len(),
            field_position(config.fields@, name@) < config.fields@.len() ==> config.fields@[field_position(config.fields@, name@)].name@ == name@,
            forall|j: int| 0 <= j < field_position(config.fields@, name@) ==> config.fields@[j].name@ != name@,
        decreases config.fields@.len() - i,
    {
        if str_equal(config.fields[i].name.as_str(), name) {
            return i;
        }
        i += 1;
    }
    i
}

fn undefined_error(source: &str, name: &str) -> (r: Error)
    ensures
        r matches Error::InvalidConfig(m) && m@ == undefined_field_message(source@, name@),
{
    let m = concat(concat(concat(concat("pattern ".to_owned(), quote(source).as_str()), " refers to undefined field <"), name), ">");
    Error::InvalidConfig(m)
}

/// The error for the first segment of `pattern` that names an undefined field.
fn check_fields(config: &Config, pattern: &Pattern) -> (r: Result<(), Error>)
    ensures
        match (r, first_undefined_in(*config, pattern@.source, pattern@.segments)) {
            (Ok(()), None) => true,
            (Err(Error::InvalidConfig(m)), Some(e)) => m@ == e,
            _ => false,
        },
{
    let ghost segs = pattern@.segments;
    let mut k: usize = 0;
    assert(segs.take(0) =~= Seq::<SegmentView>::empty());
    while k < pattern.segments.len()
        invariant
            segs == pattern@.segments,
            segs.len() == pattern.segments@.len(),
            k <= segs.len(),
            first_undefined_in(*config, pattern@.source, segs.take(k as int)) is None,
        decreases segs.len() - k,
    {
        let ghost s1 = segs.take(k as int + 1);
        assert(s1.drop_last() =~= segs.take(k as int));
        assert(s1.last() == pattern.segments@[k as int]@);
        match &pattern.segments[k] {
            Segment::Field(name) => {
                assert(s1.last() == SegmentView::Field(name@));
                if !str_equal(name.as_str(), "host") && find_field(config, name.as_str()) == config.fields.len() {
                    proof { lemma_undefined_in_stays(*config, pattern@.source, segs, k as int + 1); }
                    return Err(undefined_error(pattern.source.as_str(), name.as_str()));
                }
            },
            Segment::Glob(g) => {
                assert(s1.last() == SegmentView::Glob(g@));
            },
        }
        k += 1;
    }
    assert(segs.take(segs.len() as int) =~= segs);
    Ok(())
}

/// Whether `value` is accepted for the field `name`: for `host` a host name
/// with an optional port, for another field one of its listed values.
pub open spec fn value_allowed(c: Config, name: Seq<char>, value: Seq<char>) -> bool {
    if name == host_field() {
        valid_host(vstd::utf8::encode_utf8(value))
    } else {
        match field_values(c, name) {
            Some(values) => values.contains(value),
            None => false,
        }
    }
}

/// The message for a field segment whose value is not accepted.
pub open spec fn complaint(name: Seq<char>, value: Seq<char>, source: Seq<char>) -> Seq<char> {
    "field <"@ + name + "> has disallowed value "@ + debug_quoted(value) + " in pattern "@
        + debug_quoted(source)
}

/// The message for a path that no pattern fits.
pub open spec fn no_match_message() -> Seq<char> {
    "path does not match any allowed pattern"@
}

/// `segments` has as many segments as the pattern, and each glob segment of
/// the pattern matches the segment at its place.
pub open spec fn shape_matches(p: PatternView, segments: Seq<Seq<char>>) -> bool {
    &&& p.segments.len() == segments.len()
    &&& forall|k: int|
        0 <= k < segments.len() ==> match #[trigger] p.segments[k] {
            SegmentView::Glob(g) => glob_match(g, segments[k]),
            SegmentView::Field(_) => true,
        }
}

/// The messages for the first `k` segments whose field value is not accepted.
pub open spec fn complaints_upto(c: Config, p: PatternView, segments: Seq<Seq<char>>, k: int) -> Seq<Seq<char>>
    decreases k,
{
    if k <= 0 {
        Seq::empty()
    } else {
        let before = complaints_upto(c, p, segments, k - 1);
        match p.segments[k - 1] {
            SegmentView::Field(name) => if value_allowed(c, name, segments[k - 1]) {
                before
            } else {
                before.push(complaint(name, segments[k - 1], p.source))
            },
            SegmentView::Glob(_) => before,
        }
    }
}

/// The messages for every field segment whose value is not accepted.
pub open spec fn complaints(c: Config, p: PatternView, segments: Seq<Seq<char>>) -> Seq<Seq<char>> {
    complaints_upto(c, p, segments, segments.len() as int)
}

/// The pattern accepts the path segments: its shape fits and every field
/// value is accepted.
pub open spec fn accepts(c: Config, p: PatternView, segments: Seq<Seq<char>>) -> bool {
    shape_matches(p, segments) && complaints(c, p, segments).len() == 0
}

/// The index of the first pattern whose shape fits, or `patterns.len()`.
pub open spec fn first_shape_match(patterns: Seq<PatternView>, segments: Seq<Seq<char>>) -> int
    decreases patterns.len(),
{
    if patterns.len() == 0 {
        0
    } else {
        let f = first_shape_match(patterns.drop_last(), segments);
        if f < patterns.len() - 1 {
            f
        } else if shape_matches(patterns.last(), segments) {
            patterns.len() - 1
        } else {
            patterns.len() as int
        }
    }
}

/// What is wrong with `path` (relative to the store, without extension):
/// nothing when some pattern accepts its `/`-separated segments; otherwise
/// the first complaint of the first pattern whose shape fits, or, when no
/// shape fits, that no pattern matches.
pub open spec fn judge_path(c: Config, patterns: Seq<PatternView>, path: Seq<char>) -> Option<Seq<char>> {
    let segments = split_seq(path, '/');
    if exists|i: int| 0 <= i < patterns.len() && #[trigger] accepts(c, patterns[i], segments) {
        None
    } else if first_shape_match(patterns, segments) < patterns.len() {
        Some(complaints(c, patterns[first_shape_match(patterns, segments)], segments)[0])
    } else {
        Some(no_match_message())
    }
}

/// The message for a path that is not valid UTF-8.
pub open spec fn not_utf8_message() -> Seq<char> {
    "path is not valid UTF-8"@
}

/// What [`LoadedConfig::check_paths`] reports for the path `supplied`, given
/// the repository root, the configuration and its patterns.  A relative path
/// is resolved against the root.  Paths outside the root or the store, paths
/// with `.` or `..` components inside the store, and paths whose text in the
/// store does not end with the extension (or is nothing but the extension)
/// give nothing.  A path whose text in the store is not UTF-8 is reported as
/// such, by its text relative to the root; any other path is reported, by
/// its text relative to the store without the extension, with the message of
/// [`judge_path`] when there is one.
pub open spec fn path_verdict(
    root: Seq<u8>,
    c: Config,
    patterns: Seq<PatternView>,
    supplied: Seq<u8>,
) -> Option<(Seq<u8>, Seq<char>)> {
    match strip_raw(join_raw(root, supplied), root) {
        None => None,
        Some(in_repo) => match strip_raw(in_repo, c.store.basedir@) {
            None => None,
            Some(text) => {
                let ext = vstd::utf8::encode_utf8(c.store.extension@);
                if !all_normal(components_of(text)) || !ends_with_bytes(text, ext) {
                    None
                } else if !vstd::utf8::valid_utf8(text) {
                    Some((in_repo, not_utf8_message()))
                } else {
                    let stem = text.take(text.len() - ext.len());
                    if stem.len() == 0 {
                        None
                    } else {
                        match judge_path(c, patterns, vstd::utf8::decode_utf8(stem)) {
                            None => None,
                            Some(m) => Some((stem, m)),
                        }
                    }
                }
            },
        },
    }
}

/// The reports for `paths`, in their order (see [`path_verdict`]).
pub open spec fn check_all(
    root: Seq<u8>,
    c: Config,
    patterns: Seq<PatternView>,
    paths: Seq<Seq<u8>>,
) -> Seq<(Seq<u8>, Seq<char>)>
    decreases paths.len(),
{
    if paths.len() == 0 {
        Seq::empty()
    } else {
        let before = check_all(root, c, patterns, paths.drop_last());
        match path_verdict(root, c, patterns, paths.last()) {
            Some(v) => before.push(v),
            None => before,
        }
    }
}

/// The text of each path.
pub open spec fn path_views(v: Seq<StorePath>) -> Seq<Seq<u8>> {
    v.map_values(|p: StorePath| p@)
}

/// The store directory: the base directory resolved against the root.
pub open spec fn store_of(root: Seq<u8>, c: Config) -> Seq<u8> {
    join_raw(root, c.store.basedir@)
}

/// The error for a store directory that does not exist.
pub open spec fn missing_store_message(store: Seq<u8>) -> Seq<char> {
    "store directory "@ + lossy_text(store) + " does not exist"@
}

/// The directory where the search for the configuration starts: `start`
/// itself when it is a directory, else the directory that holds it.
pub open spec fn start_directory(start: Seq<u8>, start_is_dir: bool) -> Seq<u8> {
    if start_is_dir {
        start
    } else {
        match parent_raw(start) {
            Some(p) => p,
            None => start,
        }
    }
}

/// `p` and then each directory above it, nearest first.
pub open spec fn ancestors(p: Seq<u8>) -> Seq<Seq<u8>>
    decreases p.len(),
    via ancestors_decreases
{
    match parent_raw(p) {
        Some(q) => seq![p] + ancestors(q),
        None => seq![p],
    }
}

#[via_fn]
proof fn ancestors_decreases(p: Seq<u8>) {
    crate::path::lemma_parent_shorter(p);
}

/// The text that names the configuration file.
pub open spec fn config_name() -> Seq<u8> {
    vstd::utf8::encode_utf8(CONFIG_FILE@)
}

/// The places where the configuration may be, nearest first: the file
/// [`CONFIG_FILE`] in `dir` and in each directory above it.
pub open spec fn config_candidates_of(dir: Seq<u8>) -> Seq<Seq<u8>> {
    ancestors(dir).map_values(|a: Seq<u8>| join_raw(a, config_name()))
}

proof fn lemma_first_shape_match(patterns: Seq<PatternView>, segments: Seq<Seq<char>>)
    ensures
        0 <= first_shape_match(patterns, segments) <= patterns.len(),
        first_shape_match(patterns, segments) < patterns.len() ==> shape_matches(
            patterns[first_shape_match(patterns, segments)],
            segments,
        ),
    decreases patterns.len(),
{
    if patterns.len() > 0 {
        lemma_first_shape_match(patterns.drop_last(), segments);
    }
}

impl LoadedConfig {
    /// The places to look for the configuration when the search starts at
    /// `start`, nearest first (see [`config_candidates_of`]).
    pub fn config_candidates(start: &StorePath, start_is_dir: bool) -> (r: Vec<StorePath>)
        ensures
            path_views(r@) == config_candidates_of(start_directory(start@, start_is_dir)),
    {
        let mut dir = if start_is_dir {
            start.duplicate()
        } else {
            match start.parent() {
                Some(p) => p,
                None => start.duplicate(),
            }
        };
        let ghost all = config_candidates_of(dir@);
        let name = StorePath::from_bytes(CONFIG_FILE.as_bytes());
        let mut out: Vec<StorePath> = Vec::new();
        assert(path_views(out@) + config_candidates_of(dir@) =~= all);
        loop
            invariant
                all == config_candidates_of(start_directory(start@, start_is_dir)),
                name@ == config_name(),
                path_views(out@) + config_candidates_of(dir@) == all,
            decreases dir@.len(),
        {
            let candidate = dir.join(&name);
            let ghost before = path_views(out@);
            out.push(candidate);
            assert(path_views(out@) =~= before.push(candidate@));
            match dir.parent() {
                Some(p) => {
                    proof { crate::path::lemma_parent_shorter(dir@); }
                    assert(config_candidates_of(dir@) =~= seq![candidate@] + config_candidates_of(p@));
                    dir = p;
                },
                None => {
                    assert(config_candidates_of(dir@) =~= seq![candidate@]);
                    assert(path_views(out@) =~= all);
                    return out;
                },
            }
        }
    }

    /// The configuration file to load: the first of the candidates of
    /// [`LoadedConfig::config_candidates`] that `found` marks as an existing
    /// file, or, when none is, [`Error::NoConfig`] with the starting directory.
    pub fn discover(start: &StorePath, start_is_dir: bool, found: &Vec<bool>) -> (r: Result<StorePath, Error>)
        ensures
            ({
                let candidates = config_candidates_of(start_directory(start@, start_is_dir));
                match r {
                    Ok(p) => exists|i: int|
                        0 <= i < found@.len() && i < candidates.len() && found@[i] && p@ == candidates[i]
                            && forall|j: int| 0 <= j < i ==> !#[trigger] found@[j],
                    Err(e) => (e matches Error::NoConfig(d) && d@ == start_directory(start@, start_is_dir))
                        && forall|j: int| 0 <= j < found@.len() && j < candidates.len() ==> !#[trigger] found@[j],
                }
            }),
    {
        let mut candidates = Self::config_candidates(start, start_is_dir);
        let ghost all = path_views(candidates@);
        let mut i: usize = 0;
        while i < found.len() && i < candidates.len()
            invariant
                all == path_views(candidates@),
                all == config_candidates_of(start_directory(start@, start_is_dir)),
                i <= found@.len(),
                forall|j: int| 0 <= j < i ==> !#[trigger] found@[j],
            decreases found@.len() - i,
        {
            if found[i] {
                let chosen = candidates.remove(i);
                assert(chosen@ == all[i as int]);
                return Ok(chosen);
            }
            i += 1;
        }
        let dir = if start_is_dir {
            start.duplicate()
        } else {
            match start.parent() {
                Some(p) => p,
                None => start.duplicate(),
            }
        };
        Err(Error::NoConfig(dir))
    }

    /// The store directory (see [`store_of`]), where the walk for
    /// password files starts.
    pub fn store_directory(&self) -> (r: StorePath)
        ensures
            r@ == store_of(self.root_path(), self.configuration()),
    {
        self.root.join(&self.config.store.basedir)
    }

    /// Checks every password file of the store: when the store directory
    /// exists, `files` (the files found below it, in any order) sorted in
    /// the order of paths and checked as [`LoadedConfig::check_paths`] does;
    /// otherwise the error that the store is missing.
    pub fn scan_all(&self, store_exists: bool, files: Vec<StorePath>) -> (r: Result<Vec<Violation>, Error>)
        ensures
            !store_exists ==> (r matches Err(Error::InvalidConfig(m))
                && m@ == missing_store_message(store_of(self.root_path(), self.configuration()))),
            store_exists ==> (r matches Ok(v) && violation_views(v@) == check_all(
                self.root_path(),
                self.configuration(),
                self.pattern_meanings(),
                path_views(files@).sort_by(path_order()),
            )),
    {
        if !store_exists {
            let store = self.store_directory();
            let shown = lossy_string(store.render().as_slice());
            let m = concat(concat("store directory ".to_owned(), shown.as_str()), " does not exist");
            return Err(Error::InvalidConfig(m));
        }
        let sorted = sort_paths(files);
        Ok(self.check_paths(&sorted))
    }

    /// The repository root that relative paths are resolved against.
    pub closed spec fn root_path(&self) -> Seq<u8> {
        self.root@
    }

    /// The configuration.
    pub closed spec fn configuration(&self) -> Config {
        self.config
    }

    /// The parsed patterns of `paths.allowed`, in order.
    pub closed spec fn pattern_meanings(&self) -> Seq<PatternView> {
        pattern_views(self.patterns@)
    }

    /// Whether `value` is accepted for the field `name` (see [`value_allowed`]).
    fn allows(&self, name: &str, value: &str) -> (r: bool)
        ensures
            r == value_allowed(self.config, name@, value@),
    {
        if str_equal(name, "host") {
            return host_matches(value);
        }
        let k = find_field(&self.config, name);
        if k == self.config.fields.len() {
            return false;
        }
        let allowed = &self.config.fields[k].allowed;
        let ghost values = string_pieces(allowed@);
        let mut j: usize = 0;
        while j < allowed.len()
            invariant
                values == string_pieces(allowed@),
                name@ != host_field(),
                k == field_position(self.config.fields@, name@),
                k < self.config.fields@.len(),
                allowed@ == self.config.fields@[k as int].allowed@,
                j <= allowed@.len(),
                forall|i: int| 0 <= i < j ==> values[i] != value@,
            decreases allowed@.len() - j,
        {
            if str_equal(allowed[j].as_str(), value) {
                assert(values[j as int] == value@);
                return true;
            }
            j += 1;
        }
        false
    }

    /// What is wrong with `path` (see [`judge_path`]).
    fn violation_for(&self, path: &str) -> (r: Option<String>)
        ensures
            match (r, judge_path(self.config, pattern_views(self.patterns@), path@)) {
                (Some(m), Some(e)) => m@ == e,
                (None, None) => true,
                _ => false,
            },
    {
        let segments = split_str(path, '/');
        let ghost segs = split_seq(path@, '/');
        let ghost pats = pattern_views(self.patterns@);
        let n = segments.len();
        let mut first_bad: Option<String> = None;
        let mut i: usize = 0;
        assert(pats.take(0) =~= Seq::<PatternView>::empty());
        while i < self.patterns.len()
            invariant
                string_pieces(segments@) == segs,
                segs == split_seq(path@, '/'),
                pats == pattern_views(self.patterns@),
                n == segs.len(),
                i <= pats.len(),
                forall|j: int| 0 <= j < i ==> !accepts(self.config, #[trigger] pats[j], segs),
                first_shape_match(pats.take(i as int), segs) < i ==> (first_bad matches Some(m)
                    && m@ == complaints(self.config, pats[first_shape_match(pats.take(i as int), segs)], segs)[0]),
                first_shape_match(pats.take(i as int), segs) >= i ==> first_bad is None,
            decreases pats.len() - i,
        {
            proof {
                lemma_first_shape_match(pats.take(i as int), segs);
                lemma_first_shape_match(pats.take(i as int + 1), segs);
            }
            let ghost p1 = pats.take(i as int + 1);
            assert(p1.drop_last() =~= pats.take(i as int));
            let pattern = &self.patterns[i];
            let ghost pv = pattern@;
            assert(pats[i as int] == pv);
            assert(p1.last() == pv);
            if pattern.segments.len() == n {
                let mut found: Vec<String> = Vec::new();
                let mut shape = true;
                let mut k: usize = 0;
                assert(string_pieces(found@) =~= Seq::<Seq<char>>::empty());
                while shape && k < n
                    invariant
                        string_pieces(segments@) == segs,
                        n == segs.len(),
                        pv == pattern@,
                        pv.segments.len() == n,
                        k <= n,
                        shape ==> forall|j: int| 0 <= j < k ==> match #[trigger] pv.segments[j] {
                            SegmentView::Glob(g) => glob_match(g, segs[j]),
                            SegmentView::Field(_) => true,
                        },
                        shape ==> string_pieces(found@) == complaints_upto(self.config, pv, segs, k as int),
                        !shape ==> !shape_matches(pv, segs),
                    decreases n - k + (if shape { 1int } else { 0int }),
                {
                    assert(pv.segments[k as int] == pattern.segments@[k as int]@);
                    assert(segs[k as int] == segments@[k as int]@);
                    match &pattern.segments[k] {
                        Segment::Glob(g) => {
                            if glob_matches(g.as_str(), segments[k].as_str()) {
                                k += 1;
                            } else {
                                shape = false;
                            }
                        },
                        Segment::Field(name) => {
                            if !self.allows(name.as_str(), segments[k].as_str()) {
                                let m = concat(
                                    concat(
                                        concat(
                                            concat(concat("field <".to_owned(), name.as_str()), "> has disallowed value "),
                                            quote(segments[k].as_str()).as_str(),
                                        ),
                                        " in pattern ",
                                    ),
                                    quote(pattern.source.as_str()).as_str(),
                                );
                                let ghost before = string_pieces(found@);
                                found.push(m);
                                assert(string_pieces(found@) =~= before.push(m@));
                            }
                            k += 1;
                        },
                    }
                }
                if shape {
                    assert(shape_matches(pv, segs));
                    if found.len() == 0 {
                        assert(accepts(self.config, pats[i as int], segs));
                        return None;
                    }
                    if first_bad.is_none() {
                        assert(string_pieces(found@)[0] == found@[0]@);
                        first_bad = Some(found.remove(0));
                    }
                }
            }
            i += 1;
        }
        assert(pats.take(pats.len() as int) =~= pats);
        match first_bad {
            Some(m) => Some(m),
            None => Some("path does not match any allowed pattern".to_owned()),
        }
    }

    /// What is wrong with the path `supplied` (see [`path_verdict`]).
    fn verdict(&self, supplied: &StorePath) -> (r: Option<Violation>)
        ensures
            match (r, path_verdict(self.root@, self.config, pattern_views(self.patterns@), supplied@)) {
                (Some(v), Some(e)) => v@ == e,
                (None, None) => true,
                _ => false,
            },
    {
        let absolute = self.root.join(supplied);
        let in_repo = match absolute.strip_prefix(&self.root) {
            Some(p) => p,
            None => {
                return None;
            },
        };
        let in_store = match in_repo.strip_prefix(&self.config.store.basedir) {
            Some(p) => p,
            None => {
                return None;
            },
        };
        if !in_store.all_normal() {
            return None;
        }
        let ghost t = in_store@;
        let ext = self.config.store.extension.as_str().as_bytes();
        let n = in_store.bytes.len();
        if ext.len() > n {
            return None;
        }
        let mid = n - ext.len();
        let tail = vstd::slice::slice_subrange(in_store.bytes.as_slice(), mid, n);
        assert(tail@ =~= t.skip(mid as int));
        if !crate::path::bytes_equal(tail, ext) {
            return None;
        }
        let s = match utf8_string(in_store.bytes) {
            Some(s) => s,
            None => {
                return Some(Violation { path: in_repo.render(), message: "path is not valid UTF-8".to_owned() });
            },
        };
        if mid == 0 {
            return None;
        }
        proof {
            vstd::utf8::decode_utf8_encode_utf8(t);
            lemma_suffix_boundary(t, self.config.store.extension@);
        }
        assert(vstd::utf8::encode_utf8(s@) == t);
        let (stem, _) = s.as_str().split_at(mid);
        proof {
            vstd::utf8::encode_utf8_decode_utf8(stem@);
        }
        assert(vstd::utf8::encode_utf8(stem@) =~= t.take(mid as int));
        assert(stem@ == vstd::utf8::decode_utf8(t.take(mid as int)));
        match self.violation_for(stem) {
            None => None,
            Some(m) => {
                let path = vstd::slice::slice_to_vec(stem.as_bytes());
                Some(Violation { path, message: m })
            },
        }
    }

    /// Checks `paths` in order and reports each that breaks the rules (see
    /// [`path_verdict`]).
    pub fn check_paths(&self, paths: &Vec<StorePath>) -> (r: Vec<Violation>)
        ensures
            violation_views(r@) == check_all(self.root_path(), self.configuration(), self.pattern_meanings(), path_views(paths@)),
    {
        let ghost all = path_views(paths@);
        let mut out: Vec<Violation> = Vec::new();
        let mut i: usize = 0;
        assert(all.take(0) =~= Seq::<Seq<u8>>::empty());
        assert(violation_views(out@) =~= Seq::<(Seq<u8>, Seq<char>)>::empty());
        while i < paths.len()
            invariant
                all == path_views(paths@),
                i <= all.len(),
                violation_views(out@) == check_all(self.root@, self.config, pattern_views(self.patterns@), all.take(i as int)),
            decreases all.len() - i,
        {
            let ghost p1 = all.take(i as int + 1);
            assert(p1.drop_last() =~= all.take(i as int));
            assert(p1.last() == paths@[i as int]@);
            match self.verdict(&paths[i]) {
                Some(v) => {
                    let ghost before = violation_views(out@);
                    out.push(v);
                    assert(violation_views(out@) =~= before.push(v@));
                },
                None => {},
            }
            i += 1;
        }
        assert(all.take(all.len() as int) =~= all);
        out
    }

    /// Applies the rules of a configuration read from `config_path`: checks
    /// the configuration, parses its patterns, checks that each field segment
    /// is `<host>` or a defined field, and keeps `root` (the directory of the
    /// configuration, or the error met while resolving it).
    pub fn load(config_path: StorePath, config: Config, root: Result<StorePath, String>) -> (r: Result<LoadedConfig, Error>)
        requires
            fields_distinct(config.fields@),
        ensures
            match config_problem(config) {
                Some(m) => r matches Err(Error::InvalidConfig(e)) && e@ == m,
                None => match compile_all(string_pieces(config.paths.allowed@)) {
                    Err(m) => r matches Err(Error::InvalidConfig(e)) && e@ == m,
                    Ok(patterns) => match first_undefined(config, patterns) {
                        Some(m) => r matches Err(Error::InvalidConfig(e)) && e@ == m,
                        None => match root {
                            Err(message) => r matches Err(Error::ReadConfig(p, e)) && p@ == config_path@ && e@ == message@,
                            Ok(dir) => r matches Ok(loaded) && loaded.root_path() == dir@ && loaded.configuration() == config
                                && loaded.pattern_meanings() == patterns,
                        },
                    },
                },
            },
    {
        match validate_config(&config) {
            Err(e) => {
                return Err(e);
            },
            Ok(()) => {},
        }
        let ghost sources = string_pieces(config.paths.allowed@);
        let mut patterns: Vec<Pattern> = Vec::new();
        let mut i: usize = 0;
        assert(sources.take(0) =~= Seq::<Seq<char>>::empty());
        assert(pattern_views(patterns@) =~= Seq::<PatternView>::empty());
        while i < config.paths.allowed.len()
            invariant
                config_problem(config) is None,
                sources == string_pieces(config.paths.allowed@),
                i <= sources.len(),
                compile_all(sources.take(i as int)) == Ok::<Seq<PatternView>, Seq<char>>(pattern_views(patterns@)),
            decreases sources.len() - i,
        {
            let ghost s1 = sources.take(i as int + 1);
            assert(s1.drop_last() =~= sources.take(i as int));
            assert(s1.last() == config.paths.allowed@[i as int]@);
            match parse_pattern(config.paths.allowed[i].as_str()) {
                Ok(pattern) => {
                    let ghost before = pattern_views(patterns@);
                    patterns.push(pattern);
                    assert(pattern_views(patterns@) =~= before.push(pattern@));
                },
                Err(e) => {
                    proof { lemma_compile_error_stays(sources, i as int + 1); }
                    return Err(e);
                },
            }
            i += 1;
        }
        assert(sources.take(sources.len() as int) =~= sources);
        let ghost pats = pattern_views(patterns@);
        let mut j: usize = 0;
        assert(pats.take(0) =~= Seq::<PatternView>::empty());
        while j < patterns.len()
            invariant
                config_problem(config) is None,
                compile_all(string_pieces(config.paths.allowed@)) == Ok::<Seq<PatternView>, Seq<char>>(pats),
                pats == pattern_views(patterns@),
                j <= pats.len(),
                first_undefined(config, pats.take(j as int)) is None,
            decreases pats.len() - j,
        {
            let ghost p1 = pats.take(j as int + 1);
            assert(p1.drop_last() =~= pats.take(j as int));
            assert(p1.last() == patterns@[j as int]@);
            match check_fields(&config, &patterns[j]) {
                Ok(()) => {},
                Err(e) => {
                    proof { lemma_undefined_stays(config, pats, j as int + 1); }
                    return Err(e);
                },
            }
            j += 1;
        }
        assert(pats.take(pats.len() as int) =~= pats);
        match root {
            Err(message) => Err(Error::ReadConfig(config_path, message)),
            Ok(dir) => Ok(LoadedConfig { root: dir, config, patterns }),
        }
    }
}

} // verus!
