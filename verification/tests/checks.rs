use passlint::config::{Config, Error, Field, Paths, Store};
use passlint::glob::glob_matches;
use passlint::host::host_matches;
use passlint::loaded::{LoadedConfig, Violation};
use passlint::order::{path_less, sort_paths};
use passlint::path::StorePath;
use passlint::pattern::{parse_pattern, Segment};
use std::path::Path;

fn store_path(text: &str) -> StorePath {
    StorePath {
        bytes: Path::new(text).as_os_str().as_encoded_bytes().to_vec(),
    }
}

fn strings(values: &[&str]) -> Vec<String> {
    values.iter().map(|v| v.to_string()).collect()
}

fn config(basedir: &str, extension: &str, allowed: &[&str], fields: &[(&str, &[&str])]) -> Config {
    Config {
        store: Store {
            basedir: store_path(basedir),
            extension: extension.to_string(),
        },
        paths: Paths {
            allowed: strings(allowed),
        },
        fields: fields
            .iter()
            .map(|(name, values)| Field {
                name: name.to_string(),
                allowed: strings(values),
            })
            .collect(),
    }
}

fn load(config: Config) -> Result<LoadedConfig, Error> {
    LoadedConfig::load(
        store_path("/fixture/passlint.toml"),
        config,
        Ok(store_path("/fixture")),
    )
}

fn invalid_message(result: Result<LoadedConfig, Error>) -> String {
    match result {
        Err(Error::InvalidConfig(message)) => message,
        other => panic!("expected an invalid configuration, got {other:?}"),
    }
}

fn paths(texts: &[&str]) -> Vec<StorePath> {
    texts.iter().map(|t| store_path(t)).collect()
}

fn documented() -> LoadedConfig {
    load(config(
        "store",
        ".age",
        &["infra/aws/<environment>/*"],
        &[("environment", &["dev", "stage", "prod"])],
    ))
    .unwrap()
}

#[test]
fn glob_matches_within_one_segment() {
    assert!(glob_matches("*", "service"));
    assert!(glob_matches("prod-*", "prod-api"));
    assert!(glob_matches("??", "ab"));
    assert!(!glob_matches("prod-*", "stage-api"));
}

#[test]
fn host_matches_hostname_with_optional_port() {
    for value in [
        "localhost",
        "example.com",
        "api-1.example.com",
        "127.0.0.1",
        "example.com:443",
        "localhost:0",
        "localhost:65535",
    ] {
        assert!(host_matches(value), "expected {value:?} to match");
    }

    for value in [
        "",
        ".example.com",
        "example..com",
        "-example.com",
        "example-.com",
        "example.com:",
        "example.com:http",
        "example.com:65536",
        "example.com:80:90",
        "[::1]:443",
    ] {
        assert!(!host_matches(value), "expected {value:?} not to match");
    }
}

#[test]
fn parses_field_segments() {
    let pattern = parse_pattern("infra/aws/<environment>/*").unwrap();
    assert!(matches!(&pattern.segments[2], Segment::Field(name) if name == "environment"));
}

#[test]
fn checks_the_documented_configuration() {
    let config = documented();
    let files = paths(&[
        "/fixture/store/infra/aws/production/database.age",
        "/fixture/store/unrelated.txt",
        "/fixture/store/infra/aws/dev/database.age",
    ]);
    let violations = config.scan_all(true, files).unwrap();
    assert_eq!(violations.len(), 1);
    assert_eq!(violations[0].path, b"infra/aws/production/database".to_vec());
    assert!(violations[0].message.contains("<environment>"));
    assert!(violations[0].message.contains("production"));
}

#[test]
fn checks_the_builtin_host_field() {
    let config = load(config("", ".gpg", &["servers/<host>"], &[])).unwrap();
    let supplied = paths(&[
        "servers/example.com.gpg",
        "servers/example.com:443.gpg",
        "servers/-example.com.gpg",
        "servers/example.com:70000.gpg",
    ]);
    let violations = config.check_paths(&supplied);
    assert_eq!(violations.len(), 2);
    assert!(violations
        .iter()
        .all(|violation| violation.message.contains("<host>")));
}

#[test]
fn explicit_paths_ignore_files_outside_the_store_and_other_extensions() {
    let config = load(config("passwords", ".gpg", &["personal/*"], &[])).unwrap();
    let supplied = paths(&[
        "README.md",
        "passwords/notes.txt",
        "passwords/work/account.gpg",
    ]);
    let violations = config.check_paths(&supplied);
    assert_eq!(violations.len(), 1);
    assert_eq!(violations[0].path, b"work/account".to_vec());
}

#[test]
fn disallowed_field_value_message_is_exact() {
    let config = documented();
    let violations = config.check_paths(&paths(&["store/infra/aws/production/database.age"]));
    assert_eq!(violations.len(), 1);
    assert_eq!(
        violations[0].message,
        "field <environment> has disallowed value \"production\" in pattern \"infra/aws/<environment>/*\""
    );
}

#[test]
fn unmatched_shape_has_the_default_message() {
    let config = documented();
    let violations = config.check_paths(&paths(&["store/infra/database.age", "store/infra/aws/dev/db/x.age"]));
    assert_eq!(violations.len(), 2);
    for violation in &violations {
        assert_eq!(violation.message, "path does not match any allowed pattern");
    }
}

#[test]
fn accepted_paths_are_not_reported() {
    let config = documented();
    let violations = config.check_paths(&paths(&[
        "store/infra/aws/dev/database.age",
        "store/infra/aws/prod/api.age",
        "/fixture/store/infra/aws/stage/x.age",
    ]));
    assert!(violations.is_empty());
}

#[test]
fn later_pattern_accepts_after_earlier_complaint() {
    let config = load(config(
        "",
        ".gpg",
        &["<env>/*", "other/*"],
        &[("env", &["dev"])],
    ))
    .unwrap();
    let violations = config.check_paths(&paths(&["other/x.gpg", "prod/x.gpg"]));
    assert_eq!(violations.len(), 1);
    assert_eq!(violations[0].path, b"prod/x".to_vec());
    assert_eq!(
        violations[0].message,
        "field <env> has disallowed value \"prod\" in pattern \"<env>/*\""
    );
}

#[test]
fn first_complaint_of_first_fitting_pattern_is_reported() {
    let config = load(config(
        "",
        ".gpg",
        &["<a>/<b>", "<b>/*"],
        &[("a", &["x"]), ("b", &["y"])],
    ))
    .unwrap();
    let violations = config.check_paths(&paths(&["q/r.gpg"]));
    assert_eq!(violations.len(), 1);
    assert_eq!(
        violations[0].message,
        "field <a> has disallowed value \"q\" in pattern \"<a>/<b>\""
    );
}

#[test]
fn non_utf8_path_is_reported_relative_to_root() {
    let config = load(config("store", ".age", &["*"], &[])).unwrap();
    let path = StorePath {
        bytes: vec![b's', b't', b'o', b'r', b'e', b'/', 0xff, b'a', b'/', b'x', b'.', b'a', b'g', b'e'],
    };
    let violations = config.check_paths(&vec![path]);
    assert_eq!(violations.len(), 1);
    assert_eq!(violations[0].path, vec![b's', b't', b'o', b'r', b'e', b'/', 0xff, b'a', b'/', b'x', b'.', b'a', b'g', b'e']);
    assert_eq!(violations[0].message, "path is not valid UTF-8");
}

#[test]
fn parent_components_and_bare_extension_are_ignored() {
    let config = load(config("store", ".age", &["nothing"], &[])).unwrap();
    let violations = config.check_paths(&paths(&[
        "store/../store/x.age",
        "store/.age",
        "/elsewhere/store/x.age",
        "store/x.gpg",
    ]));
    assert!(violations.is_empty());
}

#[test]
fn relative_and_absolute_paths_agree() {
    let config = documented();
    let relative = config.check_paths(&paths(&["store/infra/aws/qa/db.age"]));
    let absolute = config.check_paths(&paths(&["/fixture/store/infra/aws/qa/db.age"]));
    assert_eq!(relative.len(), 1);
    assert_eq!(absolute.len(), 1);
    assert_eq!(relative[0].path, absolute[0].path);
    assert_eq!(relative[0].message, absolute[0].message);
}

#[test]
fn checking_in_parts_equals_checking_at_once() {
    let config = documented();
    let first = paths(&["store/infra/aws/qa/a.age", "store/infra/b.age"]);
    let second = paths(&["store/infra/aws/dev/c.age", "store/x/y/z/w.age"]);
    let mut both = paths(&["store/infra/aws/qa/a.age", "store/infra/b.age"]);
    both.extend(paths(&["store/infra/aws/dev/c.age", "store/x/y/z/w.age"]));
    let mut parts: Vec<Violation> = config.check_paths(&first);
    parts.extend(config.check_paths(&second));
    let whole = config.check_paths(&both);
    assert_eq!(whole.len(), parts.len());
    for (a, b) in whole.iter().zip(parts.iter()) {
        assert_eq!(a.path, b.path);
        assert_eq!(a.message, b.message);
    }
}

#[test]
fn scan_order_does_not_matter() {
    let config = documented();
    let one = config
        .scan_all(true, paths(&["/fixture/store/infra/aws/qa/b.age", "/fixture/store/infra/aws/qa/a.age"]))
        .unwrap();
    let two = config
        .scan_all(true, paths(&["/fixture/store/infra/aws/qa/a.age", "/fixture/store/infra/aws/qa/b.age"]))
        .unwrap();
    let one: Vec<Vec<u8>> = one.into_iter().map(|v| v.path).collect();
    let two: Vec<Vec<u8>> = two.into_iter().map(|v| v.path).collect();
    assert_eq!(one, vec![b"infra/aws/qa/a".to_vec(), b"infra/aws/qa/b".to_vec()]);
    assert_eq!(one, two);
}

#[test]
fn missing_store_is_an_error() {
    let config = documented();
    assert_eq!(config.store_directory().render(), b"/fixture/store".to_vec());
    match config.scan_all(false, Vec::new()) {
        Err(Error::InvalidConfig(message)) => {
            assert_eq!(message, "store directory /fixture/store does not exist")
        }
        other => panic!("unexpected {other:?}"),
    }
}

#[test]
fn sort_orders_components_then_bytes() {
    let sorted = sort_paths(paths(&["/b", "/a/z", "/a", "/a/b", "/B"]));
    let rendered: Vec<Vec<u8>> = sorted.iter().map(|p| p.render()).collect();
    assert_eq!(
        rendered,
        vec![b"/B".to_vec(), b"/a".to_vec(), b"/a/b".to_vec(), b"/a/z".to_vec(), b"/b".to_vec()]
    );
    let mut expected = vec!["/b", "/a/z", "/a", "/a/b", "/B"].into_iter().map(std::path::PathBuf::from).collect::<Vec<_>>();
    expected.sort();
    let expected: Vec<Vec<u8>> = expected.iter().map(|p| p.as_os_str().as_encoded_bytes().to_vec()).collect();
    assert_eq!(rendered, expected);
}

#[test]
fn glob_laws_on_values() {
    assert!(glob_matches("*", ""));
    assert!(glob_matches("*", "anything at all"));
    assert!(glob_matches("?", "é"));
    assert!(!glob_matches("?", ""));
    assert!(!glob_matches("?", "ab"));
    assert!(glob_matches("plain", "plain"));
    assert!(!glob_matches("plain", "plainer"));
    assert!(glob_matches("a*b*c", "axxbyyc"));
    assert!(!glob_matches("a*b*c", "axxbyy"));
    assert!(glob_matches("**", ""));
}

#[test]
fn host_edge_cases() {
    assert!(host_matches("localhost:00080"));
    assert!(host_matches("a"));
    assert!(!host_matches(&"a".repeat(64)));
    assert!(host_matches(&"a".repeat(63)));
    let long = vec!["a".repeat(63); 4].join(".");
    assert_eq!(long.len(), 255);
    assert!(!host_matches(&long));
    assert!(!host_matches("ex_ample.com"));
    assert!(!host_matches("exämple.com"));
    assert!(!host_matches("example.com:99999999999999999999"));
}

#[test]
fn pattern_errors() {
    for (source, message) in [
        ("", "invalid allowed path pattern \"\""),
        ("/a", "invalid allowed path pattern \"/a\""),
        ("a/", "invalid allowed path pattern \"a/\""),
        ("a/<b", "malformed field in pattern \"a/<b\""),
        ("a/b>", "malformed field in pattern \"a/b>\""),
        ("a/<", "malformed field in pattern \"a/<\""),
        ("a/<>", "invalid field name <> in pattern \"a/<>\""),
        ("a/<b-c>", "invalid field name <b-c> in pattern \"a/<b-c>\""),
    ] {
        match parse_pattern(source) {
            Err(Error::InvalidConfig(m)) => assert_eq!(m, message),
            other => panic!("unexpected {other:?}"),
        }
    }
    let pattern = parse_pattern("a//<B_1>/x?y").unwrap();
    assert_eq!(pattern.segments.len(), 4);
    assert!(matches!(&pattern.segments[1], Segment::Glob(g) if g.is_empty()));
    assert!(matches!(&pattern.segments[2], Segment::Field(n) if n == "B_1"));
}

#[test]
fn configuration_errors() {
    assert_eq!(
        invalid_message(load(config("store", "", &["*"], &[]))),
        "store.extension must not be empty"
    );
    assert_eq!(
        invalid_message(load(config("store", ".a/b", &["*"], &[]))),
        "store.extension must not contain a path separator"
    );
    assert_eq!(
        invalid_message(load(config("store", ".a\\b", &["*"], &[]))),
        "store.extension must not contain a path separator"
    );
    assert_eq!(
        invalid_message(load(config("/abs", ".age", &["*"], &[]))),
        "store.basedir must be relative to the repository root"
    );
    assert_eq!(
        invalid_message(load(config("../up", ".age", &["*"], &[]))),
        "store.basedir must be relative to the repository root"
    );
    assert_eq!(
        invalid_message(load(config("store", ".age", &[], &[]))),
        "paths.allowed must contain at least one pattern"
    );
    assert_eq!(
        invalid_message(load(config("store", ".age", &["a/<missing>"], &[]))),
        "pattern \"a/<missing>\" refers to undefined field <missing>"
    );
    assert!(load(config("store", ".age", &["a/<host>"], &[])).is_ok());
    match LoadedConfig::load(
        store_path("/fixture/passlint.toml"),
        config("store", ".age", &["*"], &[]),
        Err("gone".to_string()),
    ) {
        Err(Error::ReadConfig(p, m)) => {
            assert_eq!(p.render(), b"/fixture/passlint.toml".to_vec());
            assert_eq!(m, "gone");
        }
        other => panic!("unexpected {other:?}"),
    }
}

#[test]
fn discovery_searches_upwards() {
    let start = store_path("/a/b/file.txt");
    let candidates = LoadedConfig::config_candidates(&start, false);
    let rendered: Vec<Vec<u8>> = candidates.iter().map(|p| p.render()).collect();
    assert_eq!(
        rendered,
        vec![
            b"/a/b/passlint.toml".to_vec(),
            b"/a/passlint.toml".to_vec(),
            b"/passlint.toml".to_vec()
        ]
    );
    let found = LoadedConfig::discover(&start, false, &vec![false, true, true]).unwrap();
    assert_eq!(found.render(), b"/a/passlint.toml".to_vec());
    match LoadedConfig::discover(&start, false, &vec![false, false, false]) {
        Err(Error::NoConfig(dir)) => assert_eq!(dir.render(), b"/a/b".to_vec()),
        other => panic!("unexpected {other:?}"),
    }
    let as_dir = LoadedConfig::config_candidates(&store_path("/a"), true);
    assert_eq!(as_dir.len(), 2);
}

#[test]
fn non_utf8_file_without_extension_is_ignored() {
    let config = load(config("passwords", ".gpg", &["personal/*"], &[])).unwrap();
    let mut bytes = b"passwords/notes".to_vec();
    bytes.push(0xff);
    bytes.extend_from_slice(b".txt");
    let violations = config.check_paths(&vec![StorePath { bytes }]);
    assert!(violations.is_empty());
}

#[test]
fn missing_store_message_keeps_the_configured_text() {
    let config = load(config("store/", ".age", &["*"], &[])).unwrap();
    assert_eq!(config.store_directory().render(), b"/fixture/store/".to_vec());
    match config.scan_all(false, Vec::new()) {
        Err(Error::InvalidConfig(message)) => {
            assert_eq!(message, "store directory /fixture/store/ does not exist")
        }
        other => panic!("unexpected {other:?}"),
    }
}

#[test]
fn supplied_text_is_split_as_written() {
    let config = documented();
    let violations = config.check_paths(&paths(&[
        "store/infra//aws/dev/x.age",
        "store/infra/./aws/dev/y.age",
        "store//infra/aws/dev/z.age",
        "store/infra/aws/dev/w.age/",
    ]));
    assert_eq!(violations.len(), 2);
    assert_eq!(violations[0].path, b"infra//aws/dev/x".to_vec());
    assert_eq!(violations[0].message, "path does not match any allowed pattern");
    assert_eq!(violations[1].path, b"infra/./aws/dev/y".to_vec());
    assert_eq!(violations[1].message, "path does not match any allowed pattern");
}

#[test]
fn path_operations_follow_std() {
    for (base, rel) in [("/a", "b"), ("/a/", "b"), ("/a", "/c"), ("", "b"), ("/a", ""), ("a/.", "./b")] {
        let joined = store_path(base).join(&store_path(rel)).render();
        let expected = Path::new(base).join(rel);
        assert_eq!(joined, expected.as_os_str().as_encoded_bytes().to_vec());
    }
    for (p, base) in [("/a/b/c", "/a"), ("/a//b/./c/", "/a"), ("/a/b", "/a/b"), ("/a/b", "/x"), ("a/b", ""), ("/a", ""), ("./a/b", "."), ("/a/b/./c", "/a")] {
        let ours = store_path(p).strip_prefix(&store_path(base)).map(|r| r.render());
        let std = Path::new(p)
            .strip_prefix(base)
            .ok()
            .map(|r| r.as_os_str().as_encoded_bytes().to_vec());
        assert_eq!(ours, std, "strip {p:?} by {base:?}");
    }
    for p in ["/a/b", "/a", "/", "a", "a/b/", ".", "./a", "", "/a//b/."] {
        let ours = store_path(p).parent().map(|r| r.render());
        let std = Path::new(p).parent().map(|r| r.as_os_str().as_encoded_bytes().to_vec());
        assert_eq!(ours, std, "parent of {p:?}");
    }
    assert!(path_less(&store_path("/a//b"), &store_path("/a/b/c")));
    assert!(path_less(&store_path("/a//b"), &store_path("/a/b")));
    assert!(!path_less(&store_path("/a/b"), &store_path("/a//b")));
}

#[test]
fn error_messages() {
    assert_eq!(
        Error::NoConfig(store_path("/a/b")).message(),
        "could not find passlint.toml in /a/b or any parent directory"
    );
    assert_eq!(
        Error::ReadConfig(store_path("/a/passlint.toml"), "denied".to_string()).message(),
        "could not read /a/passlint.toml: denied"
    );
    assert_eq!(
        Error::ParseConfig(store_path("/a/passlint.toml"), "bad".to_string()).message(),
        "could not parse /a/passlint.toml: bad"
    );
    assert_eq!(
        Error::InvalidConfig("x".to_string()).message(),
        "invalid configuration: x"
    );
    let walk = Error::Walk(StorePath { bytes: vec![b'/', 0xff] }, "gone".to_string()).message();
    assert_eq!(walk, "could not inspect /\u{fffd}: gone");
}

#[test]
fn violation_headings() {
    use_heading(1, "Error: 1 violation found");
    use_heading(0, "Error: 0 violations found");
    use_heading(2, "Error: 2 violations found");
    use_heading(1203, "Error: 1203 violations found");
}

fn use_heading(count: usize, expected: &str) {
    assert_eq!(passlint::loaded::violation_heading(count), expected);
    assert_eq!(passlint::loaded::decimal_string(count), count.to_string());
}
