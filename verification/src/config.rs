//! The configuration that `passlint.toml` holds, and its errors.

use vstd::prelude::*;
use crate::path::{StorePath, all_normal, has_root, components_of};
use crate::text::{string_pieces, lossy_text, lossy_string, concat};
use crate::loaded::CONFIG_FILE;

verus! {

/// The `[store]` table.
#[derive(Debug)]
pub struct Store {
    /// The password directory, relative to the directory of the
    /// configuration file; empty for that directory itself.
    pub basedir: StorePath,
    /// The extension of password files, with its leading dot.
    pub extension: String,
}

/// The `[paths]` table.
#[derive(Debug)]
pub struct Paths {
    /// The accepted path patterns.
    pub allowed: Vec<String>,
}

/// One `[fields.<name>]` table.
#[derive(Debug)]
pub struct Field {
    pub name: String,
    /// The exact values accepted for the `<name>` segment.
    pub allowed: Vec<String>,
}

/// The whole configuration.
#[derive(Debug)]
pub struct Config {
    pub store: Store,
    pub paths: Paths,
    pub fields: Vec<Field>,
}

/// What can go wrong while finding, reading or applying a configuration.
/// Messages of outside failures (I/O, TOML syntax) are kept as text.
#[derive(Debug)]
pub enum Error {
    /// No configuration file in the given directory or any parent.
    NoConfig(StorePath),
    /// The configuration file, or its directory, could not be read.
    ReadConfig(StorePath, String),
    /// The configuration file is not valid TOML for a configuration.
    ParseConfig(StorePath, String),
    /// The configuration breaks one of its rules.
    InvalidConfig(String),
    /// A directory of the store could not be inspected.
    Walk(StorePath, String),
}

/// The text that describes an error; a path is shown as its text, with
/// bytes that are not UTF-8 replaced as `String::from_utf8_lossy` does.
pub open spec fn error_text(e: Error) -> Seq<char> {
    match e {
        Error::NoConfig(dir) => "could not find "@ + CONFIG_FILE@ + " in "@ + lossy_text(dir@)
            + " or any parent directory"@,
        Error::ReadConfig(path, m) => "could not read "@ + lossy_text(path@) + ": "@ + m@,
        Error::ParseConfig(path, m) => "could not parse "@ + lossy_text(path@) + ": "@ + m@,
        Error::InvalidConfig(m) => "invalid configuration: "@ + m@,
        Error::Walk(path, m) => "could not inspect "@ + lossy_text(path@) + ": "@ + m@,
    }
}

impl Error {
    /// The text that describes this error (see [`error_text`]).
    pub fn message(&self) -> (r: String)
        ensures
            r@ == error_text(*self),
    {
        match self {
            Error::NoConfig(dir) => {
                let shown = lossy_string(dir.bytes.as_slice());
                concat(concat(concat(concat("could not find ".to_owned(), CONFIG_FILE), " in "), shown.as_str()), " or any parent directory")
            },
            Error::ReadConfig(path, m) => {
                let shown = lossy_string(path.bytes.as_slice());
                concat(concat(concat("could not read ".to_owned(), shown.as_str()), ": "), m.as_str())
            },
            Error::ParseConfig(path, m) => {
                let shown = lossy_string(path.bytes.as_slice());
                concat(concat(concat("could not parse ".to_owned(), shown.as_str()), ": "), m.as_str())
            },
            Error::InvalidConfig(m) => concat("invalid configuration: ".to_owned(), m.as_str()),
            Error::Walk(path, m) => {
                let shown = lossy_string(path.bytes.as_slice());
                concat(concat(concat("could not inspect ".to_owned(), shown.as_str()), ": "), m.as_str())
            },
        }
    }
}

/// The rule that a configuration breaks first, if any: the extension must
/// be non-empty and hold no path separator, the base directory must be a
/// relative path of plain names, and at least one pattern must be given.
pub open spec fn config_problem(c: Config) -> Option<Seq<char>> {
    if c.store.extension@.len() == 0 {
        Some("store.extension must not be empty"@)
    } else if c.store.extension@.contains('/') || c.store.extension@.contains('\\') {
        Some("store.extension must not contain a path separator"@)
    } else if has_root(c.store.basedir@) || !all_normal(components_of(c.store.basedir@)) {
        Some("store.basedir must be relative to the repository root"@)
    } else if c.paths.allowed@.len() == 0 {
        Some("paths.allowed must contain at least one pattern"@)
    } else {
        None
    }
}

/// No two fields share a name, as in the TOML table `[fields]` that they
/// come from, whose keys are distinct.
pub open spec fn fields_distinct(fields: Seq<Field>) -> bool {
    forall|i: int, j: int| 0 <= i < j < fields.len() ==> #[trigger] fields[i].name@ != #[trigger] fields[j].name@
}

/// The index of the first field called `name`, or `fields.len()`.
pub open spec fn field_position(fields: Seq<Field>, name: Seq<char>) -> int
    decreases fields.len(),
{
    if fields.len() == 0 {
        0
    } else if fields[0].name@ == name {
        0
    } else {
        1 + field_position(fields.drop_first(), name)
    }
}

/// The values accepted for the field called `name`, when it is defined.
pub open spec fn field_values(c: Config, name: Seq<char>) -> Option<Seq<Seq<char>>> {
    let k = field_position(c.fields@, name);
    if k < c.fields@.len() {
        Some(string_pieces(c.fields@[k].allowed@))
    } else {
        None
    }
}

pub proof fn lemma_field_position(fields: Seq<Field>, name: Seq<char>)
    ensures
        0 <= field_position(fields, name) <= fields.len(),
        field_position(fields, name) < fields.len() ==> fields[field_position(fields, name)].name@
            == name,
        forall|j: int| 0 <= j < field_position(fields, name) ==> fields[j].name@ != name,
    decreases fields.len(),
{
    if fields.len() > 0 && fields[0].name@ != name {
        lemma_field_position(fields.drop_first(), name);
        assert forall|j: int| 0 <= j < field_position(fields, name) implies fields[j].name@
            != name by {
            if j > 0 {
                assert(fields[j] == fields.drop_first()[j - 1]);
            }
        }
    }
}

fn has_char(s: &str, c: char) -> (r: bool)
    ensures
        r == s@.contains(c),
{
    let n = s.unicode_len();
    let mut i: usize = 0;
    while i < n
        invariant
            n == s@.len(),
            i <= n,
            forall|j: int| 0 <= j < i ==> s@[j] != c,
        decreases n - i,
    {
        if s.get_char(i) == c {
            return true;
        }
        i += 1;
    }
    false
}

fn invalid(message: &str) -> (r: Result<(), Error>)
    ensures
        r matches Err(Error::InvalidConfig(m)) && m@ == message@,
{
    Err(Error::InvalidConfig(message.to_owned()))
}

/// Checks the rules of [`config_problem`]: `Err` with the message of the
/// first broken rule, `Ok` when none is broken.
pub fn validate_config(config: &Config) -> (r: Result<(), Error>)
    ensures
        match (r, config_problem(*config)) {
            (Ok(()), None) => true,
            (Err(Error::InvalidConfig(m)), Some(p)) => m@ == p,
            _ => false,
        },
{
    let extension = config.store.extension.as_str();
    if extension.unicode_len() == 0 {
        return invalid("store.extension must not be empty");
    }
    if has_char(extension, '/') || has_char(extension, '\\') {
        return invalid("store.extension must not contain a path separator");
    }
    if config.store.basedir.is_absolute() || !config.store.basedir.all_normal() {
        return invalid("store.basedir must be relative to the repository root");
    }
    if config.paths.allowed.len() == 0 {
        return invalid("paths.allowed must contain at least one pattern");
    }
    Ok(())
}

} // verus!
