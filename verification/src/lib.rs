//! `berlin-core`: the FSBerlin substrate core library.
//!
//! The library holds the substrate's own logic (frontmatter extraction,
//! relation resolution, validation findings, the index rows, the query
//! grammar, waypoint rendering decisions, project scaffolding text and the
//! calendar arithmetic behind `created` dates). Reading and writing the
//! filesystem, YAML deserialisation into the models, and SQLite execution are
//! done by the program around it.

use vstd::prelude::*;

pub mod frontmatter;
pub mod index;
pub mod init;
pub mod links;
pub mod model;
pub mod query;
pub mod render;
pub mod text;
pub mod validate;
pub mod walk;
pub mod watch;

verus! {

/// Errors produced by the substrate core.
///
/// Outside errors (I/O, YAML, SQLite) are carried as their rendered message.
#[derive(Debug)]
pub enum Error {
    /// An I/O error while reading or writing the project tree.
    Io(String),
    /// A YAML parse or schema-shape error in frontmatter.
    Yaml(String),
    /// A SQLite error from the index mirror.
    Sqlite(String),
    /// The file had no `---`-delimited frontmatter block at its head.
    MissingFrontmatter,
    /// A malformed query expression.
    Query(String),
    /// A waypoint render was refused.
    Render(String),
    /// A project scaffold was refused.
    Init(String),
}

/// Convenience alias used throughout the crate.
pub type Result<T> = std::result::Result<T, Error>;

/// The human-readable message of an error.
pub open spec fn error_message(e: Error) -> Seq<char> {
    match e {
        Error::Io(m) => "i/o error: "@ + m@,
        Error::Yaml(m) => "yaml error: "@ + m@,
        Error::Sqlite(m) => "sqlite error: "@ + m@,
        Error::MissingFrontmatter => "no frontmatter block found"@,
        Error::Query(m) => "query error: "@ + m@,
        Error::Render(m) => "render error: "@ + m@,
        Error::Init(m) => "init error: "@ + m@,
    }
}

impl Error {
    /// The human-readable message of this error.
    pub fn message(&self) -> (m: String)
        ensures
            m@ == error_message(*self),
    {
        let mut out = String::new();
        match self {
            Error::Io(m) => {
                out.append("i/o error: ");
                out.append(m.as_str());
            },
            Error::Yaml(m) => {
                out.append("yaml error: ");
                out.append(m.as_str());
            },
            Error::Sqlite(m) => {
                out.append("sqlite error: ");
                out.append(m.as_str());
            },
            Error::MissingFrontmatter => {
                out.append("no frontmatter block found");
            },
            Error::Query(m) => {
                out.append("query error: ");
                out.append(m.as_str());
            },
            Error::Render(m) => {
                out.append("render error: ");
                out.append(m.as_str());
            },
            Error::Init(m) => {
                out.append("init error: ");
                out.append(m.as_str());
            },
        }
        out
    }
}

/// The refusal of a command that needs a project, for a directory without
/// `.fsberlin/config.yaml`.
pub open spec fn not_a_project_message(path_display: Seq<char>) -> Seq<char> {
    path_display + " is not an FSBerlin project (no .fsberlin/config.yaml)"@
}

/// Refuse early when `path` does not look like an FSBerlin project (its
/// `.fsberlin/config.yaml` is not a file), so commands such as `query` and
/// `watch` give a clear message instead of silent empty output.
pub fn require_project(path_display: &str, config_is_file: bool) -> (r: Result<()>)
    ensures
        config_is_file ==> r is Ok,
        !config_is_file ==> (r matches Err(Error::Query(m)) && m@ == not_a_project_message(
            path_display@,
        )),
{
    if !config_is_file {
        let mut m = String::new();
        m.append(path_display);
        m.append(" is not an FSBerlin project (no .fsberlin/config.yaml)");
        return Err(Error::Query(m));
    }
    Ok(())
}

/// The substrate-core version string.
pub fn version() -> (v: &'static str)
    ensures
        v@ == "0.1.0"@,
        v@.len() > 0,
{
    proof {
        reveal_strlit("0.1.0");
    }
    "0.1.0"
}

} // verus!
