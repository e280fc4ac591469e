//! What can go wrong in the library's own logic.

use vstd::prelude::*;

use crate::text::{decimal_of, decimal_of_u64};
#[allow(unused_imports)]
use crate::text::{decimal, decimal_nat};
#[allow(unused_imports)]
use vstd::string::*;

verus! {

/// The library's errors. Failures of a database, a file or a model belong to
/// the code around the library and are not among them.
#[derive(Debug, Clone)]
pub enum Error {
    /// The store was written by a newer binary.
    SchemaTooNew { found: i64, supported: i64 },
    /// A reference that names nothing.
    NotFound(String),
    /// A reference that names several nodes.
    AmbiguousRef(String, usize),
    /// A value that cannot be accepted.
    Invalid(String),
    /// A configuration that cannot be read.
    Config(String),
}

pub type Result<T> = std::result::Result<T, Error>;

impl Error {
    /// The text shown for the error.
    pub open spec fn text(self) -> Seq<char> {
        match self {
            Error::SchemaTooNew { found, supported } => "database schema version "@ + decimal(
                found as int,
            ) + " is newer than this binary supports ("@ + decimal(supported as int)
                + "); upgrade mimir"@,
            Error::NotFound(what) => "not found: "@ + what@,
            Error::AmbiguousRef(what, n) => "ambiguous reference '"@ + what@ + "' matches "@
                + decimal_nat(n as nat) + " nodes; use a longer prefix"@,
            Error::Invalid(what) => what@,
            Error::Config(what) => "config error: "@ + what@,
        }
    }

    /// `name` is not the name of any `what`.
    pub fn unknown(what: &str, name: &str) -> (r: Error)
        ensures
            r is Invalid,
            r.text() == "unknown "@ + what@ + " '"@ + name@ + "'"@,
    {
        let mut msg = String::new();
        msg.append("unknown ");
        msg.append(what);
        msg.append(" '");
        msg.append(name);
        msg.append("'");
        assert(msg@ =~= "unknown "@ + what@ + " '"@ + name@ + "'"@);
        Error::Invalid(msg)
    }

    /// The text shown for the error.
    pub fn message(&self) -> (r: String)
        ensures
            r@ == self.text(),
    {
        let mut out = String::new();
        match self {
            Error::SchemaTooNew { found, supported } => {
                out.append("database schema version ");
                out.append(decimal_of(*found).as_str());
                out.append(" is newer than this binary supports (");
                out.append(decimal_of(*supported).as_str());
                out.append("); upgrade mimir");
            },
            Error::NotFound(what) => {
                out.append("not found: ");
                out.append(what.as_str());
            },
            Error::AmbiguousRef(what, n) => {
                out.append("ambiguous reference '");
                out.append(what.as_str());
                out.append("' matches ");
                out.append(decimal_of_u64(*n as u64).as_str());
                out.append(" nodes; use a longer prefix");
            },
            Error::Invalid(what) => {
                out.append(what.as_str());
            },
            Error::Config(what) => {
                out.append("config error: ");
                out.append(what.as_str());
            },
        }
        assert(out@ =~= self.text());
        out
    }
}

} // verus!
