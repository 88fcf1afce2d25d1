//! The error taxonomy of the store.

use vstd::prelude::*;
use vstd::string::StringExecFns;

verus! {

/// Errors that can occur during store operations.
///
/// Every operation returns either its computed value or one of these kinds;
/// a verified operation never panics.
#[derive(Debug)]
pub enum Error {
    /// Something went wrong while performing IO; holds a description of the
    /// underlying filesystem failure, supplied by the shell that runs the IO.
    Io(String),
    /// The stored text could not be decoded as a table envelope (or a value
    /// could not be encoded); holds a description of what was malformed.
    Serde(String),
    /// The stored `next_id` failed to parse as a decimal integer.
    ///
    /// The `next_id` of a stored table is a decimal-ASCII string; failing to
    /// read it back as an integer most likely indicates corruption. Holds the
    /// offending text.
    ParseInt(String),
    /// A read targeted a table that does not exist; holds the table name.
    NoSuchTable(String),
    /// A lookup targeted a record key that does not exist.
    NoSuchKey,
}

impl Error {
    /// True on the IO kind.
    pub fn is_io(&self) -> (r: bool)
        ensures
            r == (self is Io),
    {
        matches!(self, Error::Io(_))
    }

    /// True on the encode/decode kind.
    pub fn is_serde(&self) -> (r: bool)
        ensures
            r == (self is Serde),
    {
        matches!(self, Error::Serde(_))
    }

    /// True on the corrupted-counter kind.
    pub fn is_parse_int(&self) -> (r: bool)
        ensures
            r == (self is ParseInt),
    {
        matches!(self, Error::ParseInt(_))
    }

    /// True on the missing-table kind.
    pub fn is_no_such_table(&self) -> (r: bool)
        ensures
            r == (self is NoSuchTable),
    {
        matches!(self, Error::NoSuchTable(_))
    }

    /// True on the missing-key kind.
    pub fn is_no_such_key(&self) -> (r: bool)
        ensures
            r == (self is NoSuchKey),
    {
        matches!(self, Error::NoSuchKey)
    }

    /// A human-readable description of the error.
    pub fn message(&self) -> (r: String)
        ensures
            match self {
                Error::Io(e) => r@ == "Error performing IO: "@ + e@,
                Error::Serde(e) => r@ == "Error (de)serializing: "@ + e@,
                Error::ParseInt(e) => r@ == "Error parsing an integer: "@ + e@,
                Error::NoSuchTable(t) => r@ == "Tried to open the table \""@ + t@
                    + "\", which does not exist."@,
                Error::NoSuchKey => r@ == "Tried to retrieve a key which doesn't exist."@,
            },
    {
        match self {
            Error::Io(e) => {
                let mut r = "Error performing IO: ".to_owned();
                r.append(e.as_str());
                r
            },
            Error::Serde(e) => {
                let mut r = "Error (de)serializing: ".to_owned();
                r.append(e.as_str());
                r
            },
            Error::ParseInt(e) => {
                let mut r = "Error parsing an integer: ".to_owned();
                r.append(e.as_str());
                r
            },
            Error::NoSuchTable(t) => {
                let mut r = "Tried to open the table \"".to_owned();
                r.append(t.as_str());
                r.append("\", which does not exist.");
                r
            },
            Error::NoSuchKey => "Tried to retrieve a key which doesn't exist.".to_owned(),
        }
    }
}

} // verus!
