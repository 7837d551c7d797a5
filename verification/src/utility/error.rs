//! The errors of the server and the HTTP status that each is answered with.
use vstd::prelude::*;
use vstd::string::StringExecFns;

verus! {

#[derive(Debug)]
pub enum Error {
    /// The configuration cannot be used.
    BadConfig(&'static str),
    /// The stored data is not what the server wrote.
    BadDatabase(&'static str),
    /// The client's request is refused.
    BadRequest(&'static str),
    /// The storage backend failed; the text is its own message.
    SqliteError { source: String },
}

pub type Result<T> = core::result::Result<T, Error>;

/// The text that an error is shown as.
pub open spec fn error_text(e: Error) -> Seq<char> {
    match e {
        Error::BadConfig(msg) => msg@,
        Error::BadDatabase(msg) => msg@,
        Error::BadRequest(msg) => msg@,
        Error::SqliteError { source } => "There was a problem with the connection to the sqlite database: "@
            + source@,
    }
}

impl Error {
    pub fn bad_config(msg: &'static str) -> (r: Self)
        ensures
            r == Error::BadConfig(msg),
    {
        Self::BadConfig(msg)
    }

    pub fn bad_database(msg: &'static str) -> (r: Self)
        ensures
            r == Error::BadDatabase(msg),
    {
        Self::BadDatabase(msg)
    }

    /// The text of this error: the message it carries, and for a failure of
    /// the storage backend a sentence that names the backend before it.
    pub fn message(&self) -> (r: String)
        ensures
            r@ == error_text(*self),
    {
        match self {
            Error::BadConfig(msg) => String::from_str(*msg),
            Error::BadDatabase(msg) => String::from_str(*msg),
            Error::BadRequest(msg) => String::from_str(*msg),
            Error::SqliteError { source } => {
                let text = String::from_str(
                    "There was a problem with the connection to the sqlite database: ",
                );
                text.concat(source.as_str())
            },
        }
    }

    /// The HTTP status code of the response to a request that failed with
    /// this error: 400 for a refused request, 500 for anything else.
    pub fn status_code(&self) -> (r: u16)
        ensures
            r == (if self is BadRequest { 400u16 } else { 500u16 }),
    {
        match self {
            Error::BadRequest(_) => 400,
            _ => 500,
        }
    }
}

} // verus!
