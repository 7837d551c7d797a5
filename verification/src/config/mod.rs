//! The server's configuration and its defaults.
use vstd::prelude::*;
use vstd::string::StringExecFns;

use crate::utility::decimal::{ascii_text, decimal_digits, u128_to_string};

verus! {

/// An IP address, as the server binds to it.
#[derive(Clone, Copy, PartialEq, Eq, Debug)]
pub enum IpAddress {
    V4([u8; 4]),
    V6([u16; 8]),
}

/// The configuration of the server.
#[derive(Clone, Debug)]
pub struct Config {
    /// The address that the HTTP server listens on.
    pub address: IpAddress,
    /// The port that the HTTP server listens on.
    pub port: u16,
    /// The storage backend; `"sqlite"` is the one there is.
    pub database_backend: String,
    /// The directory that the database file lives in.
    pub database_path: String,
}

/// The text of a configuration, one `name: value` line per setting, where
/// `address` is the text of the address.
pub open spec fn config_text(c: Config, address: Seq<char>) -> Seq<char> {
    "Server address: "@ + address + "\n"@ + "Server port: "@ + ascii_text(
        decimal_digits(c.port as nat),
    ) + "\n"@ + "Database backend: "@ + c.database_backend@ + "\n"@ + "Database path: "@
        + c.database_path@ + "\n"@
}

impl Config {
    /// The text of this configuration, given the text of its address.
    pub fn text(&self, address: &str) -> (r: String)
        ensures
            r@ == config_text(*self, address@),
    {
        let port = u128_to_string(self.port as u128);
        let mut t = String::from_str("Server address: ");
        t.append(address);
        t.append("\n");
        t.append("Server port: ");
        t.append(port.as_str());
        t.append("\n");
        t.append("Database backend: ");
        t.append(self.database_backend.as_str());
        t.append("\n");
        t.append("Database path: ");
        t.append(self.database_path.as_str());
        t.append("\n");
        t
    }
}

/// The address used when the configuration names none: `127.0.0.1`.
pub fn default_address() -> (r: IpAddress)
    ensures
        r == IpAddress::V4([127u8, 0u8, 0u8, 1u8]),
{
    IpAddress::V4([127, 0, 0, 1])
}

/// The port used when the configuration names none.
pub fn default_port() -> (r: u16)
    ensures
        r == 8000,
{
    8000
}

/// The backend used when the configuration names none.
pub fn default_database_backend() -> (r: String)
    ensures
        r@ == "sqlite"@,
{
    broadcast use vstd::string::group_string_axioms;
    "sqlite".to_string()
}

/// The database directory used when the configuration names none: the
/// empty path, that is, the working directory.
pub fn default_database_path() -> (r: String)
    ensures
        r@ == Seq::<char>::empty(),
{
    String::new()
}

} // verus!
