//! Storage engines: what opens the tables of a database.
pub mod backed;
pub mod memory;

use vstd::prelude::*;

use crate::config::Config;
use crate::database::key_value::OrderedTable;
use crate::utility::error::Result;

verus! {

/// A storage engine, which opens named key-value tables.
pub trait DBEngine: Sized {
    type Tree: OrderedTable;

    /// The name that the table `t` was opened under.
    spec fn tree_name(t: &Self::Tree) -> Seq<char>;

    /// The configuration that the engine was opened with: the store it
    /// holds is the one that this configuration describes.
    spec fn config(&self) -> Config;

    /// The configuration of the engine that opened the table `t`, if an
    /// engine opened it.
    spec fn tree_config(t: &Self::Tree) -> Option<Config>;

    /// Opens the engine that `config` describes; only the storage can fail.
    fn open(config: &Config) -> (r: Result<Self>)
        ensures
            r matches Ok(e) ==> e.config() == *config,
            r matches Err(e) ==> e is SqliteError,
    ;

    /// Opens the table named `name` of the engine's store, creating it if
    /// it does not exist.
    fn open_tree(&mut self, name: &str) -> (r: Result<Self::Tree>)
        ensures
            final(self).config() == old(self).config(),
            r matches Ok(t) ==> Self::tree_config(&t) == Some(old(self).config()),
            r matches Ok(t) ==> Self::tree_name(&t) == name@,
            r matches Err(e) ==> e is SqliteError || e is BadDatabase,
    ;

    /// Writes out whatever the engine holds back.
    fn flush(&mut self) -> (r: Result<()>)
        ensures
            r matches Err(e) ==> e is SqliteError,
    ;
}

} // verus!
