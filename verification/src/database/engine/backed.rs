//! The engine over a storage backend, which hands out each table once.
use vstd::prelude::*;
use vstd::utf8::*;

use crate::config::Config;
use crate::database::engine::DBEngine;
use crate::database::key_value::{backend_open_table, Backend, BackedTable};
use crate::utility::bytes::{compare_bytes, ByteOrder};
use crate::utility::error::{Error, Result};

verus! {

/// An ASCII letter or `_`.
pub open spec fn is_name_start(c: u8) -> bool {
    (65 <= c <= 90) || (97 <= c <= 122) || c == 95
}

/// An ASCII letter, digit or `_`.
pub open spec fn is_name_byte(c: u8) -> bool {
    is_name_start(c) || (48 <= c <= 57)
}

/// A plain table name: an ASCII letter or `_`, then ASCII letters, digits
/// and `_`. A store names a table by nothing else.
pub open spec fn plain_name(b: Seq<u8>) -> bool {
    &&& b.len() > 0
    &&& is_name_start(b[0])
    &&& forall|i: int| 0 <= i < b.len() ==> is_name_byte(#[trigger] b[i])
}

/// An ASCII byte in lower case.
pub open spec fn lower_byte(c: u8) -> u8 {
    if 65 <= c <= 90 {
        (c + 32) as u8
    } else {
        c
    }
}

/// A name in lower case: two plain names that differ only in the case of
/// their letters name the same table.
pub open spec fn lower_name(b: Seq<u8>) -> Seq<u8> {
    b.map_values(|c: u8| lower_byte(c))
}

/// An engine over the store of a backend. It opens each table at most
/// once, so that every table has a single handle: it takes only plain
/// names, and compares them without regard to case.
pub struct BackedEngine<B: Backend> {
    backend: B,
    opened: Vec<Vec<u8>>,
    config: Ghost<Config>,
}

impl<B: Backend> BackedEngine<B> {
    /// The tables opened so far, by their names in lower case.
    pub closed spec fn opened(&self) -> Seq<Seq<u8>> {
        self.opened@.map_values(|n: Vec<u8>| n@)
    }

    fn is_plain(name: &[u8]) -> (r: bool)
        ensures
            r == plain_name(name@),
    {
        if name.len() == 0 {
            return false;
        }
        let c = name[0];
        if !((65 <= c && c <= 90) || (97 <= c && c <= 122) || c == 95) {
            return false;
        }
        let mut i: usize = 0;
        while i < name.len()
            invariant
                i <= name@.len(),
                forall|j: int| 0 <= j < i ==> is_name_byte(#[trigger] name@[j]),
            decreases name.len() - i,
        {
            let c = name[i];
            if !((65 <= c && c <= 90) || (97 <= c && c <= 122) || c == 95 || (48 <= c && c <= 57)) {
                return false;
            }
            i = i + 1;
        }
        true
    }

    fn lowered(name: &[u8]) -> (r: Vec<u8>)
        ensures
            r@ == lower_name(name@),
    {
        let mut r: Vec<u8> = Vec::new();
        let mut i: usize = 0;
        while i < name.len()
            invariant
                i <= name@.len(),
                r@ == lower_name(name@.take(i as int)),
            decreases name.len() - i,
        {
            let c = name[i];
            let l = if 65 <= c && c <= 90 {
                c + 32
            } else {
                c
            };
            r.push(l);
            proof {
                assert(name@.take(i + 1) =~= name@.take(i as int).push(c));
                assert(lower_name(name@.take(i + 1)) =~= lower_name(name@.take(i as int)).push(l));
            }
            i = i + 1;
        }
        proof {
            assert(name@.take(i as int) =~= name@);
        }
        r
    }

    fn is_opened(&self, key: &Vec<u8>) -> (r: bool)
        ensures
            r == self.opened().contains(key@),
    {
        let mut i: usize = 0;
        while i < self.opened.len()
            invariant
                i <= self.opened@.len(),
                forall|j: int| 0 <= j < i ==> self.opened@[j]@ != key@,
            decreases self.opened.len() - i,
        {
            let same: bool = match compare_bytes(self.opened[i].as_slice(), key.as_slice()) {
                ByteOrder::Equal => true,
                _ => false,
            };
            if same {
                proof {
                    assert(self.opened()[i as int] == key@);
                }
                return true;
            }
            i = i + 1;
        }
        proof {
            if self.opened().contains(key@) {
                let j = choose|j: int| 0 <= j < self.opened().len() && self.opened()[j] == key@;
                assert(self.opened@[j]@ == key@);
            }
        }
        false
    }
}

impl<B: Backend> DBEngine for BackedEngine<B> {
    type Tree = BackedTable<B::Table>;

    closed spec fn tree_name(t: &BackedTable<B::Table>) -> Seq<char> {
        t.name()
    }

    closed spec fn config(&self) -> Config {
        self.config@
    }

    closed spec fn tree_config(t: &BackedTable<B::Table>) -> Option<Config> {
        t.store()
    }

    /// Opens the backend's store; any failure of the backend is a storage
    /// error, with the backend's text.
    fn open(config: &Config) -> (r: Result<Self>)
        ensures
            r matches Ok(e) ==> e.opened() == Seq::<Seq<u8>>::empty(),
    {
        match B::open(config) {
            Ok(backend) => Ok(BackedEngine { backend, opened: Vec::new(), config: Ghost(*config) }),
            Err(Error::SqliteError { source }) => Err(Error::SqliteError { source }),
            Err(e) => Err(Error::SqliteError { source: e.message() }),
        }
    }

    /// Opens the table named `name`. A name that is not plain is refused,
    /// and so is a name of a table already opened (in any case of its
    /// letters): every table has one handle.
    fn open_tree(&mut self, name: &str) -> (r: Result<BackedTable<B::Table>>)
        ensures
            !plain_name(encode_utf8(name@)) ==> r == Err::<BackedTable<B::Table>, Error>(
                Error::BadDatabase("The table name is not a plain name."),
            ) && final(self).opened() == old(self).opened(),
            plain_name(encode_utf8(name@)) && old(self).opened().contains(
                lower_name(encode_utf8(name@)),
            ) ==> r == Err::<BackedTable<B::Table>, Error>(
                Error::BadDatabase("The table is already open."),
            ) && final(self).opened() == old(self).opened(),
            plain_name(encode_utf8(name@)) && !old(self).opened().contains(
                lower_name(encode_utf8(name@)),
            ) ==> (r is Ok ==> final(self).opened() == old(self).opened().push(
                lower_name(encode_utf8(name@)),
            )) && (r is Err ==> final(self).opened() == old(self).opened()),
    {
        let bytes = name.as_bytes();
        if !Self::is_plain(bytes) {
            return Err(Error::bad_database("The table name is not a plain name."));
        }
        let key = Self::lowered(bytes);
        if self.is_opened(&key) {
            return Err(Error::bad_database("The table is already open."));
        }
        let mut t = backend_open_table(&self.backend, name)?;
        t.set_store(Ghost(self.config@));
        self.opened.push(key);
        Ok(t)
    }

    /// Writes out what the store holds back; any failure of the backend is
    /// a storage error, with the backend's text.
    fn flush(&mut self) -> (r: Result<()>) {
        match self.backend.flush() {
            Ok(()) => Ok(()),
            Err(Error::SqliteError { source }) => Err(Error::SqliteError { source }),
            Err(e) => Err(Error::SqliteError { source: e.message() }),
        }
    }
}

} // verus!
