//! The database: the tables of users, tokens, messages and keys.
pub mod engine;
pub mod key_value;

use vstd::prelude::*;
use vstd::utf8::*;

use crate::config::Config;
use crate::database::engine::DBEngine;
use crate::database::key_value::key::{base64_data, base64_decode};
use crate::database::key_value::{entries_view, in_range, is_listing, lemma_full_range, OrderedTable};
use crate::service::message::{decode_message, Message};
use crate::utility::error::{Error, Result};
use crate::utility::string_from_bytes;

verus! {

/// The tables of the server.
pub struct Database<T: OrderedTable> {
    /// user name -> password hash
    pub user_password: T,
    /// token -> user name
    pub token_user: T,
    /// user name -> token
    pub user_token: T,
    /// user name -> number of messages sent or received, 16 bytes big-endian
    pub user_count: T,
    /// user name followed by a six-digit index -> message id
    pub user_messageid: T,
    /// message id -> stored message
    pub messageid_message: T,
    /// user name -> base64 text of the user's public key
    pub user_key: T,
}

impl<T: OrderedTable> Database<T> {
    /// No table ever reports a failure.
    pub open spec fn infallible(&self) -> bool {
        &&& self.user_password.infallible()
        &&& self.token_user.infallible()
        &&& self.user_token.infallible()
        &&& self.user_count.infallible()
        &&& self.user_messageid.infallible()
        &&& self.messageid_message.infallible()
        &&& self.user_key.infallible()
    }

    /// Every table is empty.
    pub open spec fn is_empty(&self) -> bool {
        &&& self.user_password.contents() == Map::<Seq<u8>, Seq<u8>>::empty()
        &&& self.token_user.contents() == Map::<Seq<u8>, Seq<u8>>::empty()
        &&& self.user_token.contents() == Map::<Seq<u8>, Seq<u8>>::empty()
        &&& self.user_count.contents() == Map::<Seq<u8>, Seq<u8>>::empty()
        &&& self.user_messageid.contents() == Map::<Seq<u8>, Seq<u8>>::empty()
        &&& self.messageid_message.contents() == Map::<Seq<u8>, Seq<u8>>::empty()
        &&& self.user_key.contents() == Map::<Seq<u8>, Seq<u8>>::empty()
    }

    /// The stored data is of the shape that the server writes: user names
    /// are UTF-8, counters are sixteen bytes, keys are base64 text, every
    /// message index points at a stored message, and every stored message
    /// decodes.
    pub open spec fn well_formed(&self) -> bool {
        &&& forall|k: Seq<u8>| #[trigger]
            self.user_password.contents().contains_key(k) ==> valid_utf8(k)
        &&& forall|k: Seq<u8>| #[trigger]
            self.user_count.contents().contains_key(k) ==> self.user_count.contents()[k].len()
                == 16
        &&& forall|k: Seq<u8>| #[trigger]
            self.user_key.contents().contains_key(k) ==> base64_data(
                self.user_key.contents()[k],
            ) is Some
        &&& forall|k: Seq<u8>| #[trigger]
            self.user_messageid.contents().contains_key(k)
                ==> self.messageid_message.contents().contains_key(
                self.user_messageid.contents()[k],
            )
        &&& forall|k: Seq<u8>| #[trigger]
            self.messageid_message.contents().contains_key(k) ==> decode_message(
                self.messageid_message.contents()[k],
            ) is Some
    }

    /// The counter of `name`, if there is one, is sixteen bytes.
    pub open spec fn counter_readable(&self, name: Seq<u8>) -> bool {
        self.user_count.contents().contains_key(name) ==> self.user_count.contents()[name].len()
            == 16
    }

    /// The stored key of `name`, if there is one, is base64 text.
    pub open spec fn key_readable(&self, name: Seq<u8>) -> bool {
        self.user_key.contents().contains_key(name) ==> base64_data(
            self.user_key.contents()[name],
        ) is Some
    }

    /// Every user name is UTF-8.
    pub open spec fn names_readable(&self) -> bool {
        forall|k: Seq<u8>| #[trigger]
            self.user_password.contents().contains_key(k) ==> valid_utf8(k)
    }

    /// Every index of `name` from `from` on points at a stored message that
    /// decodes.
    pub open spec fn mailbox_readable(&self, name: Seq<u8>, from: Seq<u8>) -> bool {
        forall|k: Seq<u8>| #[trigger]
            self.user_messageid.contents().contains_key(k) && in_range(k, name, from) ==> {
                &&& self.messageid_message.contents().contains_key(
                    self.user_messageid.contents()[k],
                )
                &&& decode_message(
                    self.messageid_message.contents()[self.user_messageid.contents()[k]],
                ) is Some
            }
    }

    /// All tables but `user_key` are as in `other`.
    pub open spec fn same_except_user_key(&self, other: Self) -> bool {
        &&& self.user_password == other.user_password
        &&& self.token_user == other.token_user
        &&& self.user_token == other.user_token
        &&& self.user_count == other.user_count
        &&& self.user_messageid == other.user_messageid
        &&& self.messageid_message == other.messageid_message
    }

    /// Checks that the stored data is of the shape that the server writes.
    pub fn validate(&self) -> (r: Result<bool>)
        ensures
            self.infallible() ==> r is Ok,
            match r {
                Ok(b) => b == self.well_formed(),
                Err(e) => e is SqliteError,
            },
    {
        let names = self.names_are_text()?;
        let counters = self.counters_are_sixteen_bytes()?;
        let keys = self.keys_are_base64()?;
        let messages = self.messages_decode()?;
        let indices = self.indices_point_at_messages()?;
        Ok(names && counters && keys && messages && indices)
    }

    fn names_are_text(&self) -> (r: Result<bool>)
        ensures
            self.user_password.infallible() ==> r is Ok,
            match r {
                Ok(b) => b == (forall|k: Seq<u8>| #[trigger]
                self.user_password.contents().contains_key(k) ==> valid_utf8(k)),
                Err(e) => e is SqliteError,
            },
    {
        let entries = self.user_password.iter()?;
        let ghost ev = entries_view(entries@);
        let ghost m = self.user_password.contents();
        let mut i: usize = 0;
        while i < entries.len()
            invariant
                i <= entries@.len(),
                m == self.user_password.contents(),
                ev == entries_view(entries@),
                is_listing(m, Seq::empty(), Seq::empty(), ev),
                forall|j: int| 0 <= j < i ==> valid_utf8(#[trigger] ev[j].0),
            decreases entries.len() - i,
        {
            proof {
                assert(ev[i as int].0 == entries@[i as int].0@);
            }
            let key = vstd::slice::slice_to_vec(entries[i].0.as_slice());
            if string_from_bytes(key).is_err() {
                proof {
                    assert(m.contains_key(ev[i as int].0));
                }
                return Ok(false);
            }
            i = i + 1;
        }
        proof {
            assert forall|k: Seq<u8>| #[trigger] m.contains_key(k) implies valid_utf8(k) by {
                lemma_full_range(k);
                let j = choose|j: int| 0 <= j < ev.len() && #[trigger] ev[j].0 == k;
            }
        }
        Ok(true)
    }

    fn counters_are_sixteen_bytes(&self) -> (r: Result<bool>)
        ensures
            self.user_count.infallible() ==> r is Ok,
            match r {
                Ok(b) => b == (forall|k: Seq<u8>| #[trigger]
                self.user_count.contents().contains_key(k) ==> self.user_count.contents()[k].len()
                    == 16),
                Err(e) => e is SqliteError,
            },
    {
        let entries = self.user_count.iter()?;
        let ghost ev = entries_view(entries@);
        let ghost m = self.user_count.contents();
        let mut i: usize = 0;
        while i < entries.len()
            invariant
                i <= entries@.len(),
                m == self.user_count.contents(),
                ev == entries_view(entries@),
                is_listing(m, Seq::empty(), Seq::empty(), ev),
                forall|j: int| 0 <= j < i ==> (#[trigger] ev[j]).1.len() == 16,
            decreases entries.len() - i,
        {
            proof {
                assert(ev[i as int].1 == entries@[i as int].1@);
                assert(m.contains_key(ev[i as int].0) && m[ev[i as int].0] == ev[i as int].1);
            }
            if entries[i].1.len() != 16 {
                return Ok(false);
            }
            i = i + 1;
        }
        proof {
            assert forall|k: Seq<u8>| #[trigger] m.contains_key(k) implies m[k].len() == 16 by {
                lemma_full_range(k);
                let j = choose|j: int| 0 <= j < ev.len() && #[trigger] ev[j].0 == k;
                assert(ev[j].1.len() == 16);
            }
        }
        Ok(true)
    }

    fn keys_are_base64(&self) -> (r: Result<bool>)
        ensures
            self.user_key.infallible() ==> r is Ok,
            match r {
                Ok(b) => b == (forall|k: Seq<u8>| #[trigger]
                self.user_key.contents().contains_key(k) ==> base64_data(
                    self.user_key.contents()[k],
                ) is Some),
                Err(e) => e is SqliteError,
            },
    {
        let entries = self.user_key.iter()?;
        let ghost ev = entries_view(entries@);
        let ghost m = self.user_key.contents();
        let mut i: usize = 0;
        while i < entries.len()
            invariant
                i <= entries@.len(),
                m == self.user_key.contents(),
                ev == entries_view(entries@),
                is_listing(m, Seq::empty(), Seq::empty(), ev),
                forall|j: int| 0 <= j < i ==> base64_data((#[trigger] ev[j]).1) is Some,
            decreases entries.len() - i,
        {
            proof {
                assert(ev[i as int].1 == entries@[i as int].1@);
                assert(m.contains_key(ev[i as int].0) && m[ev[i as int].0] == ev[i as int].1);
            }
            if base64_decode(entries[i].1.as_slice()).is_none() {
                return Ok(false);
            }
            i = i + 1;
        }
        proof {
            assert forall|k: Seq<u8>| #[trigger] m.contains_key(k) implies base64_data(
                m[k],
            ) is Some by {
                lemma_full_range(k);
                let j = choose|j: int| 0 <= j < ev.len() && #[trigger] ev[j].0 == k;
                assert(base64_data(ev[j].1) is Some);
            }
        }
        Ok(true)
    }

    fn indices_point_at_messages(&self) -> (r: Result<bool>)
        ensures
            self.messageid_message.infallible() && self.user_messageid.infallible() ==> r is Ok,
            match r {
                Ok(b) => b == forall|k: Seq<u8>| #[trigger]
                    self.user_messageid.contents().contains_key(k)
                        ==> self.messageid_message.contents().contains_key(
                        self.user_messageid.contents()[k],
                    ),
                Err(e) => e is SqliteError,
            },
    {
        let entries = self.user_messageid.iter()?;
        let ghost ev = entries_view(entries@);
        let ghost m = self.user_messageid.contents();
        let mut i: usize = 0;
        while i < entries.len()
            invariant
                i <= entries@.len(),
                m == self.user_messageid.contents(),
                ev == entries_view(entries@),
                is_listing(m, Seq::empty(), Seq::empty(), ev),
                forall|j: int|
                    0 <= j < i ==> self.messageid_message.contents().contains_key(
                        (#[trigger] ev[j]).1,
                    ),
            decreases entries.len() - i,
        {
            proof {
                assert(ev[i as int].1 == entries@[i as int].1@);
                assert(m.contains_key(ev[i as int].0) && m[ev[i as int].0] == ev[i as int].1);
            }
            match self.messageid_message.get(entries[i].1.as_slice()) {
                Ok(Some(_)) => {},
                Ok(None) => {
                    return Ok(false);
                },
                Err(e) => {
                    return Err(e);
                },
            }
            i = i + 1;
        }
        proof {
            assert forall|k: Seq<u8>| #[trigger] m.contains_key(k)
                implies self.messageid_message.contents().contains_key(m[k]) by {
                lemma_full_range(k);
                let j = choose|j: int| 0 <= j < ev.len() && #[trigger] ev[j].0 == k;
                assert(self.messageid_message.contents().contains_key(ev[j].1));
            }
        }
        Ok(true)
    }

    fn messages_decode(&self) -> (r: Result<bool>)
        ensures
            self.messageid_message.infallible() && self.user_messageid.infallible() ==> r is Ok,
            match r {
                Ok(b) => b == (forall|k: Seq<u8>| #[trigger]
                self.messageid_message.contents().contains_key(k) ==> decode_message(
                    self.messageid_message.contents()[k],
                ) is Some),
                Err(e) => e is SqliteError,
            },
    {
        let entries = self.messageid_message.iter()?;
        let ghost ev = entries_view(entries@);
        let ghost m = self.messageid_message.contents();
        let mut i: usize = 0;
        while i < entries.len()
            invariant
                i <= entries@.len(),
                m == self.messageid_message.contents(),
                ev == entries_view(entries@),
                is_listing(m, Seq::empty(), Seq::empty(), ev),
                forall|j: int| 0 <= j < i ==> decode_message((#[trigger] ev[j]).1) is Some,
            decreases entries.len() - i,
        {
            proof {
                assert(ev[i as int].1 == entries@[i as int].1@);
                assert(m.contains_key(ev[i as int].0) && m[ev[i as int].0] == ev[i as int].1);
            }
            if Message::decode(entries[i].1.as_slice()).is_none() {
                return Ok(false);
            }
            i = i + 1;
        }
        proof {
            assert forall|k: Seq<u8>| #[trigger] m.contains_key(k) implies decode_message(
                m[k],
            ) is Some by {
                lemma_full_range(k);
                let j = choose|j: int| 0 <= j < ev.len() && #[trigger] ev[j].0 == k;
                assert(decode_message(ev[j].1) is Some);
            }
        }
        Ok(true)
    }
}

/// Opens the tables of the database with the engine that the configured
/// backend names.
pub fn build_database<E: DBEngine>(config: Config) -> (r: Result<Database<E::Tree>>)
    ensures
        config.database_backend@ != "sqlite"@ ==> r == Err::<Database<E::Tree>, Error>(
            Error::BadConfig("Database backend not found."),
        ),
        config.database_backend@ == "sqlite"@ ==> (r matches Err(e) ==> e is SqliteError
            || e is BadDatabase),
        r matches Ok(db) ==> {
            &&& E::tree_name(&db.user_password) == "user_password"@
            &&& E::tree_name(&db.token_user) == "token_user"@
            &&& E::tree_name(&db.user_token) == "user_token"@
            &&& E::tree_name(&db.user_count) == "user_count"@
            &&& E::tree_name(&db.user_messageid) == "user_messageid"@
            &&& E::tree_name(&db.messageid_message) == "messageid_message"@
            &&& E::tree_name(&db.user_key) == "user_key"@
        },
        r matches Ok(db) ==> {
            &&& E::tree_config(&db.user_password) == Some(config)
            &&& E::tree_config(&db.token_user) == Some(config)
            &&& E::tree_config(&db.user_token) == Some(config)
            &&& E::tree_config(&db.user_count) == Some(config)
            &&& E::tree_config(&db.user_messageid) == Some(config)
            &&& E::tree_config(&db.messageid_message) == Some(config)
            &&& E::tree_config(&db.user_key) == Some(config)
        },
{
    broadcast use vstd::string::group_string_axioms;

    let backend = "sqlite".to_string();
    if config.database_backend != backend {
        return Err(Error::bad_config("Database backend not found."));
    }
    let mut build = E::open(&config)?;
    let user_password = build.open_tree("user_password")?;
    let token_user = build.open_tree("token_user")?;
    let user_token = build.open_tree("user_token")?;
    let user_count = build.open_tree("user_count")?;
    let user_messageid = build.open_tree("user_messageid")?;
    let messageid_message = build.open_tree("messageid_message")?;
    let user_key = build.open_tree("user_key")?;
    Ok(
        Database {
            user_password,
            token_user,
            user_token,
            user_count,
            user_messageid,
            messageid_message,
            user_key,
        },
    )
}

} // verus!
