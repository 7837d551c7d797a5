//! Users: password hashes and login tokens.
use vstd::prelude::*;
use vstd::utf8::*;

use crate::database::key_value::{entries_view, is_listing, OrderedTable};
use crate::database::Database;
use crate::utility::error::{Error, Result};
use crate::utility::{is_alphanumeric_char, is_password_hash, password_encode, random_string, string_from_bytes};

verus! {

/// The password hash stored when a user registers without a password.
pub const DEFAULT_PASSWORD: &'static str = "";

/// The length of a login token.
pub const TOKEN_LENGTH: usize = 32;

/// What `set_password` stores for `password`: the empty text when there is
/// none, else an argon2 hash of it.
pub open spec fn stored_password(password: Option<Seq<char>>, h: Seq<char>) -> bool {
    match password {
        None => h == Seq::<char>::empty(),
        Some(p) => is_password_hash(p, h),
    }
}

/// The token table after a user's old token (if any) is dropped and `token`
/// is made to name `user`.
pub open spec fn rotated_token_user(
    token_user: Map<Seq<u8>, Seq<u8>>,
    user_token: Map<Seq<u8>, Seq<u8>>,
    user: Seq<u8>,
    token: Seq<u8>,
) -> Map<Seq<u8>, Seq<u8>> {
    let without_old = if user_token.contains_key(user) {
        token_user.remove(user_token[user])
    } else {
        token_user
    };
    without_old.insert(token, user)
}

impl<T: OrderedTable> Database<T> {
    /// Whether `user_id` is registered.
    pub fn user_exists(&self, user_id: &String) -> (r: Result<bool>)
        ensures
            self.infallible() ==> r is Ok,
            match r {
                Ok(b) => b == self.user_password.contents().contains_key(encode_utf8(user_id@)),
                Err(e) => e is SqliteError,
            },
    {
        match self.user_password.get(user_id.as_str().as_bytes()) {
            Ok(v) => Ok(v.is_some()),
            Err(e) => Err(e),
        }
    }

    /// The password hash of `user_id`.
    pub fn get_password(&self, user_id: &String) -> (r: Result<Option<String>>)
        ensures
            self.infallible() ==> (r is Ok || r == Err::<Option<String>, Error>(
                Error::BadDatabase(
                    "Password hash in db table user-password is not valid string.",
                ),
            )),
            ({
                let m = self.user_password.contents();
                let k = encode_utf8(user_id@);
                match r {
                    Ok(Some(h)) => m.contains_key(k) && valid_utf8(m[k]) && h@ == decode_utf8(m[k]),
                    Ok(None) => !m.contains_key(k),
                    Err(Error::BadDatabase(msg)) => m.contains_key(k) && !valid_utf8(m[k]) && msg
                        == "Password hash in db table user-password is not valid string.",
                    Err(e) => e is SqliteError,
                }
            }),
    {
        match self.user_password.get(user_id.as_str().as_bytes()) {
            Ok(Some(bytes)) => match string_from_bytes(bytes) {
                Ok(h) => Ok(Some(h)),
                Err(_) => Err(
                    Error::bad_database(
                        "Password hash in db table user-password is not valid string.",
                    ),
                ),
            },
            Ok(None) => Ok(None),
            Err(e) => Err(e),
        }
    }

    /// Registers `user_id` with the hash of `password`, or with the empty
    /// hash when there is no password, replacing what was there.
    pub fn set_password(&mut self, user_id: &String, password: Option<&str>) -> (r: Result<()>)
        ensures
            old(self).well_formed() ==> final(self).well_formed(),
            final(self).infallible() == old(self).infallible(),
            final(self).token_user == old(self).token_user,
            final(self).user_token == old(self).user_token,
            final(self).user_count == old(self).user_count,
            final(self).user_messageid == old(self).user_messageid,
            final(self).messageid_message == old(self).messageid_message,
            final(self).user_key == old(self).user_key,
            ({
                let too_long = password matches Some(p) && encode_utf8(p@).len() > 0xFFFF_FFFF;
                &&& too_long ==> r == Err::<(), Error>(
                    Error::BadRequest("password is invalid unicode"),
                ) && final(self).user_password == old(self).user_password
                &&& !too_long && old(self).infallible() ==> r is Ok
                &&& r is Ok ==> exists|h: Seq<char>|
                    stored_password(
                        match password {
                            Some(p) => Some(p@),
                            None => None,
                        },
                        h,
                    ) && #[trigger] final(self).user_password.contents() == old(
                        self,
                    ).user_password.contents().insert(encode_utf8(user_id@), encode_utf8(h))
                &&& r matches Err(e) ==> too_long || (e is SqliteError
                    && final(self).user_password.contents() == old(
                    self,
                ).user_password.contents())
            }),
    {
        broadcast use vstd::string::group_string_axioms;

        let hash = match password {
            Some(password) => match password_encode(password) {
                Some(h) => h,
                None => {
                    return Err(Error::BadRequest("password is invalid unicode"));
                },
            },
            None => {
                proof {
                    reveal_strlit("");
                    assert(DEFAULT_PASSWORD@ == ""@);
                    assert(DEFAULT_PASSWORD@ =~= Seq::<char>::empty());
                }
                DEFAULT_PASSWORD.to_string()
            },
        };
        let ghost h = hash@;
        proof {
            assert(stored_password(
                match password {
                    Some(p) => Some(p@),
                    None => None,
                },
                h,
            ));
            encode_utf8_valid_utf8(user_id@);
        }
        let r = self.user_password.insert(user_id.as_str().as_bytes(), hash.as_str().as_bytes());
        proof {
            if r is Ok {
                assert(final(self).user_password.contents() == old(
                    self,
                ).user_password.contents().insert(encode_utf8(user_id@), encode_utf8(h)));
            }
        }
        r
    }

    /// Gives `user_id` a fresh random token, dropping the old one.
    pub fn set_token(&mut self, user_id: &String) -> (r: Result<String>)
        ensures
            old(self).well_formed() ==> final(self).well_formed(),
            final(self).infallible() == old(self).infallible(),
            final(self).user_password == old(self).user_password,
            final(self).user_count == old(self).user_count,
            final(self).user_messageid == old(self).user_messageid,
            final(self).messageid_message == old(self).messageid_message,
            final(self).user_key == old(self).user_key,
            ({
                let ut = old(self).user_token.contents();
                let u = encode_utf8(user_id@);
                let bad_old = ut.contains_key(u) && !valid_utf8(ut[u]);
                &&& old(self).infallible() && !bad_old ==> r is Ok
                &&& r matches Ok(t) ==> {
                    &&& t@.len() == TOKEN_LENGTH
                    &&& encode_utf8(t@).len() == TOKEN_LENGTH
                    &&& forall|i: int| 0 <= i < t@.len() ==> is_alphanumeric_char(#[trigger] t@[i])
                    &&& final(self).user_token.contents() == ut.insert(u, encode_utf8(t@))
                    &&& final(self).token_user.contents() == rotated_token_user(
                        old(self).token_user.contents(),
                        ut,
                        u,
                        encode_utf8(t@),
                    )
                }
                &&& r matches Err(Error::SqliteError { .. }) ==> {
                    &&& final(self).user_token.contents() == ut || final(self).user_token.contents()
                        == ut.remove(u) || exists|x: Seq<u8>|
                        final(self).user_token.contents() == #[trigger] ut.insert(u, x)
                    &&& final(self).token_user.contents() == old(self).token_user.contents() || (
                    ut.contains_key(u) && final(self).token_user.contents() == old(
                        self,
                    ).token_user.contents().remove(ut[u]))
                }
                &&& r matches Err(e) ==> e is SqliteError || (bad_old && e == Error::BadDatabase(
                    "User ID in token-user is invalid unicode.",
                ) && final(self).user_token == old(self).user_token && final(self).token_user
                    == old(self).token_user)
            }),
    {
        let ghost ut = self.user_token.contents();
        let ghost tu = self.token_user.contents();
        let ghost u = encode_utf8(user_id@);
        let old_token = match self.user_token.get(user_id.as_str().as_bytes()) {
            Ok(Some(bytes)) => {
                let ghost b = bytes@;
                match string_from_bytes(bytes) {
                    Ok(s) => {
                        proof {
                            decode_utf8_encode_utf8(b);
                        }
                        Some(s)
                    },
                    Err(_) => {
                        return Err(
                            Error::bad_database("User ID in token-user is invalid unicode."),
                        );
                    },
                }
            },
            Ok(None) => None,
            Err(e) => {
                return Err(e);
            },
        };
        if let Some(token) = &old_token {
            self.user_token.remove(user_id.as_str().as_bytes())?;
            self.token_user.remove(token.as_str().as_bytes())?;
        }
        let ghost ut1 = self.user_token.contents();
        let ghost tu1 = self.token_user.contents();
        proof {
            assert(ut1.insert(u, Seq::empty()).dom() =~= ut.insert(u, Seq::empty()).dom());
            assert(tu1 == (if ut.contains_key(u) {
                tu.remove(ut[u])
            } else {
                tu
            }));
        }
        let token = random_string(TOKEN_LENGTH);
        proof {
            encode_utf8_valid_utf8(user_id@);
        }
        self.user_token.insert(user_id.as_str().as_bytes(), token.as_str().as_bytes())?;
        proof {
            assert(self.user_token.contents() =~= ut.insert(u, encode_utf8(token@)));
        }
        self.token_user.insert(token.as_str().as_bytes(), user_id.as_str().as_bytes())?;
        Ok(token)
    }

    /// The user that `token` belongs to.
    pub fn from_token(&self, token: String) -> (r: Result<Option<String>>)
        ensures
            ({
                let m = self.token_user.contents();
                let k = encode_utf8(token@);
                &&& self.infallible() && (m.contains_key(k) ==> valid_utf8(m[k])) ==> r is Ok
                &&& match r {
                    Ok(Some(u)) => m.contains_key(k) && valid_utf8(m[k]) && u@ == decode_utf8(m[k]),
                    Ok(None) => !m.contains_key(k),
                    Err(Error::BadDatabase(msg)) => m.contains_key(k) && !valid_utf8(m[k]) && msg
                        == "User ID in token-user is invalid unicode.",
                    Err(e) => e is SqliteError,
                }
            }),
    {
        match self.token_user.get(token.as_str().as_bytes()) {
            Ok(Some(bytes)) => match string_from_bytes(bytes) {
                Ok(u) => Ok(Some(u)),
                Err(_) => Err(Error::bad_database("User ID in token-user is invalid unicode.")),
            },
            Ok(None) => Ok(None),
            Err(e) => Err(e),
        }
    }

    /// All registered users, in ascending byte order of their names.
    pub fn users(&self) -> (r: Result<Vec<String>>)
        requires
            self.names_readable(),
        ensures
            self.user_password.infallible() ==> r is Ok,
            match r {
                Ok(v) => exists|s: Seq<(Seq<u8>, Seq<u8>)>|
                    #[trigger] is_listing(
                        self.user_password.contents(),
                        Seq::empty(),
                        Seq::empty(),
                        s,
                    ) && v@.len() == s.len() && forall|i: int|
                        0 <= i < s.len() ==> (#[trigger] v@[i])@ == decode_utf8(s[i].0),
                Err(e) => e is SqliteError,
            },
    {
        let entries = self.user_password.iter()?;
        let ghost ev = entries_view(entries@);
        let ghost m = self.user_password.contents();
        let mut r: Vec<String> = Vec::new();
        let mut i: usize = 0;
        while i < entries.len()
            invariant
                i <= entries@.len(),
                ev == entries_view(entries@),
                m == self.user_password.contents(),
                self.names_readable(),
                is_listing(m, Seq::empty(), Seq::empty(), ev),
                r@.len() == i,
                forall|j: int| 0 <= j < i ==> (#[trigger] r@[j])@ == decode_utf8(ev[j].0),
            decreases entries.len() - i,
        {
            proof {
                assert(ev[i as int].0 == entries@[i as int].0@);
                assert(m.contains_key(ev[i as int].0));
            }
            let key = vstd::slice::slice_to_vec(entries[i].0.as_slice());
            match string_from_bytes(key) {
                Ok(name) => {
                    r.push(name);
                },
                Err(_) => {
                    proof {
                        assert(false);
                    }
                    return Ok(r);
                },
            }
            i = i + 1;
        }
        Ok(r)
    }
}

} // verus!
