use vstd::prelude::*;
use vstd::utf8::*;

use crate::api::register::{is_signed_in, stored_token_corrupt};
use crate::database::key_value::OrderedTable;
use crate::database::Database;
use crate::utility::error::{Error, Result};
use crate::utility::{argon2_verdict, argon2_verify};

verus! {

pub struct Body {
    pub username: String,
    pub password: String,
}

pub struct Response {
    pub token: String,
}

/// The stored password hash of `user`, when it is text.
pub open spec fn stored_hash(up: Map<Seq<u8>, Seq<u8>>, user: Seq<char>) -> Option<Seq<char>> {
    let k = encode_utf8(user);
    if up.contains_key(k) && valid_utf8(up[k]) {
        Some(decode_utf8(up[k]))
    } else {
        None
    }
}

/// # `POST /api/v0/login`
///
/// Signs the user in when the password matches the stored hash.
pub fn login_route<T: OrderedTable>(db: &mut Database<T>, body: Body) -> (r: Result<Response>)
    ensures
        old(db).well_formed() ==> final(db).well_formed(),
        final(db).infallible() == old(db).infallible(),
        final(db).user_password == old(db).user_password,
        final(db).user_count == old(db).user_count,
        final(db).user_messageid == old(db).user_messageid,
        final(db).messageid_message == old(db).messageid_message,
        final(db).user_key == old(db).user_key,
        ({
            let up = old(db).user_password.contents();
            let k = encode_utf8(body.username@);
            let pwd = encode_utf8(body.password@);
            &&& old(db).infallible() && (stored_hash(up, body.username@) matches Some(h)
                && argon2_verdict(h, pwd) == Some(true)) && !stored_token_corrupt(
                old(db).user_token.contents(),
                body.username@,
            ) ==> r is Ok
            &&& match r {
                Ok(resp) => stored_hash(up, body.username@) matches Some(h) && argon2_verdict(
                    h,
                    pwd,
                ) == Some(true) && is_signed_in(*old(db), *final(db), body.username@, resp.token@),
                Err(Error::BadRequest(msg)) => *final(db) == *old(db) && ((!up.contains_key(k)
                    && msg == "Wrong username.") || (stored_hash(up, body.username@) matches Some(
                    h,
                ) && argon2_verdict(h, pwd) != Some(true) && msg == "Wrong password.")),
                Err(Error::BadDatabase(msg)) => (up.contains_key(k) && !valid_utf8(up[k]) && msg
                    == "Password hash in db table user-password is not valid string.") || (
                stored_hash(up, body.username@) matches Some(h) && argon2_verdict(h, pwd) == Some(
                    true,
                ) && stored_token_corrupt(old(db).user_token.contents(), body.username@) && msg
                    == "User ID in token-user is invalid unicode."),
                Err(e) => e is SqliteError && (*final(db) == *old(db) || (stored_hash(
                    up,
                    body.username@,
                ) matches Some(h) && argon2_verdict(h, pwd) == Some(true))),
            }
            &&& old(db).infallible() && !up.contains_key(k) ==> r == Err::<Response, Error>(
                Error::BadRequest("Wrong username."),
            )
            &&& old(db).infallible() && (stored_hash(up, body.username@) matches Some(h)
                && argon2_verdict(h, pwd) != Some(true)) ==> r == Err::<Response, Error>(
                Error::BadRequest("Wrong password."),
            )
        }),
{
    let username = body.username;
    let password = body.password;
    let hash = match db.get_password(&username) {
        Ok(Some(h)) => h,
        Ok(None) => {
            return Err(Error::BadRequest("Wrong username."));
        },
        Err(e) => {
            return Err(e);
        },
    };
    let verdict = argon2_verify(hash.as_str(), password.as_str().as_bytes());
    let accepted: bool = match verdict {
        Some(b) => b,
        None => false,
    };
    if !accepted {
        return Err(Error::BadRequest("Wrong password."));
    }
    let token = db.set_token(&username)?;
    Ok(Response { token })
}

} // verus!
