use vstd::prelude::*;
use vstd::utf8::*;

use crate::database::key_value::user::{rotated_token_user, stored_password, TOKEN_LENGTH};
use crate::database::key_value::OrderedTable;
use crate::database::Database;
use crate::utility::error::{Error, Result};
use crate::utility::is_alphanumeric_char;

verus! {

pub struct Body {
    pub username: String,
    pub password: Option<String>,
}

pub struct Response {
    pub token: String,
}

/// The password in a request body, as text.
pub open spec fn password_text(password: Option<String>) -> Option<Seq<char>> {
    match password {
        Some(p) => Some(p@),
        None => None,
    }
}

/// The password is too long for argon2 to hash.
pub open spec fn password_too_long(password: Option<String>) -> bool {
    password matches Some(p) && encode_utf8(p@).len() > 0xFFFF_FFFF
}

/// The user's stored token is not UTF-8.
pub open spec fn stored_token_corrupt(ut: Map<Seq<u8>, Seq<u8>>, user: Seq<char>) -> bool {
    ut.contains_key(encode_utf8(user)) && !valid_utf8(ut[encode_utf8(user)])
}

/// `after` is `before` with `user` signed in under the fresh `token`: the
/// user's old token, if any, no longer names the user.
pub open spec fn is_signed_in<T: OrderedTable>(
    before: Database<T>,
    after: Database<T>,
    user: Seq<char>,
    token: Seq<char>,
) -> bool {
    &&& token.len() == TOKEN_LENGTH
    &&& encode_utf8(token).len() == TOKEN_LENGTH
    &&& forall|i: int| 0 <= i < token.len() ==> is_alphanumeric_char(#[trigger] token[i])
    &&& after.user_token.contents() == before.user_token.contents().insert(
        encode_utf8(user),
        encode_utf8(token),
    )
    &&& after.token_user.contents() == rotated_token_user(
        before.token_user.contents(),
        before.user_token.contents(),
        encode_utf8(user),
        encode_utf8(token),
    )
}

/// `after` is `before` with `user` registered under `password` and signed
/// in under `token`.
pub open spec fn is_registered<T: OrderedTable>(
    before: Database<T>,
    after: Database<T>,
    user: Seq<char>,
    password: Option<Seq<char>>,
    token: Seq<char>,
) -> bool {
    &&& exists|h: Seq<char>|
        stored_password(password, h) && #[trigger] after.user_password.contents()
            == before.user_password.contents().insert(encode_utf8(user), encode_utf8(h))
    &&& is_signed_in(before, after, user, token)
    &&& after.user_count == before.user_count
    &&& after.user_messageid == before.user_messageid
    &&& after.messageid_message == before.messageid_message
    &&& after.user_key == before.user_key
}

/// Registers the user (again) with the given password and signs them in.
pub(crate) fn register_user<T: OrderedTable>(db: &mut Database<T>, username: &String, password: &Option<String>) -> (r: Result<String>)
    ensures
        old(db).well_formed() ==> final(db).well_formed(),
        final(db).infallible() == old(db).infallible(),
        old(db).infallible() && !password_too_long(*password) && !stored_token_corrupt(
            old(db).user_token.contents(),
            username@,
        ) ==> r is Ok,
        match r {
            Ok(token) => is_registered(
                *old(db),
                *final(db),
                username@,
                password_text(*password),
                token@,
            ),
            Err(Error::BadRequest(msg)) => password_too_long(*password) && msg
                == "password is invalid unicode" && *final(db) == *old(db),
            Err(Error::BadDatabase(msg)) => stored_token_corrupt(
                old(db).user_token.contents(),
                username@,
            ) && msg == "User ID in token-user is invalid unicode.",
            Err(e) => e is SqliteError,
        },
{
    let pw: Option<&str> = match password {
        Some(p) => Some(p.as_str()),
        None => None,
    };
    db.set_password(username, pw)?;
    let ghost mid = *db;
    let token = db.set_token(username)?;
    proof {
        assert(is_signed_in(mid, *db, username@, token@));
    }
    Ok(token)
}

/// # `POST /api/v0/register`
///
/// Registers an account on this server and signs it in.
pub fn register_route<T: OrderedTable>(db: &mut Database<T>, body: Body) -> (r: Result<Response>)
    ensures
        old(db).well_formed() ==> final(db).well_formed(),
        final(db).infallible() == old(db).infallible(),
        old(db).infallible() && !password_too_long(body.password) && !stored_token_corrupt(
            old(db).user_token.contents(),
            body.username@,
        ) ==> r is Ok,
        match r {
            Ok(resp) => is_registered(
                *old(db),
                *final(db),
                body.username@,
                password_text(body.password),
                resp.token@,
            ),
            Err(Error::BadRequest(msg)) => password_too_long(body.password) && msg
                == "password is invalid unicode" && *final(db) == *old(db),
            Err(Error::BadDatabase(msg)) => stored_token_corrupt(
                old(db).user_token.contents(),
                body.username@,
            ) && msg == "User ID in token-user is invalid unicode.",
            Err(e) => e is SqliteError,
        },
{
    let token = register_user(db, &body.username, &body.password)?;
    Ok(Response { token })
}

} // verus!
