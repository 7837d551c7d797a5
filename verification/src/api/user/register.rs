use vstd::prelude::*;
use vstd::utf8::*;

use crate::api::register::{
    is_registered, password_too_long, password_text, register_user, stored_token_corrupt,
};
use crate::database::key_value::OrderedTable;
use crate::database::Database;
use crate::utility::error::{Error, Result};

verus! {

pub struct Body {
    pub username: String,
    pub password: Option<String>,
}

pub struct Response {
    pub token: String,
}

/// # `POST /api/v0/register`
///
/// Registers a new account on this server and signs it in; a name that is
/// taken is refused.
pub fn register_route<T: OrderedTable>(db: &mut Database<T>, body: Body) -> (r: Result<Response>)
    ensures
        old(db).well_formed() ==> final(db).well_formed(),
        final(db).infallible() == old(db).infallible(),
        ({
            let taken = old(db).user_password.contents().contains_key(encode_utf8(body.username@));
            &&& old(db).infallible() && !taken && !password_too_long(body.password)
                && !stored_token_corrupt(old(db).user_token.contents(), body.username@) ==> r is Ok
            &&& match r {
                Ok(resp) => !taken && is_registered(
                    *old(db),
                    *final(db),
                    body.username@,
                    password_text(body.password),
                    resp.token@,
                ),
                Err(Error::BadRequest(msg)) => *final(db) == *old(db) && ((taken && msg
                    == "this user is exists") || (!taken && password_too_long(body.password) && msg
                    == "password is invalid unicode")),
                Err(Error::BadDatabase(msg)) => !taken && stored_token_corrupt(
                    old(db).user_token.contents(),
                    body.username@,
                ) && msg == "User ID in token-user is invalid unicode.",
                Err(e) => e is SqliteError && (*final(db) == *old(db) || !taken),
            }
            &&& old(db).infallible() && taken ==> r == Err::<Response, Error>(
                Error::BadRequest("this user is exists"),
            )
        }),
{
    match db.user_exists(&body.username) {
        Ok(false) => {},
        Ok(true) => {
            return Err(Error::BadRequest("this user is exists"));
        },
        Err(e) => {
            return Err(e);
        },
    }
    let token = register_user(db, &body.username, &body.password)?;
    Ok(Response { token })
}

} // verus!
