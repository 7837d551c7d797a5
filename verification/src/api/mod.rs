//! The request handlers: each takes the request's token and body and the
//! database, and gives the response body or the error to answer with.
pub mod key;
pub mod message;
pub mod recv;
pub mod register;
pub mod send;
pub mod session;
pub mod user;

use vstd::prelude::*;
use vstd::utf8::*;

use crate::database::key_value::OrderedTable;
use crate::database::Database;
use crate::utility::error::{Error, Result};

verus! {

/// What a token table says of `token`: the name it belongs to, `None` when
/// it belongs to no one; a stored name that is not UTF-8 is an error of the
/// database.
pub open spec fn token_owner(tu: Map<Seq<u8>, Seq<u8>>, token: Seq<char>) -> Option<Seq<char>> {
    let k = encode_utf8(token);
    if tu.contains_key(k) && valid_utf8(tu[k]) {
        Some(decode_utf8(tu[k]))
    } else {
        None
    }
}

/// The token table stores a name for `token` that is not UTF-8.
pub open spec fn token_corrupt(tu: Map<Seq<u8>, Seq<u8>>, token: Seq<char>) -> bool {
    let k = encode_utf8(token);
    tu.contains_key(k) && !valid_utf8(tu[k])
}

/// The errors that looking a token up can end in, besides a refusal.
pub open spec fn lookup_error(tu: Map<Seq<u8>, Seq<u8>>, token: Seq<char>, e: Error) -> bool {
    ||| e is SqliteError
    ||| (token_corrupt(tu, token) && e == Error::BadDatabase(
        "User ID in token-user is invalid unicode.",
    ))
}

/// GET "/ping"
pub fn ping() -> (r: &'static str)
    ensures
        r@ == "pong"@,
{
    "pong"
}

/// The user that `token` belongs to; an unknown token is refused.
pub fn get_user_from_token<T: OrderedTable>(db: &Database<T>, token: String) -> (r: Result<String>)
    ensures
        db.infallible() && !token_corrupt(db.token_user.contents(), token@) ==> (r is Ok
            || r == Err::<String, Error>(Error::BadRequest("Wrong token."))),
        match r {
            Ok(u) => token_owner(db.token_user.contents(), token@) == Some(u@),
            Err(Error::BadRequest(msg)) => token_owner(db.token_user.contents(), token@) is None
                && !token_corrupt(db.token_user.contents(), token@) && msg == "Wrong token.",
            Err(e) => lookup_error(db.token_user.contents(), token@, e),
        },
{
    match db.from_token(token) {
        Ok(Some(u)) => Ok(u),
        Ok(None) => Err(Error::BadRequest("Wrong token.")),
        Err(e) => Err(e),
    }
}

/// Accepts `token` when it belongs to a user whom `func` accepts.
pub fn token_check<T: OrderedTable, F: Fn(String) -> bool>(db: &Database<T>, token: String, func: F) -> (r:
    Result<()>)
    requires
        forall|s: String| call_requires(func, (s,)),
    ensures
        db.infallible() && !token_corrupt(db.token_user.contents(), token@) ==> (r is Ok
            || r == Err::<(), Error>(Error::BadRequest("Wrong token."))),
        match r {
            Ok(()) => exists|u: String|
                token_owner(db.token_user.contents(), token@) == Some(u@) && #[trigger] call_ensures(
                    func,
                    (u,),
                    true,
                ),
            Err(Error::BadRequest(msg)) => msg == "Wrong token." && !token_corrupt(
                db.token_user.contents(),
                token@,
            ) && (token_owner(db.token_user.contents(), token@) is None || exists|u: String|
                token_owner(db.token_user.contents(), token@) == Some(u@) && #[trigger] call_ensures(
                    func,
                    (u,),
                    false,
                )),
            Err(e) => lookup_error(db.token_user.contents(), token@, e),
        },
{
    let user = get_user_from_token(db, token)?;
    if func(user) {
        Ok(())
    } else {
        Err(Error::BadRequest("Wrong token."))
    }
}

} // verus!
