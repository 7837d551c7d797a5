pub mod check;
pub mod login;
pub mod register;
pub mod users;

use vstd::prelude::*;
use vstd::utf8::*;

use crate::api::{lookup_error, token_corrupt, token_owner};
use crate::database::key_value::{is_listing, OrderedTable};
use crate::database::Database;
use crate::utility::error::{Error, Result};

verus! {

pub struct Response {
    pub users: Vec<String>,
}

/// `names` are the names of all registered users, in ascending byte order.
pub open spec fn lists_all_users<T: OrderedTable>(db: &Database<T>, names: Seq<String>) -> bool {
    exists|s: Seq<(Seq<u8>, Seq<u8>)>|
        #[trigger] is_listing(db.user_password.contents(), Seq::empty(), Seq::empty(), s)
            && names.len() == s.len() && forall|i: int|
            0 <= i < s.len() ==> (#[trigger] names[i])@ == decode_utf8(s[i].0)
}

/// All registered users, for any signed-in user.
pub fn get_users<T: OrderedTable>(db: &Database<T>, token: String) -> (r: Result<Response>)
    requires
        token_owner(db.token_user.contents(), token@) is Some ==> db.names_readable(),
    ensures
        ({
            let tu = db.token_user.contents();
            &&& db.infallible() && !token_corrupt(tu, token@) ==> (r is Ok
                || r == Err::<Response, Error>(Error::BadRequest("Wrong token.")))
            &&& match r {
                Ok(resp) => token_owner(tu, token@) is Some && lists_all_users(db, resp.users@),
                Err(Error::BadRequest(msg)) => token_owner(tu, token@) is None && !token_corrupt(
                    tu,
                    token@,
                ) && msg == "Wrong token.",
                Err(e) => lookup_error(tu, token@, e),
            }
        }),
{
    match db.from_token(token) {
        Ok(Some(_)) => {},
        Ok(None) => {
            return Err(Error::BadRequest("Wrong token."));
        },
        Err(e) => {
            return Err(e);
        },
    }
    let users = db.users()?;
    Ok(Response { users })
}

} // verus!
