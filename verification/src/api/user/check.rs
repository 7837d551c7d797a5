use vstd::prelude::*;

use crate::api::{lookup_error, token_check, token_corrupt, token_owner};
use crate::database::key_value::OrderedTable;
use crate::database::Database;
use crate::utility::error::{Error, Result};

verus! {

pub struct Body {
    pub name: String,
}

/// Accepts the token when it belongs to the user named in the body.
pub fn check_token<T: OrderedTable>(db: &Database<T>, token: String, body: Body) -> (r: Result<()>)
    ensures
        ({
            let tu = db.token_user.contents();
            &&& db.infallible() && !token_corrupt(tu, token@) ==> (r is Ok
                || r == Err::<(), Error>(Error::BadRequest("Wrong token.")))
            &&& match r {
                Ok(()) => token_owner(tu, token@) == Some(body.name@),
                Err(Error::BadRequest(msg)) => token_owner(tu, token@) != Some(body.name@)
                    && !token_corrupt(tu, token@) && msg == "Wrong token.",
                Err(e) => lookup_error(tu, token@, e),
            }
        }),
{
    let name = body.name;
    let ghost t = token@;
    let named = |user: String| -> (b: bool)
        ensures
            b <==> user@ == name@,
        {
            let same: bool = user == name;
            same
        };
    let checked = token_check(db, token, named);
    proof {
        if checked is Ok {
            let u = choose|u: String|
                token_owner(db.token_user.contents(), t) == Some(u@) && #[trigger] call_ensures(
                    named,
                    (u,),
                    true,
                );
        } else if checked matches Err(Error::BadRequest(_)) {
            if token_owner(db.token_user.contents(), t) is Some {
                let u = choose|u: String|
                    token_owner(db.token_user.contents(), t) == Some(u@) && #[trigger] call_ensures(
                        named,
                        (u,),
                        false,
                    );
            }
        }
    }
    checked
}

} // verus!
