use vstd::prelude::*;
use vstd::utf8::*;

use crate::api::{get_user_from_token, lookup_error, token_corrupt, token_owner};
use crate::database::key_value::key::base64_text;
use crate::database::key_value::OrderedTable;
use crate::database::Database;
use crate::utility::error::{Error, Result};

verus! {

pub struct Body {
    pub public_key: Vec<u8>,
}

/// Publishes the public key in the body as the key of the signed-in user.
pub fn send_key<T: OrderedTable>(db: &mut Database<T>, token: String, body: Body) -> (r: Result<()>)
    ensures
        old(db).well_formed() ==> final(db).well_formed(),
        final(db).same_except_user_key(*old(db)),
        ({
            let tu = old(db).token_user.contents();
            &&& old(db).infallible() && !token_corrupt(tu, token@) ==> (r is Ok
                || r == Err::<(), Error>(Error::BadRequest("Wrong token.")))
            &&& match r {
                Ok(()) => token_owner(tu, token@) matches Some(u)
                    && final(db).user_key.contents() == old(db).user_key.contents().insert(
                    encode_utf8(u),
                    encode_utf8(base64_text(body.public_key@)),
                ),
                Err(Error::BadRequest(msg)) => token_owner(tu, token@) is None && !token_corrupt(
                    tu,
                    token@,
                ) && msg == "Wrong token." && final(db).user_key == old(db).user_key,
                Err(e) => lookup_error(tu, token@, e) || e is SqliteError,
            }
        }),
{
    let user = get_user_from_token(db, token)?;
    db.set_key(user.as_str(), body.public_key)
}

} // verus!
