use vstd::prelude::*;
use vstd::utf8::*;

use crate::api::{lookup_error, token_check, token_corrupt, token_owner};
use crate::database::key_value::key::base64_data;
use crate::database::key_value::OrderedTable;
use crate::database::Database;
use crate::utility::error::{Error, Result};

verus! {

pub struct Body {
    pub username: String,
}

pub struct Response {
    pub public_key: Vec<u8>,
}

/// The public key of the user named in the body, for any signed-in user.
pub fn get_key<T: OrderedTable>(db: &Database<T>, token: String, body: Body) -> (r: Result<Response>)
    requires
        token_owner(db.token_user.contents(), token@) matches Some(u) && u.len() > 0
            ==> db.key_readable(encode_utf8(body.username@)),
    ensures
        ({
            let tu = db.token_user.contents();
            let uk = db.user_key.contents();
            let k = encode_utf8(body.username@);
            let signed_in = token_owner(tu, token@) matches Some(u) && u.len() > 0;
            &&& db.infallible() && !token_corrupt(tu, token@) ==> (r is Ok || r is Err && r->Err_0 is BadRequest)
            &&& match r {
                Ok(resp) => signed_in && uk.contains_key(k) && base64_data(uk[k]) == Some(
                    resp.public_key@,
                ),
                Err(Error::BadRequest(msg)) => (!signed_in && !token_corrupt(tu, token@) && msg
                    == "Wrong token.") || (signed_in && !uk.contains_key(k) && msg
                    == "Wrong username."),
                Err(e) => lookup_error(tu, token@, e) || e is SqliteError,
            }
        }),
{
    broadcast use vstd::string::group_string_axioms;

    let empty = "".to_string();
    proof {
        reveal_strlit("");
    }
    let signed_in = |name: String| -> (b: bool)
        ensures
            b <==> name@ != empty@,
        {
            let named: bool = name != empty;
            named
        };
    let ghost t = token@;
    let checked = token_check(db, token, signed_in);
    proof {
        assert(empty@.len() == 0);
        if checked is Ok {
            let u = choose|u: String|
                token_owner(db.token_user.contents(), t) == Some(u@) && #[trigger] call_ensures(
                    signed_in,
                    (u,),
                    true,
                );
            assert(u@ != empty@);
            if u@.len() == 0 {
                assert(u@ =~= empty@);
            }
        }
    }
    checked?;
    let username = body.username;
    match db.get_key(username.as_str()) {
        Ok(Some(public_key)) => Ok(Response { public_key }),
        Ok(None) => Err(Error::BadRequest("Wrong username.")),
        Err(e) => Err(e),
    }
}

} // verus!
