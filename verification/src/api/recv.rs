use vstd::prelude::*;
use vstd::utf8::*;

use crate::api::message::recv::is_read_answer;
use crate::api::{lookup_error, token_corrupt, token_owner};
use crate::database::key_value::OrderedTable;
use crate::database::Database;
use crate::service::message::Message;
use crate::utility::decimal::{index_width, parsed_u128, zero_padded};
use crate::utility::error::{Error, Result};

verus! {

pub struct Body {
    pub token: String,
    pub since: String,
}

pub struct Response {
    pub next_since: String,
    pub messages: Vec<Message>,
}

/// # `POST /api/v0/sync`
///
/// The messages of the user whose token is in the body, from index `since`
/// on.
pub fn recv<T: OrderedTable>(db: &Database<T>, body: Body) -> (r: Result<Response>)
    requires
        token_owner(db.token_user.contents(), body.token@) matches Some(u) ==> {
            &&& parsed_u128(encode_utf8(body.since@)) is Some
            &&& db.counter_readable(encode_utf8(u))
            &&& db.mailbox_readable(
                encode_utf8(u),
                zero_padded(parsed_u128(encode_utf8(body.since@))->0 as nat, index_width()),
            )
        },
    ensures
        ({
            let tu = db.token_user.contents();
            &&& db.infallible() && !token_corrupt(tu, body.token@) ==> (r is Ok
                || r == Err::<Response, Error>(Error::BadRequest("Wrong token.")))
            &&& match r {
                Ok(resp) => token_owner(tu, body.token@) matches Some(u) && is_read_answer(
                    db,
                    u,
                    body.since@,
                    resp.messages@,
                    resp.next_since@,
                ),
                Err(Error::BadRequest(msg)) => token_owner(tu, body.token@) is None
                    && !token_corrupt(tu, body.token@) && msg == "Wrong token.",
                Err(e) => lookup_error(tu, body.token@, e) || e is SqliteError,
            }
        }),
{
    let user = match db.from_token(body.token) {
        Ok(Some(u)) => u,
        Ok(None) => {
            return Err(Error::BadRequest("Wrong token."));
        },
        Err(e) => {
            return Err(e);
        },
    };
    let since = body.since;
    match db.recv_message(user.as_str(), since.as_str()) {
        Ok(Some((messages, next_since))) => Ok(Response { next_since, messages }),
        Ok(None) => Err(Error::BadRequest("Wrong since.")),
        Err(e) => Err(e),
    }
}

} // verus!
