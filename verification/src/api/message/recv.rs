use vstd::prelude::*;
use vstd::utf8::*;

use crate::api::{get_user_from_token, lookup_error, token_corrupt, token_owner};
use crate::database::key_value::is_listing;
use crate::database::key_value::message::count_in;
use crate::database::key_value::OrderedTable;
use crate::database::Database;
use crate::service::message::{decode_message, Message};
use crate::utility::decimal::{ascii_text, decimal_digits, index_width, parsed_u128, zero_padded};
use crate::utility::error::{Error, Result};

verus! {

pub struct Body {
    pub since: String,
}

pub struct Response {
    pub next_since: String,
    pub messages: Vec<Message>,
}

/// What a read of `user`'s messages from index `since` answers: the
/// messages filed under the user's indices from `since` on, and the user's
/// count as the index to read from next.
pub open spec fn is_read_answer<T: OrderedTable>(
    db: &Database<T>,
    user: Seq<char>,
    since: Seq<char>,
    messages: Seq<Message>,
    next_since: Seq<char>,
) -> bool {
    let um = db.user_messageid.contents();
    let mm = db.messageid_message.contents();
    let from = zero_padded(parsed_u128(encode_utf8(since))->0 as nat, index_width());
    &&& exists|s: Seq<(Seq<u8>, Seq<u8>)>|
        #[trigger] is_listing(um, encode_utf8(user), from, s) && messages.len() == s.len()
            && forall|i: int|
            0 <= i < s.len() ==> decode_message(mm[s[i].1]) == Some((#[trigger] messages[i])@)
    &&& next_since == ascii_text(decimal_digits(count_in(db.user_count.contents(), encode_utf8(user))))
}

/// # `POST /api/v0/sync`
///
/// The signed-in user's messages from index `since` on.
pub fn recv<T: OrderedTable>(db: &Database<T>, token: String, body: Body) -> (r: Result<Response>)
    requires
        token_owner(db.token_user.contents(), token@) matches Some(u) ==> {
            &&& parsed_u128(encode_utf8(body.since@)) is Some
            &&& db.counter_readable(encode_utf8(u))
            &&& db.mailbox_readable(
                encode_utf8(u),
                zero_padded(parsed_u128(encode_utf8(body.since@))->0 as nat, index_width()),
            )
        },
    ensures
        ({
            let tu = db.token_user.contents();
            &&& db.infallible() && !token_corrupt(tu, token@) ==> (r is Ok
                || r == Err::<Response, Error>(Error::BadRequest("Wrong token.")))
            &&& match r {
                Ok(resp) => token_owner(tu, token@) matches Some(u) && is_read_answer(
                    db,
                    u,
                    body.since@,
                    resp.messages@,
                    resp.next_since@,
                ),
                Err(Error::BadRequest(msg)) => token_owner(tu, token@) is None && !token_corrupt(
                    tu,
                    token@,
                ) && msg == "Wrong token.",
                Err(e) => lookup_error(tu, token@, e) || e is SqliteError,
            }
        }),
{
    let user = get_user_from_token(db, token)?;
    let since = body.since;
    match db.recv_message(user.as_str(), since.as_str()) {
        Ok(Some((messages, next_since))) => Ok(Response { next_since, messages }),
        Ok(None) => Err(Error::BadRequest("Wrong since.")),
        Err(e) => Err(e),
    }
}

} // verus!
