use vstd::prelude::*;
use vstd::utf8::*;

use crate::api::{lookup_error, token_corrupt, token_owner};
use crate::database::key_value::message::{counts_after_send, counts_have_room, sender_key, recver_key, sent_id};
use crate::database::key_value::OrderedTable;
use crate::database::Database;
use crate::service::message::{message_bytes, Message};
use crate::utility::error::{Error, Result};

verus! {

pub struct Body {
    pub token: String,
    pub message: Message,
}

/// The database after `m` has been sent.
pub open spec fn is_sent<T: OrderedTable>(before: Database<T>, after: Database<T>, m: Message) -> bool {
    let uc = before.user_count.contents();
    &&& after.user_count.contents() == counts_after_send(uc, m)
    &&& after.messageid_message.contents() == before.messageid_message.contents().insert(
        sent_id(uc, m),
        message_bytes(m@),
    )
    &&& after.user_messageid.contents() == before.user_messageid.contents().insert(
        sender_key(uc, m),
        sent_id(uc, m),
    ).insert(recver_key(uc, m), sent_id(uc, m))
}

/// # `POST /api/v0/send`
///
/// Sends the message in the body, which must come from the user whose token
/// is in the body.
pub fn send<T: OrderedTable>(db: &mut Database<T>, body: Body) -> (r: Result<()>)
    requires
        token_owner(old(db).token_user.contents(), body.token@) == Some(body.message.send@) ==> {
            &&& old(db).counter_readable(encode_utf8(body.message.recv@))
            &&& old(db).counter_readable(encode_utf8(body.message.send@))
            &&& counts_have_room(old(db).user_count.contents(), body.message)
        },
    ensures
        old(db).well_formed() ==> final(db).well_formed(),
        final(db).infallible() == old(db).infallible(),
        final(db).user_password == old(db).user_password,
        final(db).token_user == old(db).token_user,
        final(db).user_token == old(db).user_token,
        final(db).user_key == old(db).user_key,
        ({
            let tu = old(db).token_user.contents();
            let owner = token_owner(tu, body.token@);
            &&& owner != Some(body.message.send@) ==> *final(db) == *old(db)
            &&& old(db).infallible() && !token_corrupt(tu, body.token@) ==> (r is Ok || r is Err
                && r->Err_0 is BadRequest)
            &&& match r {
                Ok(()) => owner == Some(body.message.send@) && is_sent(
                    *old(db),
                    *final(db),
                    body.message,
                ),
                Err(Error::BadRequest(msg)) => *final(db) == *old(db) && !token_corrupt(
                    tu,
                    body.token@,
                ) && ((owner is None && msg == "Wrong token.") || (owner matches Some(u) && u
                    != body.message.send@ && msg == "Wrong user.")),
                Err(e) => lookup_error(tu, body.token@, e) || e is SqliteError,
            }
        }),
{
    let user = match db.from_token(body.token) {
        Ok(Some(u)) => u,
        Ok(None) => {
            return Err(Error::BadRequest("Wrong token."));
        },
        Err(e) => {
            return Err(e);
        },
    };
    if user == body.message.send {
        db.send_message(body.message)
    } else {
        Err(Error::BadRequest("Wrong user."))
    }
}

} // verus!
