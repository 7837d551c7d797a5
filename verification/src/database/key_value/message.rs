//! Messages: per-user counters, per-user message indices and the stored
//! messages.
use vstd::prelude::*;
use vstd::utf8::*;

use crate::database::key_value::{entries_view, is_listing, OrderedTable};
use crate::database::Database;
use crate::service::message::{decode_message, message_bytes, Message};
use crate::utility::bytes::{be_bytes, be_value, u128_from_be, u128_to_be};
use crate::utility::decimal::{
    ascii_text, decimal_digits, index_width, parse_u128, parsed_u128, u128_to_string,
    zero_padded, zero_padded_of,
};
use crate::database::key_value::mailbox::{
    indices_after_send, law_read_lists_mailbox, law_send_keeps_indices_complete,
    law_send_keeps_indices_counted, mailbox_from, names_apart,
};
use crate::utility::decimal::pow10;
use crate::utility::error::Result;

verus! {

/// The counter that `t` holds for `name`; a missing counter is zero.
pub open spec fn count_in(t: Map<Seq<u8>, Seq<u8>>, name: Seq<u8>) -> nat {
    if t.contains_key(name) {
        be_value(t[name])
    } else {
        0
    }
}

/// The index key of a user's `i`-th message: the name, then `i` in decimal
/// padded to six digits.
pub open spec fn index_key(name: Seq<u8>, i: nat) -> Seq<u8> {
    name + zero_padded(i, index_width())
}

/// The id of a message: the sender's index key, `_`, the receiver's.
pub open spec fn message_id(sender_key: Seq<u8>, recver_key: Seq<u8>) -> Seq<u8> {
    sender_key + seq![95u8] + recver_key
}

/// The receiver's counter before a message is sent.
pub open spec fn recv_index(uc: Map<Seq<u8>, Seq<u8>>, m: Message) -> nat {
    count_in(uc, encode_utf8(m.recv@))
}

/// The counters after the receiver's counter has been advanced.
pub open spec fn counts_after_recv(uc: Map<Seq<u8>, Seq<u8>>, m: Message) -> Map<Seq<u8>, Seq<u8>> {
    uc.insert(encode_utf8(m.recv@), be_bytes(recv_index(uc, m) + 1, 16))
}

/// Both counters have room to advance: each is below the largest count,
/// and a user who writes to themself has room for two.
pub open spec fn counts_have_room(uc: Map<Seq<u8>, Seq<u8>>, m: Message) -> bool {
    &&& count_in(uc, encode_utf8(m.recv@)) < u128::MAX
    &&& count_in(uc, encode_utf8(m.send@)) < u128::MAX
    &&& encode_utf8(m.send@) == encode_utf8(m.recv@) ==> count_in(uc, encode_utf8(m.recv@)) + 2
        <= u128::MAX
}

/// The sender's counter once the receiver's has been advanced.
pub open spec fn send_index(uc: Map<Seq<u8>, Seq<u8>>, m: Message) -> nat {
    count_in(counts_after_recv(uc, m), encode_utf8(m.send@))
}

/// The counters after a message is sent: the receiver's and then the
/// sender's advance by one.
pub open spec fn counts_after_send(uc: Map<Seq<u8>, Seq<u8>>, m: Message) -> Map<Seq<u8>, Seq<u8>> {
    counts_after_recv(uc, m).insert(encode_utf8(m.send@), be_bytes(send_index(uc, m) + 1, 16))
}

/// The sender's index key of a message about to be sent.
pub open spec fn sender_key(uc: Map<Seq<u8>, Seq<u8>>, m: Message) -> Seq<u8> {
    index_key(encode_utf8(m.send@), send_index(uc, m))
}

/// The receiver's index key of a message about to be sent.
pub open spec fn recver_key(uc: Map<Seq<u8>, Seq<u8>>, m: Message) -> Seq<u8> {
    index_key(encode_utf8(m.recv@), recv_index(uc, m))
}

/// The id of a message about to be sent.
pub open spec fn sent_id(uc: Map<Seq<u8>, Seq<u8>>, m: Message) -> Seq<u8> {
    message_id(sender_key(uc, m), recver_key(uc, m))
}

/// The message tables partway through sending `m`: after the first
/// `stage` of its five writes (the receiver's counter, the sender's
/// counter, the stored message, the sender's index, the receiver's index).
pub open spec fn send_stage(
    uc: Map<Seq<u8>, Seq<u8>>,
    mm: Map<Seq<u8>, Seq<u8>>,
    um: Map<Seq<u8>, Seq<u8>>,
    m: Message,
    stage: int,
    uc2: Map<Seq<u8>, Seq<u8>>,
    mm2: Map<Seq<u8>, Seq<u8>>,
    um2: Map<Seq<u8>, Seq<u8>>,
) -> bool {
    &&& uc2 == (if stage == 0 {
        uc
    } else if stage == 1 {
        counts_after_recv(uc, m)
    } else {
        counts_after_send(uc, m)
    })
    &&& mm2 == (if stage <= 2 {
        mm
    } else {
        mm.insert(sent_id(uc, m), message_bytes(m@))
    })
    &&& um2 == (if stage <= 3 {
        um
    } else {
        um.insert(sender_key(uc, m), sent_id(uc, m))
    })
}

fn index_key_of(name: &str, i: u128) -> (r: Vec<u8>)
    ensures
        r@ == index_key(encode_utf8(name@), i as nat),
{
    let mut r = vstd::slice::slice_to_vec(name.as_bytes());
    let digits = zero_padded_of(i, 6);
    let mut k: usize = 0;
    let ghost start = r@;
    while k < digits.len()
        invariant
            k <= digits@.len(),
            r@ == start + digits@.take(k as int),
        decreases digits.len() - k,
    {
        r.push(digits[k]);
        proof {
            assert(digits@.take(k + 1) =~= digits@.take(k as int).push(digits@[k as int]));
        }
        k = k + 1;
    }
    proof {
        assert(digits@.take(k as int) =~= digits@);
    }
    r
}

impl<T: OrderedTable> Database<T> {
    /// The number of messages that `username` has sent or received.
    pub fn get_count(&self, username: &str) -> (r: Result<u128>)
        requires
            self.counter_readable(encode_utf8(username@)),
        ensures
            self.user_count.infallible() ==> r is Ok,
            match r {
                Ok(c) => c == count_in(self.user_count.contents(), encode_utf8(username@)),
                Err(e) => e is SqliteError,
            },
    {
        match self.user_count.get(username.as_bytes()) {
            Ok(Some(bytes)) => Ok(u128_from_be(bytes.as_slice())),
            Ok(None) => Ok(0),
            Err(e) => Err(e),
        }
    }

    /// Stores `message` and files it under the next index of its receiver
    /// and then of its sender.
    pub fn send_message(&mut self, message: Message) -> (r: Result<()>)
        requires
            old(self).counter_readable(encode_utf8(message.recv@)),
            old(self).counter_readable(encode_utf8(message.send@)),
            counts_have_room(old(self).user_count.contents(), message),
        ensures
            old(self).well_formed() ==> final(self).well_formed(),
            final(self).infallible() == old(self).infallible(),
            final(self).user_password == old(self).user_password,
            final(self).token_user == old(self).token_user,
            final(self).user_token == old(self).user_token,
            final(self).user_key == old(self).user_key,
            old(self).infallible() ==> r is Ok,
            r matches Err(e) ==> e is SqliteError,
            r is Err ==> exists|stage: int|
                0 <= stage <= 4 && #[trigger] send_stage(
                    old(self).user_count.contents(),
                    old(self).messageid_message.contents(),
                    old(self).user_messageid.contents(),
                    message,
                    stage,
                    final(self).user_count.contents(),
                    final(self).messageid_message.contents(),
                    final(self).user_messageid.contents(),
                ),
            r is Ok && old(self).mailboxes_consistent() ==> final(self).mailboxes_consistent(),
            ({
                let uc = old(self).user_count.contents();
                r is Ok ==> {
                    &&& final(self).user_count.contents() == counts_after_send(uc, message)
                    &&& final(self).messageid_message.contents() == old(
                        self,
                    ).messageid_message.contents().insert(
                        sent_id(uc, message),
                        message_bytes(message@),
                    )
                    &&& final(self).user_messageid.contents() == old(
                        self,
                    ).user_messageid.contents().insert(sender_key(uc, message), sent_id(uc, message)).insert(
                        recver_key(uc, message),
                        sent_id(uc, message),
                    )
                }
            }),
    {
        let ghost uc = self.user_count.contents();
        let ghost mm = self.messageid_message.contents();
        let ghost um = self.user_messageid.contents();
        let recv_count = match self.get_count(message.recv.as_str()) {
            Ok(c) => c,
            Err(e) => {
                proof {
                    assert(send_stage(
                        uc,
                        mm,
                        um,
                        message,
                        0,
                        self.user_count.contents(),
                        self.messageid_message.contents(),
                        self.user_messageid.contents(),
                    ));
                }
                return Err(e);
            },
        };
        let c = u128_to_be(recv_count + 1);
        match self.user_count.insert(message.recv.as_str().as_bytes(), c.as_slice()) {
            Ok(()) => {},
            Err(e) => {
                proof {
                    assert(send_stage(
                        uc,
                        mm,
                        um,
                        message,
                        0,
                        self.user_count.contents(),
                        self.messageid_message.contents(),
                        self.user_messageid.contents(),
                    ));
                }
                return Err(e);
            },
        }
        proof {
            assert(self.user_count.contents() == counts_after_recv(uc, message));
        }
        let send_count = match self.get_count(message.send.as_str()) {
            Ok(c) => c,
            Err(e) => {
                proof {
                    assert(send_stage(
                        uc,
                        mm,
                        um,
                        message,
                        1,
                        self.user_count.contents(),
                        self.messageid_message.contents(),
                        self.user_messageid.contents(),
                    ));
                }
                return Err(e);
            },
        };
        proof {
            if encode_utf8(message.send@) == encode_utf8(message.recv@) {
                assert(send_count == recv_count + 1);
            }
        }
        let c = u128_to_be(send_count + 1);
        match self.user_count.insert(message.send.as_str().as_bytes(), c.as_slice()) {
            Ok(()) => {},
            Err(e) => {
                proof {
                    assert(send_stage(
                        uc,
                        mm,
                        um,
                        message,
                        1,
                        self.user_count.contents(),
                        self.messageid_message.contents(),
                        self.user_messageid.contents(),
                    ));
                }
                return Err(e);
            },
        }
        proof {
            assert(self.user_count.contents() == counts_after_send(uc, message));
        }
        let sender = index_key_of(message.send.as_str(), send_count);
        let recver = index_key_of(message.recv.as_str(), recv_count);
        let mut messageid = vstd::slice::slice_to_vec(sender.as_slice());
        messageid.push(95u8);
        let mut k: usize = 0;
        let ghost start = messageid@;
        while k < recver.len()
            invariant
                k <= recver@.len(),
                messageid@ == start + recver@.take(k as int),
            decreases recver.len() - k,
        {
            messageid.push(recver[k]);
            proof {
                assert(recver@.take(k + 1) =~= recver@.take(k as int).push(recver@[k as int]));
            }
            k = k + 1;
        }
        proof {
            assert(recver@.take(k as int) =~= recver@);
            assert(messageid@ =~= sent_id(uc, message));
        }
        let stored = message.to_bytes();
        proof {
            crate::service::message::lemma_message_roundtrip(message@);
        }
        match self.messageid_message.insert(messageid.as_slice(), stored.as_slice()) {
            Ok(()) => {},
            Err(e) => {
                proof {
                    assert(send_stage(
                        uc,
                        mm,
                        um,
                        message,
                        2,
                        self.user_count.contents(),
                        self.messageid_message.contents(),
                        self.user_messageid.contents(),
                    ));
                }
                return Err(e);
            },
        }
        match self.user_messageid.insert(sender.as_slice(), messageid.as_slice()) {
            Ok(()) => {},
            Err(e) => {
                proof {
                    assert(send_stage(
                        uc,
                        mm,
                        um,
                        message,
                        3,
                        self.user_count.contents(),
                        self.messageid_message.contents(),
                        self.user_messageid.contents(),
                    ));
                }
                return Err(e);
            },
        }
        match self.user_messageid.insert(recver.as_slice(), messageid.as_slice()) {
            Ok(()) => {},
            Err(e) => {
                proof {
                    assert(send_stage(
                        uc,
                        mm,
                        um,
                        message,
                        4,
                        self.user_count.contents(),
                        self.messageid_message.contents(),
                        self.user_messageid.contents(),
                    ));
                }
                return Err(e);
            },
        }
        proof {
            if old(self).mailboxes_consistent() {
                let um = old(self).user_messageid.contents();
                law_send_keeps_indices_counted(uc, um, message);
                law_send_keeps_indices_complete(uc, um, message);
                assert(self.user_messageid.contents() == indices_after_send(uc, um, message));
            }
        }
        Ok(())
    }

    /// The messages of `username` from index `since` on, and the index to
    /// ask from next time.
    pub fn recv_message(&self, username: &str, since: &str) -> (r: Result<
        Option<(Vec<Message>, String)>,
    >)
        requires
            parsed_u128(encode_utf8(since@)) is Some,
            self.counter_readable(encode_utf8(username@)),
            self.mailbox_readable(
                encode_utf8(username@),
                zero_padded(parsed_u128(encode_utf8(since@))->0 as nat, index_width()),
            ),
        ensures
            self.infallible() ==> r is Ok,
            r is Ok ==> r->Ok_0 is Some,
            r matches Err(e) ==> e is SqliteError,
            ({
                let um = self.user_messageid.contents();
                let mm = self.messageid_message.contents();
                let from = zero_padded(
                    parsed_u128(encode_utf8(since@))->0 as nat,
                    index_width(),
                );
                r matches Ok(Some((msgs, next))) ==> {
                    &&& exists|s: Seq<(Seq<u8>, Seq<u8>)>|
                        #[trigger] is_listing(um, encode_utf8(username@), from, s) && msgs@.len()
                            == s.len() && forall|i: int|
                            0 <= i < s.len() ==> decode_message(mm[s[i].1]) == Some(
                                (#[trigger] msgs@[i])@,
                            )
                    &&& next@ == ascii_text(
                        decimal_digits(
                            count_in(self.user_count.contents(), encode_utf8(username@)),
                        ),
                    )
                }
            }),
            ({
                let uc = self.user_count.contents();
                let um = self.user_messageid.contents();
                let mm = self.messageid_message.contents();
                let name = encode_utf8(username@);
                let since_n = parsed_u128(encode_utf8(since@))->0 as nat;
                let mailbox = mailbox_from(uc, um, name, since_n);
                self.mailboxes_consistent() && names_apart(uc, name) && count_in(uc, name) < pow10(
                    index_width(),
                ) && since_n < pow10(index_width()) ==> (r matches Ok(Some((msgs, _))) ==> {
                    &&& msgs@.len() == mailbox.len()
                    &&& forall|i: int|
                        0 <= i < mailbox.len() ==> decode_message(mm[mailbox[i].1]) == Some(
                            (#[trigger] msgs@[i])@,
                        )
                })
            }),
    {
        let since_n = match parse_u128(since.as_bytes()) {
            Some(n) => n,
            None => {
                proof {
                    assert(false);
                }
                0
            },
        };
        let from = zero_padded_of(since_n, 6);
        let entries = self.user_messageid.iter_form(username, from.as_slice())?;
        let ghost ev = entries_view(entries@);
        let ghost um = self.user_messageid.contents();
        let ghost mm = self.messageid_message.contents();
        let mut msgs: Vec<Message> = Vec::new();
        let mut i: usize = 0;
        while i < entries.len()
            invariant
                i <= entries@.len(),
                ev == entries_view(entries@),
                um == self.user_messageid.contents(),
                mm == self.messageid_message.contents(),
                self.mailbox_readable(encode_utf8(username@), from@),
                is_listing(um, encode_utf8(username@), from@, ev),
                msgs@.len() == i,
                forall|j: int|
                    0 <= j < i ==> decode_message(mm[ev[j].1]) == Some((#[trigger] msgs@[j])@),
            decreases entries.len() - i,
        {
            proof {
                assert(ev[i as int].1 == entries@[i as int].1@);
                assert(um.contains_key(ev[i as int].0) && um[ev[i as int].0] == ev[i as int].1);
            }
            match self.messageid_message.get(entries[i].1.as_slice()) {
                Ok(Some(bytes)) => {
                    msgs.push(Message::from_bytes(bytes));
                },
                Ok(None) => {
                    proof {
                        assert(false);
                    }
                },
                Err(e) => {
                    return Err(e);
                },
            }
            i = i + 1;
        }
        let count = self.get_count(username)?;
        proof {
            let uc = self.user_count.contents();
            let name = encode_utf8(username@);
            if self.mailboxes_consistent() && names_apart(uc, name) && count_in(uc, name) < pow10(
                index_width(),
            ) && since_n < pow10(index_width()) {
                law_read_lists_mailbox(uc, um, name, since_n as nat, ev);
            }
            assert(is_listing(um, encode_utf8(username@), from@, ev));
            assert(from@ == zero_padded(parsed_u128(encode_utf8(since@))->0 as nat, index_width()));
            assert(msgs@.len() == ev.len());
            assert(forall|j: int|
                0 <= j < ev.len() ==> decode_message(mm[ev[j].1]) == Some((#[trigger] msgs@[j])@));
        }
        Ok(Some((msgs, u128_to_string(count))))
    }
}

} // verus!
