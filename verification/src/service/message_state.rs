//! The decisions of the long-polling read: answer at once when there are
//! messages, else wait for the next message to the user, and who waits.
use vstd::prelude::*;

use vstd::utf8::*;

use crate::api::send::is_sent;
use crate::database::key_value::message::{
    count_in, counts_after_send, counts_have_room, recv_index, send_index,
};
use crate::database::key_value::OrderedTable;
use crate::database::Database;
use crate::service::message::Message;
use crate::utility::bytes::lemma_be_bytes_len;
use crate::utility::decimal::{ascii_text, decimal_digits, u128_to_string};
use crate::utility::error::Result;

verus! {

/// The users who wait for their next message, each with what wakes them.
pub struct NotifyMap<S> {
    entries: Vec<(String, S)>,
    map: Ghost<Map<Seq<char>, S>>,
}

/// `entries` hold exactly the pairs of `map`, each name once.
spec fn entries_match<S>(entries: Seq<(String, S)>, map: Map<Seq<char>, S>) -> bool {
    &&& forall|i: int, j: int|
        0 <= i < j < entries.len() ==> (#[trigger] entries[i]).0@ != (#[trigger] entries[j]).0@
    &&& forall|i: int|
        0 <= i < entries.len() ==> map.contains_key((#[trigger] entries[i]).0@) && map[entries[i].0@]
            == entries[i].1
    &&& forall|k: Seq<char>| #[trigger]
        map.contains_key(k) ==> exists|i: int| 0 <= i < entries.len() && (#[trigger] entries[i]).0@ == k
}

impl<S> NotifyMap<S> {
    #[verifier::type_invariant]
    spec fn well_formed(self) -> bool {
        entries_match(self.entries@, self.map@)
    }

    /// Who waits, and on what.
    pub closed spec fn waiting(&self) -> Map<Seq<char>, S> {
        self.map@
    }

    /// No one waits.
    pub fn new() -> (r: Self)
        ensures
            r.waiting() == Map::<Seq<char>, S>::empty(),
    {
        NotifyMap { entries: Vec::new(), map: Ghost(Map::empty()) }
    }

    fn position(&self, key: &String) -> (r: Option<usize>)
        ensures
            match r {
                Some(i) => i < self.entries@.len() && self.entries@[i as int].0@ == key@,
                None => !self.waiting().contains_key(key@),
            },
    {
        proof {
            use_type_invariant(self);
        }
        let mut i: usize = 0;
        while i < self.entries.len()
            invariant
                i <= self.entries@.len(),
                forall|j: int| 0 <= j < i ==> (#[trigger] self.entries@[j]).0@ != key@,
            decreases self.entries.len() - i,
        {
            if self.entries[i].0 == *key {
                return Some(i);
            }
            i = i + 1;
        }
        None
    }

    /// `key` now waits on `value`, in place of what it waited on before.
    pub fn insert(&mut self, key: String, value: S)
        ensures
            final(self).waiting() == old(self).waiting().insert(key@, value),
    {
        proof {
            use_type_invariant(&*self);
        }
        let pos = self.position(&key);
        let mut t = NotifyMap::new();
        std::mem::swap(&mut t, self);
        let NotifyMap { mut entries, map } = t;
        let ghost old_e = entries@;
        let ghost k = key@;
        let ghost new_map = map@.insert(k, value);
        match pos {
            Some(i) => {
                entries.set(i, (key, value));
                proof {
                    assert forall|a: int|
                        0 <= a < entries@.len() implies new_map.contains_key(
                        (#[trigger] entries@[a]).0@,
                    ) && new_map[entries@[a].0@] == entries@[a].1 by {
                        if a != i {
                            assert(entries@[a] == old_e[a]);
                            assert(old_e[a].0@ != old_e[i as int].0@ || a == i);
                        }
                    }
                    assert forall|kk: Seq<char>| #[trigger]
                        new_map.contains_key(kk) implies exists|a: int|
                        0 <= a < entries@.len() && (#[trigger] entries@[a]).0@ == kk by {
                        if kk == k {
                            assert(entries@[i as int].0@ == kk);
                        } else {
                            let a = choose|a: int|
                                0 <= a < old_e.len() && (#[trigger] old_e[a]).0@ == kk;
                            assert(entries@[a] == old_e[a]);
                        }
                    }
                    assert forall|a: int, b: int|
                        0 <= a < b < entries@.len() implies (#[trigger] entries@[a]).0@ != (
                        #[trigger] entries@[b]).0@ by {
                        if a != i && b != i {
                            assert(entries@[a] == old_e[a] && entries@[b] == old_e[b]);
                        } else if a == i {
                            assert(entries@[b] == old_e[b]);
                            assert(old_e[a].0@ != old_e[b].0@);
                        } else {
                            assert(entries@[a] == old_e[a]);
                            assert(old_e[a].0@ != old_e[b].0@);
                        }
                    }
                }
            },
            None => {
                entries.push((key, value));
                proof {
                    assert forall|a: int|
                        0 <= a < entries@.len() implies new_map.contains_key(
                        (#[trigger] entries@[a]).0@,
                    ) && new_map[entries@[a].0@] == entries@[a].1 by {
                        if a < old_e.len() {
                            assert(entries@[a] == old_e[a]);
                        }
                    }
                    assert forall|kk: Seq<char>| #[trigger]
                        new_map.contains_key(kk) implies exists|a: int|
                        0 <= a < entries@.len() && (#[trigger] entries@[a]).0@ == kk by {
                        if kk == k {
                            assert(entries@[old_e.len() as int].0@ == kk);
                        } else {
                            let a = choose|a: int|
                                0 <= a < old_e.len() && (#[trigger] old_e[a]).0@ == kk;
                            assert(entries@[a] == old_e[a]);
                        }
                    }
                    assert forall|a: int, b: int|
                        0 <= a < b < entries@.len() implies (#[trigger] entries@[a]).0@ != (
                        #[trigger] entries@[b]).0@ by {
                        assert(entries@[a] == old_e[a]);
                        if b < old_e.len() {
                            assert(entries@[b] == old_e[b]);
                        } else {
                            assert(map@.contains_key(old_e[a].0@));
                        }
                    }
                }
            },
        }
        proof {
            assert(entries_match(entries@, new_map));
        }
        *self = NotifyMap { entries, map: Ghost(new_map) };
    }

    /// Takes what `key` waits on, if it waits; it no longer waits.
    pub fn remove(&mut self, key: &String) -> (r: Option<S>)
        ensures
            final(self).waiting() == old(self).waiting().remove(key@),
            match r {
                Some(v) => old(self).waiting().contains_key(key@) && v == old(self).waiting()[key@],
                None => !old(self).waiting().contains_key(key@),
            },
    {
        proof {
            use_type_invariant(&*self);
        }
        let pos = self.position(key);
        match pos {
            None => {
                proof {
                    assert(self.map@.remove(key@) =~= self.map@);
                }
                None
            },
            Some(i) => {
                let mut t = NotifyMap::new();
                std::mem::swap(&mut t, self);
                let NotifyMap { mut entries, map } = t;
                let ghost old_e = entries@;
                let ghost new_map = map@.remove(key@);
                let (_, value) = entries.remove(i);
                proof {
                    assert forall|a: int|
                        0 <= a < entries@.len() implies new_map.contains_key(
                        (#[trigger] entries@[a]).0@,
                    ) && new_map[entries@[a].0@] == entries@[a].1 by {
                        if a < i {
                            assert(entries@[a] == old_e[a]);
                        } else {
                            assert(entries@[a] == old_e[a + 1]);
                        }
                    }
                    assert forall|kk: Seq<char>| #[trigger]
                        new_map.contains_key(kk) implies exists|a: int|
                        0 <= a < entries@.len() && (#[trigger] entries@[a]).0@ == kk by {
                        let a = choose|a: int|
                            0 <= a < old_e.len() && (#[trigger] old_e[a]).0@ == kk;
                        if a < i {
                            assert(entries@[a] == old_e[a]);
                        } else {
                            assert(a != i);
                            assert(entries@[a - 1] == old_e[a]);
                        }
                    }
                    assert forall|a: int, b: int|
                        0 <= a < b < entries@.len() implies (#[trigger] entries@[a]).0@ != (
                        #[trigger] entries@[b]).0@ by {
                        let a2 = if a < i { a } else { a + 1 };
                        let b2 = if b < i { b } else { b + 1 };
                        assert(entries@[a] == old_e[a2] && entries@[b] == old_e[b2]);
                    }
                }
                proof {
                    assert(entries_match(entries@, new_map));
                }
                *self = NotifyMap { entries, map: Ghost(new_map) };
                Some(value)
            },
        }
    }
}

/// Delivers `message`: stores it, then takes the one who waits for the
/// receiver's next message, if anyone does. That waiter is handed back with
/// the message and the receiver's count once the message is stored, which
/// is the index to read from next.
pub fn deliver<T: OrderedTable, S>(
    db: &mut Database<T>,
    waiting: &mut NotifyMap<S>,
    message: Message,
) -> (r: Result<Option<(S, Message, u128)>>)
    requires
        old(db).counter_readable(encode_utf8(message.recv@)),
        old(db).counter_readable(encode_utf8(message.send@)),
        counts_have_room(old(db).user_count.contents(), message),
    ensures
        old(db).infallible() ==> r is Ok,
        old(db).well_formed() ==> final(db).well_formed(),
        r matches Err(e) ==> e is SqliteError && final(waiting).waiting() == old(
            waiting,
        ).waiting(),
        r is Ok ==> is_sent(*old(db), *final(db), message),
        r is Ok ==> final(waiting).waiting() == old(waiting).waiting().remove(message.recv@),
        r matches Ok(Some((w, m, count))) ==> {
            &&& old(waiting).waiting().contains_key(message.recv@)
            &&& w == old(waiting).waiting()[message.recv@]
            &&& m == message
            &&& count == count_in(final(db).user_count.contents(), encode_utf8(message.recv@))
        },
        r matches Ok(None) ==> !old(waiting).waiting().contains_key(message.recv@),
{
    let ghost uc = db.user_count.contents();
    let recv = message.recv.clone();
    let kept = Message {
        send: message.send.clone(),
        recv: message.recv.clone(),
        content: message.content.clone(),
    };
    db.send_message(message)?;
    proof {
        let r = encode_utf8(kept.recv@);
        let sn = encode_utf8(kept.send@);
        assert(db.user_count.contents() == counts_after_send(uc, kept));
        if r == sn {
            lemma_be_bytes_len(send_index(uc, kept) + 1, 16);
        } else {
            lemma_be_bytes_len(recv_index(uc, kept) + 1, 16);
        }
    }
    let count = db.get_count(recv.as_str())?;
    match waiting.remove(&recv) {
        Some(w) => Ok(Some((w, kept, count))),
        None => Ok(None),
    }
}

/// Whether a read is answered at once: it is when the stored messages are
/// not empty; otherwise the reader waits for the next message.
pub fn ready_messages(ret: Option<(Vec<Message>, String)>) -> (r: Option<(Vec<Message>, String)>)
    ensures
        r == (if ret matches Some(x) && x.0@.len() != 0 {
            ret
        } else {
            None
        }),
{
    match ret {
        Some(x) => {
            if x.0.len() != 0 {
                Some(x)
            } else {
                None
            }
        },
        None => None,
    }
}

/// The answer of a waiting read that a new message woke: the message, and
/// the receiver's count once it was stored, as the index to read from next;
/// `None` when the wait ended without a message.
pub fn woken_answer(woke: Option<(Message, u128)>) -> (r: Option<(Vec<Message>, String)>)
    ensures
        match woke {
            Some((msg, count)) => r matches Some(x) && x.0@ == seq![msg] && x.1@ == ascii_text(
                decimal_digits(count as nat),
            ),
            None => r is None,
        },
{
    match woke {
        Some((msg, count)) => {
            let mut v: Vec<Message> = Vec::new();
            v.push(msg);
            Some((v, u128_to_string(count)))
        },
        None => None,
    }
}

} // verus!
