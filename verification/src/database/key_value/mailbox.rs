//! What the message tables promise across calls: a message that is sent is
//! what its receiver reads next.
use vstd::prelude::*;
use vstd::utf8::*;

use crate::database::key_value::message::{
    count_in, counts_after_send, counts_have_room, index_key, recv_index, recver_key, send_index, sender_key,
    sent_id,
};
use crate::database::key_value::{in_range, is_listing, lemma_listing_unique, OrderedTable};
use crate::database::Database;
use crate::service::message::{decode_message, message_bytes, Message};
use crate::utility::bytes::{
    be_bytes, be_value, lemma_be_roundtrip, lemma_lex_asymmetric, lemma_lex_irreflexive,
    lemma_lex_same_head, lemma_pow256_16, lex_le, lex_lt,
};
use crate::utility::bytes::pow256;
use crate::utility::decimal::{
    ascii_text, decimal_digits, index_width, lemma_digits_ascii,
    lemma_fixed_digits_order, lemma_parse_decimal, lemma_zero_padded_fixed, parsed_u128, pow10,
    zero_padded,
};
use crate::utility::lemma_ascii_bytes_text;

verus! {

/// Every message index is the index key of a counted user under an index
/// below that user's count.
pub open spec fn indices_counted(uc: Map<Seq<u8>, Seq<u8>>, um: Map<Seq<u8>, Seq<u8>>) -> bool {
    forall|k: Seq<u8>| #[trigger]
        um.contains_key(k) ==> exists|b: Seq<u8>, i: nat|
            uc.contains_key(b) && i < be_value(uc[b]) && k == #[trigger] index_key(b, i)
}

/// Every index below a counted user's count is filed.
pub open spec fn indices_complete(uc: Map<Seq<u8>, Seq<u8>>, um: Map<Seq<u8>, Seq<u8>>) -> bool {
    forall|b: Seq<u8>, i: nat|
        uc.contains_key(b) && i < be_value(uc[b]) ==> um.contains_key(#[trigger] index_key(b, i))
}

/// The index entries of `name` from `since` up to its count, in order.
pub open spec fn mailbox_from(
    uc: Map<Seq<u8>, Seq<u8>>,
    um: Map<Seq<u8>, Seq<u8>>,
    name: Seq<u8>,
    since: nat,
) -> Seq<(Seq<u8>, Seq<u8>)> {
    let count = count_in(uc, name);
    Seq::new(
        if since <= count {
            (count - since) as nat
        } else {
            0
        },
        |j: int| (index_key(name, (since + j) as nat), um[index_key(name, (since + j) as nat)]),
    )
}

/// No counted user's name begins `name` or begins with it, but `name`'s own.
pub open spec fn names_apart(uc: Map<Seq<u8>, Seq<u8>>, name: Seq<u8>) -> bool {
    forall|b: Seq<u8>| #[trigger] uc.contains_key(b) ==> apart(b, name)
}

impl<T: OrderedTable> Database<T> {
    /// The message indices are exactly the indices below the counts.
    pub open spec fn mailboxes_consistent(&self) -> bool {
        &&& indices_counted(self.user_count.contents(), self.user_messageid.contents())
        &&& indices_complete(self.user_count.contents(), self.user_messageid.contents())
    }
}

/// `a` is a prefix of `b`.
pub open spec fn is_prefix(a: Seq<u8>, b: Seq<u8>) -> bool {
    a.len() <= b.len() && b.take(a.len() as int) == a
}

/// Distinct names of which neither begins the other.
pub open spec fn apart(a: Seq<u8>, b: Seq<u8>) -> bool {
    a != b ==> !is_prefix(a, b) && !is_prefix(b, a)
}

/// The message tables after `m` is sent.
pub open spec fn indices_after_send(
    uc: Map<Seq<u8>, Seq<u8>>,
    um: Map<Seq<u8>, Seq<u8>>,
    m: Message,
) -> Map<Seq<u8>, Seq<u8>> {
    um.insert(sender_key(uc, m), sent_id(uc, m)).insert(recver_key(uc, m), sent_id(uc, m))
}

proof fn lemma_count_after_insert(uc: Map<Seq<u8>, Seq<u8>>, b: Seq<u8>, c: nat)
    requires
        c < pow256(16),
    ensures
        count_in(uc.insert(b, be_bytes(c, 16)), b) == c,
{
    lemma_be_roundtrip(c, 16);
}

/// Sending a message keeps every message index counted.
pub proof fn law_send_keeps_indices_counted(
    uc: Map<Seq<u8>, Seq<u8>>,
    um: Map<Seq<u8>, Seq<u8>>,
    m: Message,
)
    requires
        indices_counted(uc, um),
        counts_have_room(uc, m),
    ensures
        indices_counted(counts_after_send(uc, m), indices_after_send(uc, um, m)),
{
    lemma_pow256_16();
    let r = encode_utf8(m.recv@);
    let sn = encode_utf8(m.send@);
    let rc = recv_index(uc, m);
    let uc1 = uc.insert(r, be_bytes(rc + 1, 16));
    lemma_count_after_insert(uc, r, rc + 1);
    let sc = send_index(uc, m);
    assert(sc <= rc + 1 || sc == count_in(uc, sn));
    let uc2 = counts_after_send(uc, m);
    lemma_count_after_insert(uc1, sn, sc + 1);
    assert(uc2 == uc1.insert(sn, be_bytes(sc + 1, 16)));
    let um2 = indices_after_send(uc, um, m);
    // counts never go down
    assert forall|b: Seq<u8>| #[trigger] uc.contains_key(b) implies uc2.contains_key(b)
        && be_value(uc[b]) <= be_value(uc2[b]) by {
        if b == sn {
            assert(be_value(uc2[b]) == sc + 1);
            if b == r {
                assert(sc == rc + 1);
            }
        } else if b == r {
            assert(be_value(uc2[b]) == count_in(uc1, r));
        }
    }
    assert forall|k: Seq<u8>| #[trigger] um2.contains_key(k) implies exists|b: Seq<u8>, i: nat|
        uc2.contains_key(b) && i < be_value(uc2[b]) && k == #[trigger] index_key(b, i) by {
        if k == recver_key(uc, m) {
            assert(uc2.contains_key(r));
            if r == sn {
                assert(be_value(uc2[r]) == sc + 1);
            } else {
                assert(be_value(uc2[r]) == count_in(uc1, r));
            }
            assert(k == index_key(r, rc));
        } else if k == sender_key(uc, m) {
            assert(be_value(uc2[sn]) == sc + 1);
            assert(k == index_key(sn, sc));
        } else {
            assert(um.contains_key(k));
            let (b, i) = choose|b: Seq<u8>, i: nat|
                uc.contains_key(b) && i < be_value(uc[b]) && k == #[trigger] index_key(b, i);
            assert(index_key(b, i) == k);
        }
    }
}

proof fn lemma_prefix_of_concat(r: Seq<u8>, b: Seq<u8>, x: Seq<u8>)
    requires
        r.len() <= (b + x).len(),
        (b + x).take(r.len() as int) == r,
    ensures
        is_prefix(r, b) || is_prefix(b, r),
{
    let k = b + x;
    if b.len() >= r.len() {
        assert(b.take(r.len() as int) =~= k.take(r.len() as int));
    } else {
        assert(r.take(b.len() as int) =~= b);
    }
}

/// An empty database files every index and counts every filed one.
pub proof fn law_empty_tables_consistent()
    ensures
        indices_counted(Map::empty(), Map::empty()),
        indices_complete(Map::empty(), Map::empty()),
{
}

/// Sending a message keeps every index below a count filed.
pub proof fn law_send_keeps_indices_complete(
    uc: Map<Seq<u8>, Seq<u8>>,
    um: Map<Seq<u8>, Seq<u8>>,
    m: Message,
)
    requires
        indices_complete(uc, um),
        counts_have_room(uc, m),
    ensures
        indices_complete(counts_after_send(uc, m), indices_after_send(uc, um, m)),
{
    lemma_pow256_16();
    let r = encode_utf8(m.recv@);
    let sn = encode_utf8(m.send@);
    let rc = recv_index(uc, m);
    let uc1 = uc.insert(r, be_bytes(rc + 1, 16));
    lemma_count_after_insert(uc, r, rc + 1);
    let sc = send_index(uc, m);
    let uc2 = counts_after_send(uc, m);
    lemma_count_after_insert(uc1, sn, sc + 1);
    let um2 = indices_after_send(uc, um, m);
    assert forall|b: Seq<u8>, i: nat|
        uc2.contains_key(b) && i < be_value(uc2[b]) implies um2.contains_key(
        #[trigger] index_key(b, i),
    ) by {
        if b == sn {
            if i == sc {
                assert(index_key(b, i) == sender_key(uc, m));
            } else if b == r && i == rc {
                assert(index_key(b, i) == recver_key(uc, m));
            } else if b == r {
                assert(i < rc);
                assert(uc.contains_key(b) && i < be_value(uc[b]));
            } else {
                assert(sc == count_in(uc, sn));
                assert(uc.contains_key(b) && i < be_value(uc[b]));
            }
        } else if b == r {
            if i == rc {
                assert(index_key(b, i) == recver_key(uc, m));
            } else {
                assert(uc.contains_key(b) && i < be_value(uc[b]));
            }
        } else {
            assert(uc.contains_key(b) && uc2[b] == uc[b]);
        }
    }
}

/// A read from index `since` gives a user's filed messages from `since`
/// up to the user's count, in index order, and nothing else.
///
/// This holds when no other counted user's name begins the user's name or
/// begins with it, and while the user's count and `since` stay below a
/// million (the width of the index).
pub proof fn law_read_lists_mailbox(
    uc: Map<Seq<u8>, Seq<u8>>,
    um: Map<Seq<u8>, Seq<u8>>,
    name: Seq<u8>,
    since: nat,
    s: Seq<(Seq<u8>, Seq<u8>)>,
)
    requires
        indices_counted(uc, um),
        indices_complete(uc, um),
        names_apart(uc, name),
        count_in(uc, name) < pow10(index_width()),
        since < pow10(index_width()),
        is_listing(um, name, zero_padded(since, index_width()), s),
    ensures
        s == mailbox_from(uc, um, name, since),
{
    let count = count_in(uc, name);
    let p = zero_padded(since, index_width());
    let s0 = mailbox_from(uc, um, name, since);
    lemma_zero_padded_fixed(since, index_width());
    assert forall|j: int| 0 <= j < s0.len() implies {
        &&& um.contains_key(#[trigger] s0[j].0)
        &&& um[s0[j].0] == s0[j].1
        &&& in_range(s0[j].0, name, p)
    } by {
        let i = (since + j) as nat;
        assert(uc.contains_key(name) && i < be_value(uc[name]));
        assert(um.contains_key(index_key(name, i)));
        let x = zero_padded(i, index_width());
        assert(s0[j].0.take(name.len() as int) =~= name);
        assert(s0[j].0.skip(name.len() as int) =~= x);
        if j > 0 {
            lemma_zero_padded_fixed(i, index_width());
            lemma_fixed_digits_order(since, i, index_width());
        }
    }
    assert forall|a: int, b: int| 0 <= a < b < s0.len() implies lex_lt(
        #[trigger] s0[a].0,
        #[trigger] s0[b].0,
    ) by {
        let ia = (since + a) as nat;
        let ib = (since + b) as nat;
        lemma_zero_padded_fixed(ia, index_width());
        lemma_zero_padded_fixed(ib, index_width());
        lemma_fixed_digits_order(ia, ib, index_width());
        lemma_lex_same_head(name, zero_padded(ia, index_width()), zero_padded(ib, index_width()));
    }
    assert forall|k: Seq<u8>| um.contains_key(k) && in_range(k, name, p) implies exists|j: int|
        0 <= j < s0.len() && #[trigger] s0[j].0 == k by {
        let (b, i) = choose|b: Seq<u8>, i: nat|
            uc.contains_key(b) && i < be_value(uc[b]) && k == #[trigger] index_key(b, i);
        let x = zero_padded(i, index_width());
        assert(k == b + x);
        if b != name {
            lemma_prefix_of_concat(name, b, x);
        } else {
            assert(k.skip(name.len() as int) =~= x);
            lemma_zero_padded_fixed(i, index_width());
            if i < since {
                lemma_fixed_digits_order(i, since, index_width());
                lemma_lex_irreflexive(x);
                lemma_lex_asymmetric(x, p);
            }
            assert(since <= i < count);
            let j = i - since;
            assert(s0[j].0 == index_key(name, i));
        }
    }
    lemma_listing_unique(um, name, p, s, s0);
}

/// A message sent to a user is exactly what that user reads next: listing
/// the receiver's indices from the count that the receiver had before the
/// message gives the message's index alone.
///
/// This holds when sender and receiver differ, when no other counted user's
/// name begins the receiver's name or begins with it, and while the
/// receiver's count stays below a million (the width of the index).
pub proof fn law_receive_after_send(
    uc: Map<Seq<u8>, Seq<u8>>,
    um: Map<Seq<u8>, Seq<u8>>,
    m: Message,
    s: Seq<(Seq<u8>, Seq<u8>)>,
)
    requires
        indices_counted(uc, um),
        encode_utf8(m.send@) != encode_utf8(m.recv@),
        apart(encode_utf8(m.send@), encode_utf8(m.recv@)),
        forall|b: Seq<u8>| #[trigger] uc.contains_key(b) ==> apart(b, encode_utf8(m.recv@)),
        recv_index(uc, m) < pow10(index_width()),
        is_listing(
            indices_after_send(uc, um, m),
            encode_utf8(m.recv@),
            zero_padded(recv_index(uc, m), index_width()),
            s,
        ),
    ensures
        s == seq![(recver_key(uc, m), sent_id(uc, m))],
{
    let r = encode_utf8(m.recv@);
    let sn = encode_utf8(m.send@);
    let rc = recv_index(uc, m);
    let p = zero_padded(rc, index_width());
    let um2 = indices_after_send(uc, um, m);
    let rk = recver_key(uc, m);
    let id = sent_id(uc, m);
    let s0 = seq![(rk, id)];
    assert(rk.take(r.len() as int) =~= r);
    assert(rk.skip(r.len() as int) =~= p);
    assert(in_range(rk, r, p));
    assert forall|k: Seq<u8>| um2.contains_key(k) && in_range(k, r, p) implies exists|i: int|
        0 <= i < s0.len() && #[trigger] s0[i].0 == k by {
        if k != rk {
            if k == sender_key(uc, m) {
                lemma_prefix_of_concat(r, sn, zero_padded(send_index(uc, m), index_width()));
            } else {
                assert(um.contains_key(k));
                let (b, i) = choose|b: Seq<u8>, i: nat|
                    uc.contains_key(b) && i < be_value(uc[b]) && k == #[trigger] index_key(b, i);
                let x = zero_padded(i, index_width());
                assert(k == b + x);
                if b != r {
                    lemma_prefix_of_concat(r, b, x);
                } else {
                    assert(i < rc);
                    assert(k.skip(r.len() as int) =~= x);
                    lemma_zero_padded_fixed(i, index_width());
                    lemma_zero_padded_fixed(rc, index_width());
                    lemma_fixed_digits_order(i, rc, index_width());
                    lemma_lex_irreflexive(x);
                    lemma_lex_asymmetric(x, p);
                    assert(!lex_le(p, x));
                }
            }
        }
        assert(s0[0].0 == k);
    }
    assert(is_listing(um2, r, p, s0));
    lemma_listing_unique(um2, r, p, s, s0);
}

/// A message that a user sends is what that user reads next too: listing
/// the sender's indices from the count that the sender had before the
/// message gives the message's index alone.
///
/// This holds when sender and receiver differ, when no other counted user's
/// name begins the sender's name or begins with it, and while the sender's
/// count stays below a million (the width of the index).
pub proof fn law_sender_reads_own_message(
    uc: Map<Seq<u8>, Seq<u8>>,
    um: Map<Seq<u8>, Seq<u8>>,
    m: Message,
    s: Seq<(Seq<u8>, Seq<u8>)>,
)
    requires
        indices_counted(uc, um),
        encode_utf8(m.send@) != encode_utf8(m.recv@),
        apart(encode_utf8(m.send@), encode_utf8(m.recv@)),
        forall|b: Seq<u8>| #[trigger] uc.contains_key(b) ==> apart(b, encode_utf8(m.send@)),
        count_in(uc, encode_utf8(m.send@)) < pow10(index_width()),
        is_listing(
            indices_after_send(uc, um, m),
            encode_utf8(m.send@),
            zero_padded(count_in(uc, encode_utf8(m.send@)), index_width()),
            s,
        ),
    ensures
        s == seq![(sender_key(uc, m), sent_id(uc, m))],
{
    let r = encode_utf8(m.recv@);
    let sn = encode_utf8(m.send@);
    let sc = send_index(uc, m);
    assert(sc == count_in(uc, sn));
    let p = zero_padded(sc, index_width());
    let um2 = indices_after_send(uc, um, m);
    let sk = sender_key(uc, m);
    let id = sent_id(uc, m);
    let s0 = seq![(sk, id)];
    assert(sk.take(sn.len() as int) =~= sn);
    assert(sk.skip(sn.len() as int) =~= p);
    assert(in_range(sk, sn, p));
    assert forall|k: Seq<u8>| um2.contains_key(k) && in_range(k, sn, p) implies exists|i: int|
        0 <= i < s0.len() && #[trigger] s0[i].0 == k by {
        if k != sk {
            if k == recver_key(uc, m) {
                lemma_prefix_of_concat(sn, r, zero_padded(recv_index(uc, m), index_width()));
            } else {
                assert(um.contains_key(k));
                let (b, i) = choose|b: Seq<u8>, i: nat|
                    uc.contains_key(b) && i < be_value(uc[b]) && k == #[trigger] index_key(b, i);
                let x = zero_padded(i, index_width());
                assert(k == b + x);
                if b != sn {
                    lemma_prefix_of_concat(sn, b, x);
                } else {
                    assert(i < sc);
                    assert(k.skip(sn.len() as int) =~= x);
                    lemma_zero_padded_fixed(i, index_width());
                    lemma_zero_padded_fixed(sc, index_width());
                    lemma_fixed_digits_order(i, sc, index_width());
                    lemma_lex_irreflexive(x);
                    lemma_lex_asymmetric(x, p);
                    assert(!lex_le(p, x));
                }
            }
        }
        assert(s0[0].0 == k);
    }
    assert(is_listing(um2, sn, p, s0));
    lemma_listing_unique(um2, sn, p, s, s0);
}

/// The counters after the messages of `ms` are sent, one after another.
pub open spec fn counts_after_sends(uc: Map<Seq<u8>, Seq<u8>>, ms: Seq<Message>) -> Map<
    Seq<u8>,
    Seq<u8>,
>
    decreases ms.len(),
{
    if ms.len() == 0 {
        uc
    } else {
        counts_after_send(counts_after_sends(uc, ms.drop_last()), ms.last())
    }
}

/// How many of the messages of `ms` name `u` as their sender, plus how many
/// name `u` as their receiver.
pub open spec fn times_named(ms: Seq<Message>, u: Seq<u8>) -> nat
    decreases ms.len(),
{
    if ms.len() == 0 {
        0
    } else {
        times_named(ms.drop_last(), u) + (if encode_utf8(ms.last().send@) == u {
            1nat
        } else {
            0nat
        }) + (if encode_utf8(ms.last().recv@) == u {
            1nat
        } else {
            0nat
        })
    }
}

/// Sending `m` adds one to the count of its sender and one to the count of
/// its receiver (two to a user who writes to themself), and leaves every
/// other count as it was.
pub proof fn law_send_counts(uc: Map<Seq<u8>, Seq<u8>>, m: Message, u: Seq<u8>)
    requires
        counts_have_room(uc, m),
    ensures
        count_in(counts_after_send(uc, m), u) == count_in(uc, u) + (if encode_utf8(m.send@)
            == u {
            1nat
        } else {
            0nat
        }) + (if encode_utf8(m.recv@) == u {
            1nat
        } else {
            0nat
        }),
{
    lemma_pow256_16();
    let r = encode_utf8(m.recv@);
    let sn = encode_utf8(m.send@);
    let rc = recv_index(uc, m);
    let uc1 = uc.insert(r, be_bytes(rc + 1, 16));
    lemma_count_after_insert(uc, r, rc + 1);
    let sc = send_index(uc, m);
    assert(sc == count_in(uc1, sn));
    if sn == r {
        assert(sc == rc + 1);
    } else {
        assert(sc == count_in(uc, sn));
    }
    lemma_count_after_insert(uc1, sn, sc + 1);
}

/// Over a history of sends into empty tables, a user's count is the number
/// of messages that name the user as sender plus the number that name the
/// user as receiver; a user named in no message counts zero.
///
/// This holds while the counts fit in 128 bits.
pub proof fn law_counts_over_sends(ms: Seq<Message>, u: Seq<u8>)
    requires
        forall|b: Seq<u8>| #[trigger] times_named(ms, b) < u128::MAX,
    ensures
        count_in(counts_after_sends(Map::empty(), ms), u) == times_named(ms, u),
    decreases ms.len(),
{
    if ms.len() > 0 {
        let prev = ms.drop_last();
        let m = ms.last();
        assert forall|b: Seq<u8>| #[trigger] times_named(prev, b) < u128::MAX by {
            assert(times_named(prev, b) <= times_named(ms, b));
        }
        assert(times_named(ms, encode_utf8(m.recv@)) < u128::MAX);
        assert(times_named(ms, encode_utf8(m.send@)) < u128::MAX);
        law_counts_over_sends(prev, u);
        law_counts_over_sends(prev, encode_utf8(m.recv@));
        law_counts_over_sends(prev, encode_utf8(m.send@));
        law_send_counts(counts_after_sends(Map::empty(), prev), m, u);
    }
}

/// The message indices after the messages of `ms` are sent, one after
/// another, starting from the counters `uc` and the indices `um`.
pub open spec fn indices_after_sends(
    uc: Map<Seq<u8>, Seq<u8>>,
    um: Map<Seq<u8>, Seq<u8>>,
    ms: Seq<Message>,
) -> Map<Seq<u8>, Seq<u8>>
    decreases ms.len(),
{
    if ms.len() == 0 {
        um
    } else {
        indices_after_send(
            counts_after_sends(uc, ms.drop_last()),
            indices_after_sends(uc, um, ms.drop_last()),
            ms.last(),
        )
    }
}

/// Over any history of sends into empty tables, the message indices stay
/// exactly the indices below the counts.
///
/// This holds while the counts fit in 128 bits.
pub proof fn law_consistent_over_sends(ms: Seq<Message>)
    requires
        forall|b: Seq<u8>| #[trigger] times_named(ms, b) < u128::MAX,
    ensures
        indices_counted(
            counts_after_sends(Map::empty(), ms),
            indices_after_sends(Map::empty(), Map::empty(), ms),
        ),
        indices_complete(
            counts_after_sends(Map::empty(), ms),
            indices_after_sends(Map::empty(), Map::empty(), ms),
        ),
    decreases ms.len(),
{
    if ms.len() > 0 {
        let prev = ms.drop_last();
        let m = ms.last();
        assert forall|b: Seq<u8>| #[trigger] times_named(prev, b) < u128::MAX by {
            assert(times_named(prev, b) <= times_named(ms, b));
        }
        assert(times_named(ms, encode_utf8(m.recv@)) < u128::MAX);
        assert(times_named(ms, encode_utf8(m.send@)) < u128::MAX);
        law_consistent_over_sends(prev);
        law_counts_over_sends(prev, encode_utf8(m.recv@));
        law_counts_over_sends(prev, encode_utf8(m.send@));
        let uc = counts_after_sends(Map::empty(), prev);
        let um = indices_after_sends(Map::empty(), Map::empty(), prev);
        law_send_keeps_indices_counted(uc, um, m);
        law_send_keeps_indices_complete(uc, um, m);
    }
}

/// The message that a send stores under its id decodes to the message.
pub proof fn law_stored_message_reads_back(mm: Map<Seq<u8>, Seq<u8>>, id: Seq<u8>, m: Message)
    requires
        encode_utf8(m.send@).len() < pow256(8),
        encode_utf8(m.recv@).len() < pow256(8),
        encode_utf8(m.content@).len() < pow256(8),
    ensures
        decode_message(mm.insert(id, message_bytes(m@))[id]) == Some(m@),
{
    crate::service::message::lemma_message_roundtrip(m@);
}

/// The next index that a read returns, handed back as the index to read
/// from, is read as the same number.
pub proof fn law_next_since_reads_back(count: u128)
    ensures
        parsed_u128(encode_utf8(ascii_text(decimal_digits(count as nat)))) == Some(count),
{
    lemma_digits_ascii(count as nat);
    lemma_ascii_bytes_text(decimal_digits(count as nat));
    lemma_parse_decimal(count);
}

} // verus!
