//! What the message tables hold after a whole history of sends: each user
//! reads the messages that name them, in the order they were sent.
use vstd::prelude::*;
use vstd::utf8::*;

use crate::database::key_value::is_listing;
use crate::database::key_value::mailbox::{
    apart, counts_after_sends, indices_after_send, indices_after_sends, is_prefix, law_consistent_over_sends,
    law_counts_over_sends, law_read_lists_mailbox, law_send_counts, names_apart,
    times_named,
};
use crate::database::key_value::message::{
    count_in, counts_after_send, index_key, recv_index, send_index, sent_id,
};
use crate::service::message::{decode_message, lemma_message_roundtrip, message_bytes, Message};
use crate::utility::bytes::{lemma_lex_irreflexive, pow256};
use crate::utility::decimal::{
    index_width, lemma_fixed_digits_order, lemma_zero_padded_fixed, pow10, zero_padded,
};

verus! {

/// The stored messages after the messages of `ms` are sent, one after
/// another, starting from the counters `uc` and the stored messages `mm`.
pub open spec fn messages_after_sends(
    uc: Map<Seq<u8>, Seq<u8>>,
    mm: Map<Seq<u8>, Seq<u8>>,
    ms: Seq<Message>,
) -> Map<Seq<u8>, Seq<u8>>
    decreases ms.len(),
{
    if ms.len() == 0 {
        mm
    } else {
        messages_after_sends(uc, mm, ms.drop_last()).insert(
            sent_id(counts_after_sends(uc, ms.drop_last()), ms.last()),
            message_bytes(ms.last()@),
        )
    }
}

/// The messages of `ms` that name `u` as sender or receiver, in order.
pub open spec fn mail_of(ms: Seq<Message>, u: Seq<u8>) -> Seq<Message>
    decreases ms.len(),
{
    if ms.len() == 0 {
        Seq::empty()
    } else if encode_utf8(ms.last().send@) == u || encode_utf8(ms.last().recv@) == u {
        mail_of(ms.drop_last(), u).push(ms.last())
    } else {
        mail_of(ms.drop_last(), u)
    }
}

/// The user names that the messages of `ms` name.
pub open spec fn names_in(ms: Seq<Message>) -> Set<Seq<u8>>
    decreases ms.len(),
{
    if ms.len() == 0 {
        Set::empty()
    } else {
        names_in(ms.drop_last()).insert(encode_utf8(ms.last().send@)).insert(
            encode_utf8(ms.last().recv@),
        )
    }
}

/// A history whose every message goes from one user to another, whose
/// fields fit their length prefixes, whose names are apart (none begins
/// another), and whose users stay below a million messages each.
pub open spec fn plain_history(ms: Seq<Message>) -> bool {
    &&& forall|i: int|
        0 <= i < ms.len() ==> encode_utf8((#[trigger] ms[i]).send@) != encode_utf8(ms[i].recv@)
    &&& forall|i: int|
        0 <= i < ms.len() ==> {
            &&& encode_utf8((#[trigger] ms[i]).send@).len() < pow256(8)
            &&& encode_utf8(ms[i].recv@).len() < pow256(8)
            &&& encode_utf8(ms[i].content@).len() < pow256(8)
        }
    &&& forall|a: Seq<u8>, b: Seq<u8>|
        #[trigger] names_in(ms).contains(a) && #[trigger] names_in(ms).contains(b) ==> apart(a, b)
    &&& forall|b: Seq<u8>| #[trigger] times_named(ms, b) < pow10(index_width())
}

proof fn lemma_plain_prefix(ms: Seq<Message>)
    requires
        ms.len() > 0,
        plain_history(ms),
    ensures
        plain_history(ms.drop_last()),
{
    let p = ms.drop_last();
    assert forall|i: int| 0 <= i < p.len() implies encode_utf8((#[trigger] p[i]).send@)
        != encode_utf8(p[i].recv@) by {
        assert(p[i] == ms[i]);
    }
    assert forall|i: int| 0 <= i < p.len() implies {
        &&& encode_utf8((#[trigger] p[i]).send@).len() < pow256(8)
        &&& encode_utf8(p[i].recv@).len() < pow256(8)
        &&& encode_utf8(p[i].content@).len() < pow256(8)
    } by {
        assert(p[i] == ms[i]);
    }
    assert forall|a: Seq<u8>, b: Seq<u8>|
        #[trigger] names_in(p).contains(a) && #[trigger] names_in(p).contains(b) implies apart(
        a,
        b,
    ) by {
        assert(names_in(ms).contains(a) && names_in(ms).contains(b));
    }
    assert forall|b: Seq<u8>| #[trigger] times_named(p, b) < pow10(index_width()) by {
        assert(times_named(p, b) <= times_named(ms, b));
    }
}

/// Byte strings that start with names apart differ.
proof fn lemma_apart_concat(b1: Seq<u8>, b2: Seq<u8>, x: Seq<u8>, y: Seq<u8>)
    requires
        apart(b1, b2),
        b1 != b2,
    ensures
        b1 + x != b2 + y,
{
    if b1 + x == b2 + y {
        if b1.len() <= b2.len() {
            assert((b1 + x).take(b1.len() as int) =~= b1);
            assert((b2 + y).take(b1.len() as int) =~= b2.take(b1.len() as int));
            assert(is_prefix(b1, b2));
        } else {
            assert((b2 + y).take(b2.len() as int) =~= b2);
            assert((b1 + x).take(b2.len() as int) =~= b1.take(b2.len() as int));
            assert(is_prefix(b2, b1));
        }
    }
}

/// Byte strings that start with one name and go on with two different
/// indices differ.
proof fn lemma_index_concat(b: Seq<u8>, i: nat, j: nat, x: Seq<u8>, y: Seq<u8>)
    requires
        i < j < pow10(index_width()),
    ensures
        index_key(b, i) + x != index_key(b, j) + y,
{
    lemma_zero_padded_fixed(i, index_width());
    lemma_zero_padded_fixed(j, index_width());
    lemma_fixed_digits_order(i, j, index_width());
    let di = zero_padded(i, index_width());
    let dj = zero_padded(j, index_width());
    if index_key(b, i) + x == index_key(b, j) + y {
        let n = b.len() + index_width();
        assert((index_key(b, i) + x).take(n as int).skip(b.len() as int) =~= di);
        assert((index_key(b, j) + y).take(n as int).skip(b.len() as int) =~= dj);
        lemma_lex_irreflexive(di);
    }
}

/// The byte string that goes on from the index key of `b`'s `i`-th
/// message with `rest`.
spec fn led_by(b: Seq<u8>, i: nat, rest: Seq<u8>) -> Seq<u8> {
    index_key(b, i) + rest
}

/// Every user has as many messages in `ms` as `uc` counts.
spec fn mail_counted(ms: Seq<Message>, uc: Map<Seq<u8>, Seq<u8>>) -> bool {
    forall|b: Seq<u8>| #[trigger] mail_of(ms, b).len() == count_in(uc, b)
}

/// Every index of a user below the user's count points at a stored message
/// that decodes to the user's message of that number.
#[verifier::opaque]
spec fn indices_hold(
    ms: Seq<Message>,
    uc: Map<Seq<u8>, Seq<u8>>,
    um: Map<Seq<u8>, Seq<u8>>,
    mm: Map<Seq<u8>, Seq<u8>>,
) -> bool {
    forall|b: Seq<u8>, i: nat|
        i < count_in(uc, b) ==> {
            &&& um.contains_key(#[trigger] index_key(b, i))
            &&& mm.contains_key(um[index_key(b, i)])
            &&& decode_message(mm[um[index_key(b, i)]]) == Some(mail_of(ms, b)[i as int]@)
        }
}

/// Every stored message's id begins with the index key of a counted index
/// of a named user.
#[verifier::opaque]
spec fn ids_counted(ms: Seq<Message>, uc: Map<Seq<u8>, Seq<u8>>, mm: Map<Seq<u8>, Seq<u8>>) -> bool {
    forall|id: Seq<u8>| #[trigger]
        mm.contains_key(id) ==> exists|b: Seq<u8>, i: nat, rest: Seq<u8>|
            i < count_in(uc, b) && names_in(ms).contains(b) && id == #[trigger] led_by(b, i, rest)
}

/// What one send does to the counts, for a plain message.
spec fn step_counts(uc: Map<Seq<u8>, Seq<u8>>, uc2: Map<Seq<u8>, Seq<u8>>, m: Message) -> bool {
    forall|b: Seq<u8>| #[trigger] count_in(uc2, b) == count_in(uc, b) + (if encode_utf8(m.send@)
        == b {
        1nat
    } else {
        0nat
    }) + (if encode_utf8(m.recv@) == b {
        1nat
    } else {
        0nat
    })
}

/// The last message of a history is appended to the mail of the users it
/// names.
proof fn lemma_mail_step(ms: Seq<Message>, b: Seq<u8>)
    requires
        ms.len() > 0,
    ensures
        (encode_utf8(ms.last().send@) == b || encode_utf8(ms.last().recv@) == b) ==> mail_of(ms, b)
            == mail_of(ms.drop_last(), b).push(ms.last()),
        !(encode_utf8(ms.last().send@) == b || encode_utf8(ms.last().recv@) == b) ==> mail_of(
            ms,
            b,
        ) == mail_of(ms.drop_last(), b),
{
}

/// The new message's id is not the id of a stored message.
proof fn lemma_fresh_id(
    ms: Seq<Message>,
    uc: Map<Seq<u8>, Seq<u8>>,
    mm: Map<Seq<u8>, Seq<u8>>,
    id0: Seq<u8>,
)
    requires
        ms.len() > 0,
        ids_counted(ms.drop_last(), uc, mm),
        mm.contains_key(id0),
        forall|a: Seq<u8>, b: Seq<u8>|
            #[trigger] names_in(ms).contains(a) && #[trigger] names_in(ms).contains(b) ==> apart(a, b),
        count_in(uc, encode_utf8(ms.last().send@)) < pow10(index_width()),
        encode_utf8(ms.last().send@) != encode_utf8(ms.last().recv@),
    ensures
        id0 != sent_id(uc, ms.last()),
{
    reveal(ids_counted);
    let p = ms.drop_last();
    let m = ms.last();
    let sn = encode_utf8(m.send@);
    let r = encode_utf8(m.recv@);
    let sc = count_in(uc, sn);
    assert(send_index(uc, m) == sc);
    let rk = index_key(r, recv_index(uc, m));
    let id = sent_id(uc, m);
    assert(id =~= index_key(sn, sc) + (seq![95u8] + rk));
    let (b, i, rest) = choose|b: Seq<u8>, i: nat, rest: Seq<u8>|
        i < count_in(uc, b) && names_in(p).contains(b) && id0 == #[trigger] led_by(b, i, rest);
    assert(names_in(ms).contains(b));
    assert(names_in(ms).contains(sn));
    if b == sn {
        lemma_index_concat(sn, i, sc, rest, seq![95u8] + rk);
    } else {
        lemma_apart_concat(
            b,
            sn,
            zero_padded(i, index_width()) + rest,
            zero_padded(sc, index_width()) + (seq![95u8] + rk),
        );
        assert(index_key(b, i) + rest =~= b + (zero_padded(i, index_width()) + rest));
        assert(index_key(sn, sc) + (seq![95u8] + rk) =~= sn + (zero_padded(sc, index_width()) + (
        seq![95u8] + rk)));
    }
}

/// An index key below a user's count is neither of the new index keys.
proof fn lemma_old_key(
    ms: Seq<Message>,
    uc: Map<Seq<u8>, Seq<u8>>,
    b: Seq<u8>,
    i: nat,
)
    requires
        ms.len() > 0,
        i < count_in(uc, b),
        names_in(ms).contains(b),
        forall|a: Seq<u8>, c: Seq<u8>|
            #[trigger] names_in(ms).contains(a) && #[trigger] names_in(ms).contains(c) ==> apart(a, c),
        count_in(uc, encode_utf8(ms.last().send@)) < pow10(index_width()),
        count_in(uc, encode_utf8(ms.last().recv@)) < pow10(index_width()),
        encode_utf8(ms.last().send@) != encode_utf8(ms.last().recv@),
    ensures
        index_key(b, i) != index_key(encode_utf8(ms.last().send@), send_index(uc, ms.last())),
        index_key(b, i) != index_key(encode_utf8(ms.last().recv@), recv_index(uc, ms.last())),
{
    let m = ms.last();
    let sn = encode_utf8(m.send@);
    let r = encode_utf8(m.recv@);
    assert(names_in(ms).contains(sn) && names_in(ms).contains(r));
    assert(send_index(uc, m) == count_in(uc, sn));
    let k = index_key(b, i);
    assert(k + Seq::<u8>::empty() =~= k);
    let sk = index_key(sn, count_in(uc, sn));
    let rk = index_key(r, count_in(uc, r));
    assert(sk + Seq::<u8>::empty() =~= sk);
    assert(rk + Seq::<u8>::empty() =~= rk);
    if b == sn {
        lemma_index_concat(sn, i, count_in(uc, sn), Seq::<u8>::empty(), Seq::<u8>::empty());
    } else {
        lemma_apart_concat(b, sn, zero_padded(i, index_width()), zero_padded(count_in(uc, sn), index_width()));
    }
    if b == r {
        lemma_index_concat(r, i, count_in(uc, r), Seq::<u8>::empty(), Seq::<u8>::empty());
    } else {
        lemma_apart_concat(b, r, zero_padded(i, index_width()), zero_padded(count_in(uc, r), index_width()));
    }
}

proof fn lemma_indices_step(
    ms: Seq<Message>,
    uc: Map<Seq<u8>, Seq<u8>>,
    um: Map<Seq<u8>, Seq<u8>>,
    mm: Map<Seq<u8>, Seq<u8>>,
    uc2: Map<Seq<u8>, Seq<u8>>,
)
    requires
        ms.len() > 0,
        indices_hold(ms.drop_last(), uc, um, mm),
        ids_counted(ms.drop_last(), uc, mm),
        mail_counted(ms.drop_last(), uc),
        step_counts(uc, uc2, ms.last()),
        forall|b: Seq<u8>| #[trigger] uc.contains_key(b) ==> names_in(ms.drop_last()).contains(b),
        forall|a: Seq<u8>, b: Seq<u8>|
            #[trigger] names_in(ms).contains(a) && #[trigger] names_in(ms).contains(b) ==> apart(a, b),
        count_in(uc, encode_utf8(ms.last().send@)) < pow10(index_width()),
        count_in(uc, encode_utf8(ms.last().recv@)) < pow10(index_width()),
        encode_utf8(ms.last().send@) != encode_utf8(ms.last().recv@),
        encode_utf8(ms.last().send@).len() < pow256(8),
        encode_utf8(ms.last().recv@).len() < pow256(8),
        encode_utf8(ms.last().content@).len() < pow256(8),
    ensures
        indices_hold(
            ms,
            uc2,
            indices_after_send(uc, um, ms.last()),
            mm.insert(sent_id(uc, ms.last()), message_bytes(ms.last()@)),
        ),
{
    reveal(indices_hold);
    let p = ms.drop_last();
    let m = ms.last();
    let sn = encode_utf8(m.send@);
    let r = encode_utf8(m.recv@);
    let id = sent_id(uc, m);
    let um2 = indices_after_send(uc, um, m);
    let mm2 = mm.insert(id, message_bytes(m@));
    lemma_message_roundtrip(m@);
    assert(send_index(uc, m) == count_in(uc, sn));
    assert forall|b: Seq<u8>, i: nat| i < count_in(uc2, b) implies {
        &&& um2.contains_key(#[trigger] index_key(b, i))
        &&& mm2.contains_key(um2[index_key(b, i)])
        &&& decode_message(mm2[um2[index_key(b, i)]]) == Some(mail_of(ms, b)[i as int]@)
    } by {
        let k = index_key(b, i);
        lemma_mail_step(ms, b);
        assert(mail_of(p, b).len() == count_in(uc, b));
        if i < count_in(uc, b) {
            assert(uc.contains_key(b));
            assert(names_in(ms).contains(b));
            lemma_old_key(ms, uc, b, i);
            assert(um.contains_key(k) && mm.contains_key(um[k]));
            lemma_fresh_id(ms, uc, mm, um[k]);
            assert(um2[k] == um[k]);
            assert(mm2[um[k]] == mm[um[k]]);
            assert(mail_of(ms, b)[i as int] == mail_of(p, b)[i as int]);
        } else {
            assert(count_in(uc2, b) == count_in(uc2, b));
            assert(b == sn || b == r);
            assert(um2[k] == id);
            assert(mail_of(ms, b)[i as int] == m);
        }
    }
}

proof fn lemma_ids_step(
    ms: Seq<Message>,
    uc: Map<Seq<u8>, Seq<u8>>,
    mm: Map<Seq<u8>, Seq<u8>>,
    uc2: Map<Seq<u8>, Seq<u8>>,
)
    requires
        ms.len() > 0,
        ids_counted(ms.drop_last(), uc, mm),
        step_counts(uc, uc2, ms.last()),
        encode_utf8(ms.last().send@) != encode_utf8(ms.last().recv@),
    ensures
        ids_counted(ms, uc2, mm.insert(sent_id(uc, ms.last()), message_bytes(ms.last()@))),
{
    reveal(ids_counted);
    let p = ms.drop_last();
    let m = ms.last();
    let sn = encode_utf8(m.send@);
    let r = encode_utf8(m.recv@);
    let id = sent_id(uc, m);
    let mm2 = mm.insert(id, message_bytes(m@));
    assert(send_index(uc, m) == count_in(uc, sn));
    let sc = count_in(uc, sn);
    let rk = index_key(r, recv_index(uc, m));
    assert forall|id0: Seq<u8>| #[trigger] mm2.contains_key(id0) implies exists|
        b: Seq<u8>,
        i: nat,
        rest: Seq<u8>,
    | i < count_in(uc2, b) && names_in(ms).contains(b) && id0 == #[trigger] led_by(b, i, rest) by {
        if id0 == id {
            assert(count_in(uc2, sn) == sc + 1);
            assert(names_in(ms).contains(sn));
            assert(id0 == led_by(sn, sc, seq![95u8] + rk));
        } else {
            let (b, i, rest) = choose|b: Seq<u8>, i: nat, rest: Seq<u8>|
                i < count_in(uc, b) && names_in(p).contains(b) && id0 == #[trigger] led_by(b, i, rest);
            assert(count_in(uc, b) <= count_in(uc2, b));
            assert(names_in(ms).contains(b));
            assert(id0 == led_by(b, i, rest));
        }
    }
}

/// The tables after a plain history hold the history's mail.
proof fn lemma_history(ms: Seq<Message>)
    requires
        plain_history(ms),
    ensures
        mail_counted(ms, counts_after_sends(Map::empty(), ms)),
        indices_hold(
            ms,
            counts_after_sends(Map::empty(), ms),
            indices_after_sends(Map::empty(), Map::empty(), ms),
            messages_after_sends(Map::empty(), Map::empty(), ms),
        ),
        ids_counted(
            ms,
            counts_after_sends(Map::empty(), ms),
            messages_after_sends(Map::empty(), Map::empty(), ms),
        ),
        forall|b: Seq<u8>| #[trigger]
            counts_after_sends(Map::empty(), ms).contains_key(b) ==> names_in(ms).contains(b),
    decreases ms.len(),
{
    if ms.len() == 0 {
        reveal(indices_hold);
        reveal(ids_counted);
        return;
    }
    let p = ms.drop_last();
    let m = ms.last();
    lemma_plain_prefix(ms);
    lemma_history(p);
    assert(pow10(index_width()) == 1000000) by {
        reveal_with_fuel(pow10, 7);
    }
    assert forall|b: Seq<u8>| #[trigger] times_named(p, b) < u128::MAX by {
        assert(times_named(p, b) < pow10(index_width()));
    }
    let uc = counts_after_sends(Map::empty(), p);
    let um = indices_after_sends(Map::empty(), Map::empty(), p);
    let mm = messages_after_sends(Map::empty(), Map::empty(), p);
    let uc2 = counts_after_sends(Map::empty(), ms);
    let sn = encode_utf8(m.send@);
    let r = encode_utf8(m.recv@);
    assert(ms[ms.len() - 1] == m);
    law_counts_over_sends(p, sn);
    law_counts_over_sends(p, r);
    assert(times_named(p, sn) <= times_named(ms, sn));
    assert(times_named(p, r) <= times_named(ms, r));
    assert(times_named(ms, sn) < pow10(index_width()));
    assert(times_named(ms, r) < pow10(index_width()));
    assert(uc2 == counts_after_send(uc, m));
    assert(step_counts(uc, uc2, m)) by {
        assert forall|b: Seq<u8>| #[trigger] count_in(uc2, b) == count_in(uc, b) + (if sn == b {
            1nat
        } else {
            0nat
        }) + (if r == b {
            1nat
        } else {
            0nat
        }) by {
            law_send_counts(uc, m, b);
        }
    }
    assert(mail_counted(ms, uc2)) by {
        assert forall|b: Seq<u8>| #[trigger] mail_of(ms, b).len() == count_in(uc2, b) by {
            lemma_mail_step(ms, b);
            assert(mail_of(p, b).len() == count_in(uc, b));
        }
    }
    lemma_indices_step(ms, uc, um, mm, uc2);
    lemma_ids_step(ms, uc, mm, uc2);
    assert(indices_after_sends(Map::empty(), Map::empty(), ms) == indices_after_send(uc, um, m));
    assert(messages_after_sends(Map::empty(), Map::empty(), ms) == mm.insert(
        sent_id(uc, m),
        message_bytes(m@),
    ));
    assert forall|b: Seq<u8>| #[trigger] uc2.contains_key(b) implies names_in(ms).contains(b) by {
        if b != sn && b != r {
            assert(uc.contains_key(b));
        }
    }
}

/// Over a history of sends into empty tables, where every message goes
/// from one user to another and no user's name begins another's nor the
/// reader's, a read of a user's messages from index `since` lists the
/// messages that name the user, in the order they were sent, from the
/// `since`-th on.
///
/// This holds while each user's count stays below a million (the width of
/// the index).
pub proof fn law_read_over_sends(
    ms: Seq<Message>,
    u: Seq<u8>,
    since: nat,
    s: Seq<(Seq<u8>, Seq<u8>)>,
)
    requires
        plain_history(ms),
        since < pow10(index_width()),
        forall|b: Seq<u8>| #[trigger] names_in(ms).contains(b) ==> apart(b, u),
        is_listing(
            indices_after_sends(Map::empty(), Map::empty(), ms),
            u,
            zero_padded(since, index_width()),
            s,
        ),
    ensures
        s.len() == (if since <= mail_of(ms, u).len() {
            mail_of(ms, u).len() - since
        } else {
            0
        }),
        forall|j: int|
            0 <= j < s.len() ==> decode_message(
                messages_after_sends(Map::empty(), Map::empty(), ms)[#[trigger] s[j].1],
            ) == Some(mail_of(ms, u)[since + j]@),
{
    let uc = counts_after_sends(Map::empty(), ms);
    let um = indices_after_sends(Map::empty(), Map::empty(), ms);
    lemma_history(ms);
    assert(pow10(index_width()) == 1000000) by {
        reveal_with_fuel(pow10, 7);
    }
    assert forall|b: Seq<u8>| #[trigger] times_named(ms, b) < u128::MAX by {
        assert(times_named(ms, b) < pow10(index_width()));
    }
    law_counts_over_sends(ms, u);
    law_consistent_over_sends(ms);
    assert forall|b: Seq<u8>| #[trigger] uc.contains_key(b) implies apart(b, u) by {
        assert(names_in(ms).contains(b));
    }
    assert(names_apart(uc, u));
    assert(times_named(ms, u) < pow10(index_width()));
    law_read_lists_mailbox(uc, um, u, since, s);
    assert(mail_of(ms, u).len() == count_in(uc, u));
    assert forall|j: int| 0 <= j < s.len() implies decode_message(
        messages_after_sends(Map::empty(), Map::empty(), ms)[#[trigger] s[j].1],
    ) == Some(mail_of(ms, u)[since + j]@) by {
        reveal(indices_hold);
        let i = (since + j) as nat;
        assert(s[j].1 == um[index_key(u, i)]);
    }
}

} // verus!
