//! Messages between users and their stored byte form.
//!
//! A message is stored as its three fields in order, each as its length in
//! eight little-endian bytes followed by its UTF-8 bytes; this is the layout
//! that `bincode` gives a struct of three strings.
use vstd::prelude::*;
use vstd::slice::{slice_subrange, slice_to_vec};
use vstd::utf8::*;

use crate::utility::bytes::{le_bytes, le_value, lemma_le_bytes_len, pow256, u64_from_le, u64_to_le, lemma_pow256_16, lemma_le_roundtrip};
use crate::utility::string_from_bytes;
use vstd::arithmetic::div_mod::lemma_div_denominator;
use vstd::arithmetic::power::{lemma_pow_positive, pow};

verus! {

#[derive(Clone, PartialEq, Eq, Debug)]
pub struct Message {
    pub send: String,
    pub recv: String,
    pub content: String,
}

/// The text of a message's fields.
pub struct MessageView {
    pub send: Seq<char>,
    pub recv: Seq<char>,
    pub content: Seq<char>,
}

impl View for Message {
    type V = MessageView;

    open spec fn view(&self) -> MessageView {
        MessageView { send: self.send@, recv: self.recv@, content: self.content@ }
    }
}

/// The stored form of one text field: its UTF-8 length, then its bytes.
pub open spec fn field_bytes(s: Seq<char>) -> Seq<u8> {
    le_bytes(encode_utf8(s).len(), 8) + encode_utf8(s)
}

/// The stored form of a message.
pub open spec fn message_bytes(m: MessageView) -> Seq<u8> {
    field_bytes(m.send) + field_bytes(m.recv) + field_bytes(m.content)
}

/// The text field stored at `at`, and where the next one starts.
pub open spec fn read_field(b: Seq<u8>, at: int) -> Option<(Seq<char>, int)> {
    if 0 <= at && at + 8 <= b.len() {
        let n = le_value(b.subrange(at, at + 8));
        if at + 8 + n <= b.len() && valid_utf8(b.subrange(at + 8, at + 8 + n)) {
            Some((decode_utf8(b.subrange(at + 8, at + 8 + n)), at + 8 + n))
        } else {
            None
        }
    } else {
        None
    }
}

/// The message stored in `b`, if `b` holds one. Bytes after the third
/// field are ignored.
pub open spec fn decode_message(b: Seq<u8>) -> Option<MessageView> {
    match read_field(b, 0) {
        Some((send, p1)) => match read_field(b, p1) {
            Some((recv, p2)) => match read_field(b, p2) {
                Some((content, _)) => Some(MessageView { send, recv, content }),
                None => None,
            },
            None => None,
        },
        None => None,
    }
}

proof fn lemma_read_field_bytes(s: Seq<char>, pre: Seq<u8>, post: Seq<u8>)
    requires
        encode_utf8(s).len() < pow256(8),
    ensures
        read_field(pre + field_bytes(s) + post, pre.len() as int) == Some(
            (s, (pre.len() + field_bytes(s).len()) as int),
        ),
        field_bytes(s).len() == 8 + encode_utf8(s).len(),
{
    let e = encode_utf8(s);
    let n = e.len();
    let b = pre + field_bytes(s) + post;
    let at = pre.len() as int;
    lemma_le_bytes_len(n, 8);
    lemma_le_roundtrip(n, 8);
    assert(b.subrange(at, at + 8) =~= le_bytes(n, 8));
    assert(b.subrange(at + 8, at + 8 + n) =~= e);
    encode_utf8_valid_utf8(s);
    encode_utf8_decode_utf8(s);
}

/// Decoding the stored form of a message gives the message back.
pub proof fn lemma_message_roundtrip(m: MessageView)
    requires
        encode_utf8(m.send).len() < pow256(8),
        encode_utf8(m.recv).len() < pow256(8),
        encode_utf8(m.content).len() < pow256(8),
    ensures
        decode_message(message_bytes(m)) == Some(m),
{
    let f1 = field_bytes(m.send);
    let f2 = field_bytes(m.recv);
    let f3 = field_bytes(m.content);
    let b = message_bytes(m);
    lemma_read_field_bytes(m.send, Seq::empty(), f2 + f3);
    assert(b =~= Seq::empty() + f1 + (f2 + f3));
    lemma_read_field_bytes(m.recv, f1, f3);
    assert(b =~= f1 + f2 + f3);
    lemma_read_field_bytes(m.content, f1 + f2, Seq::empty());
    assert(b =~= (f1 + f2) + f3 + Seq::empty());
}

/// The `j`-th byte, least significant first, of the number `n`.
pub open spec fn digit256(n: nat, j: nat) -> int {
    (n as int / pow(256, j)) % 256
}

/// `b` holds at `at` the text `s` as `bincode` writes a string: the number
/// of its UTF-8 bytes in eight bytes, least significant first, then those
/// bytes.
pub open spec fn holds_string_at(b: Seq<u8>, at: int, s: Seq<char>) -> bool {
    let e = encode_utf8(s);
    &&& 0 <= at
    &&& at + 8 + e.len() <= b.len()
    &&& forall|j: int| 0 <= j < 8 ==> #[trigger] b[at + j] as int == digit256(e.len(), j as nat)
    &&& b.subrange(at + 8, at + 8 + e.len()) == e
}

proof fn lemma_le_digit(n: nat, w: nat, j: int)
    requires
        0 <= j < w,
    ensures
        le_bytes(n, w)[j] as int == digit256(n, j as nat),
    decreases j,
{
    reveal(pow);
    let rest = le_bytes(n / 256, (w - 1) as nat);
    let head = seq![(n % 256) as u8];
    assert(le_bytes(n, w) == head + rest);
    if j == 0 {
        assert(pow(256, 0) == 1);
    } else {
        lemma_le_digit(n / 256, (w - 1) as nat, j - 1);
        lemma_le_bytes_len(n / 256, (w - 1) as nat);
        assert((head + rest)[j] == rest[j - 1]);
        lemma_pow_positive(256, (j - 1) as nat);
        lemma_div_denominator(n as int, 256, pow(256, (j - 1) as nat));
        assert(pow(256, j as nat) == 256 * pow(256, (j - 1) as nat));
    }
}

/// The stored form of a message is what `bincode` writes for three
/// strings: the sender, the receiver and the content, one after another,
/// each as its UTF-8 byte count in eight bytes (least significant first)
/// followed by its bytes.
pub proof fn law_stored_layout(m: MessageView)
    requires
        encode_utf8(m.send).len() < pow256(8),
        encode_utf8(m.recv).len() < pow256(8),
        encode_utf8(m.content).len() < pow256(8),
    ensures
        message_bytes(m).len() == 24 + encode_utf8(m.send).len() + encode_utf8(m.recv).len()
            + encode_utf8(m.content).len(),
        holds_string_at(message_bytes(m), 0, m.send),
        holds_string_at(message_bytes(m), (8 + encode_utf8(m.send).len()) as int, m.recv),
        holds_string_at(
            message_bytes(m),
            (16 + encode_utf8(m.send).len() + encode_utf8(m.recv).len()) as int,
            m.content,
        ),
{
    lemma_field_layout(m.send, Seq::empty(), field_bytes(m.recv) + field_bytes(m.content));
    assert(message_bytes(m) =~= Seq::empty() + field_bytes(m.send) + (field_bytes(m.recv)
        + field_bytes(m.content)));
    lemma_field_layout(m.recv, field_bytes(m.send), field_bytes(m.content));
    lemma_field_layout(m.content, field_bytes(m.send) + field_bytes(m.recv), Seq::empty());
    assert(message_bytes(m) =~= (field_bytes(m.send) + field_bytes(m.recv)) + field_bytes(
        m.content,
    ) + Seq::empty());
}

proof fn lemma_field_layout(s: Seq<char>, pre: Seq<u8>, post: Seq<u8>)
    ensures
        field_bytes(s).len() == 8 + encode_utf8(s).len(),
        holds_string_at(pre + field_bytes(s) + post, pre.len() as int, s),
{
    let e = encode_utf8(s);
    let b = pre + field_bytes(s) + post;
    let at = pre.len() as int;
    lemma_le_bytes_len(e.len(), 8);
    assert forall|j: int| 0 <= j < 8 implies #[trigger] b[at + j] as int == digit256(
        e.len(),
        j as nat,
    ) by {
        assert(b[at + j] == le_bytes(e.len(), 8)[j]);
        lemma_le_digit(e.len(), 8, j);
    }
    assert(b.subrange(at + 8, at + 8 + e.len()) =~= e);
}

/// Decoding what `bincode` writes for a message gives the message: bytes
/// that hold the sender, the receiver and the content, one after another,
/// each as its UTF-8 byte count in eight bytes (least significant first)
/// followed by its bytes, decode to that message.
pub proof fn law_decode_bincode(m: MessageView, b: Seq<u8>)
    requires
        encode_utf8(m.send).len() < pow256(8),
        encode_utf8(m.recv).len() < pow256(8),
        encode_utf8(m.content).len() < pow256(8),
        b.len() == 24 + encode_utf8(m.send).len() + encode_utf8(m.recv).len() + encode_utf8(
            m.content,
        ).len(),
        holds_string_at(b, 0, m.send),
        holds_string_at(b, (8 + encode_utf8(m.send).len()) as int, m.recv),
        holds_string_at(
            b,
            (16 + encode_utf8(m.send).len() + encode_utf8(m.recv).len()) as int,
            m.content,
        ),
    ensures
        decode_message(b) == Some(m),
{
    let ns = encode_utf8(m.send).len() as int;
    let nr = encode_utf8(m.recv).len() as int;
    let stored = message_bytes(m);
    law_stored_layout(m);
    assert forall|k: int| 0 <= k < b.len() implies b[k] == stored[k] by {
        if k < 8 {
            assert(b[0 + k] as int == stored[0 + k] as int);
        } else if k < 8 + ns {
            assert(b[k] == b.subrange(8, 8 + ns)[k - 8]);
            assert(stored[k] == stored.subrange(8, 8 + ns)[k - 8]);
        } else if k < 16 + ns {
            let j = k - (8 + ns);
            assert(b[(8 + ns) + j] as int == stored[(8 + ns) + j] as int);
        } else if k < 16 + ns + nr {
            assert(b[k] == b.subrange(16 + ns, 16 + ns + nr)[k - (16 + ns)]);
            assert(stored[k] == stored.subrange(16 + ns, 16 + ns + nr)[k - (16 + ns)]);
        } else if k < 24 + ns + nr {
            let j = k - (16 + ns + nr);
            assert(b[(16 + ns + nr) + j] as int == stored[(16 + ns + nr) + j] as int);
        } else {
            assert(b[k] == b.subrange(24 + ns + nr, b.len() as int)[k - (24 + ns + nr)]);
            assert(stored[k] == stored.subrange(24 + ns + nr, b.len() as int)[k - (24 + ns
                + nr)]);
        }
    }
    assert(b =~= stored);
    lemma_message_roundtrip(m);
}

/// Appends `src` to `dst`.
fn append_bytes(dst: &mut Vec<u8>, src: &[u8])
    ensures
        final(dst)@ == old(dst)@ + src@,
{
    let mut i: usize = 0;
    while i < src.len()
        invariant
            i <= src@.len(),
            dst@ == old(dst)@ + src@.take(i as int),
        decreases src.len() - i,
    {
        dst.push(src[i]);
        proof {
            assert(src@.take(i + 1) =~= src@.take(i as int).push(src@[i as int]));
        }
        i = i + 1;
    }
    proof {
        assert(src@.take(i as int) =~= src@);
    }
}

/// Appends the stored form of one text field.
fn append_field(dst: &mut Vec<u8>, s: &str)
    ensures
        final(dst)@ == old(dst)@ + field_bytes(s@),
        encode_utf8(s@).len() < pow256(8),
{
    proof {
        lemma_pow256_16();
    }
    let b = s.as_bytes();
    let len = u64_to_le(b.len() as u64);
    append_bytes(dst, len.as_slice());
    append_bytes(dst, b);
    assert(final(dst)@ =~= old(dst)@ + field_bytes(s@));
}

/// The text field stored at `at`, and where the next one starts.
fn read_field_at(b: &[u8], at: usize) -> (r: Option<(String, usize)>)
    requires
        at <= b@.len(),
    ensures
        match r {
            Some((s, next)) => read_field(b@, at as int) == Some((s@, next as int)),
            None => read_field(b@, at as int) is None,
        },
{
    if b.len() - at < 8 {
        return None;
    }
    let n: u64 = u64_from_le(b, at);
    let room: usize = b.len() - at - 8;
    if n > room as u64 {
        return None;
    }
    let end: usize = at + 8 + n as usize;
    let field = slice_to_vec(slice_subrange(b, at + 8, end));
    match string_from_bytes(field) {
        Ok(s) => Some((s, end)),
        Err(_) => None,
    }
}

impl Message {
    /// The stored form of this message.
    pub fn to_bytes(&self) -> (r: Vec<u8>)
        ensures
            r@ == message_bytes(self@),
            encode_utf8(self.send@).len() < pow256(8),
            encode_utf8(self.recv@).len() < pow256(8),
            encode_utf8(self.content@).len() < pow256(8),
    {
        let mut r: Vec<u8> = Vec::new();
        append_field(&mut r, self.send.as_str());
        append_field(&mut r, self.recv.as_str());
        append_field(&mut r, self.content.as_str());
        assert(r@ =~= message_bytes(self@));
        r
    }

    /// The message stored in `bytes`, if they hold one.
    pub fn decode(bytes: &[u8]) -> (r: Option<Message>)
        ensures
            match r {
                Some(m) => decode_message(bytes@) == Some(m@),
                None => decode_message(bytes@) is None,
            },
    {
        let (send, p1) = match read_field_at(bytes, 0) {
            Some(x) => x,
            None => return None,
        };
        let (recv, p2) = match read_field_at(bytes, p1) {
            Some(x) => x,
            None => return None,
        };
        let (content, _p3) = match read_field_at(bytes, p2) {
            Some(x) => x,
            None => return None,
        };
        Some(Message { send, recv, content })
    }

    /// The message stored in `bytes`.
    pub fn from_bytes(bytes: Vec<u8>) -> (r: Self)
        requires
            decode_message(bytes@) is Some,
        ensures
            decode_message(bytes@) == Some(r@),
    {
        match Message::decode(bytes.as_slice()) {
            Some(m) => m,
            None => {
                proof {
                    assert(false);
                }
                Message { send: String::new(), recv: String::new(), content: String::new() }
            },
        }
    }
}

} // verus!
