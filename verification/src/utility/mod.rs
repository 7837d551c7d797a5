pub mod bytes;
pub mod decimal;
pub mod error;

use vstd::prelude::*;
use vstd::utf8::*;
use rand::Rng;

verus! {

/// `std::string::FromUtf8Error`, carried through as the error of
/// [`string_from_bytes`].
#[verifier::external_type_specification]
#[verifier::external_body]
pub struct ExFromUtf8Error(std::string::FromUtf8Error);

/// `rand::rngs::ThreadRng`, the thread-local generator that random
/// strings are drawn from.
#[verifier::external_type_specification]
#[verifier::external_body]
pub struct ExThreadRng(rand::rngs::ThreadRng);

/// Trusted: `String::from_utf8` succeeds exactly on valid UTF-8, and the
/// string then holds the characters that the bytes encode.
#[verifier::external_body]
fn utf8_to_string(bytes: Vec<u8>) -> (r: Result<String, std::string::FromUtf8Error>)
    ensures
        r is Ok <==> valid_utf8(bytes@),
        r matches Ok(s) ==> s@ == decode_utf8(bytes@),
{
    String::from_utf8(bytes)
}

/// Parses the bytes into a string.
pub fn string_from_bytes(bytes: Vec<u8>) -> (r: Result<String, std::string::FromUtf8Error>)
    ensures
        r is Ok <==> valid_utf8(bytes@),
        r matches Ok(s) ==> s@ == decode_utf8(bytes@),
{
    utf8_to_string(bytes)
}

/// True for the ASCII letters and digits.
pub open spec fn is_alphanumeric(b: u8) -> bool {
    (48 <= b <= 57) || (65 <= b <= 90) || (97 <= b <= 122)
}

/// True for the characters that are ASCII letters and digits.
pub open spec fn is_alphanumeric_char(c: char) -> bool {
    ('0' <= c <= '9') || ('A' <= c <= 'Z') || ('a' <= c <= 'z')
}

/// Trusted: `rand::thread_rng` hands out the thread's generator; nothing
/// is claimed of its state.
#[verifier::external_body]
fn new_thread_rng() -> rand::rngs::ThreadRng {
    rand::thread_rng()
}

/// Trusted: `Rng::sample` with `rand::distributions::Alphanumeric` gives
/// one byte of `[A-Za-z0-9]`; which one is left to chance.
#[verifier::external_body]
fn sample_alphanumeric(rng: &mut rand::rngs::ThreadRng) -> (r: u8)
    ensures
        is_alphanumeric(r),
{
    rng.sample(rand::distributions::Alphanumeric)
}

/// A random string of `length` ASCII letters and digits.
pub fn random_string(length: usize) -> (r: String)
    ensures
        r@.len() == length,
        forall|i: int| 0 <= i < length ==> is_alphanumeric_char(#[trigger] r@[i]),
        is_ascii_chars(r@),
        encode_utf8(r@).len() == length,
{
    let mut rng = new_thread_rng();
    let mut b: Vec<u8> = Vec::new();
    let mut i: usize = 0;
    while i < length
        invariant
            i <= length,
            b@.len() == i,
            forall|j: int| 0 <= j < i ==> is_alphanumeric(#[trigger] b@[j]),
        decreases length - i,
    {
        let c = sample_alphanumeric(&mut rng);
        b.push(c);
        i = i + 1;
    }
    proof {
        lemma_ascii_bytes_text(b@);
    }
    let r = string_from_bytes(b);
    match r {
        Ok(s) => s,
        Err(_) => {
            proof {
                assert(false);
            }
            String::new()
        },
    }
}

/// ASCII bytes are valid UTF-8 and decode to the characters of the same
/// code, one per byte.
pub proof fn lemma_ascii_bytes_text(b: Seq<u8>)
    requires
        forall|j: int| 0 <= j < b.len() ==> #[trigger] b[j] < 128,
    ensures
        valid_utf8(b),
        decode_utf8(b) == b.map_values(|x: u8| x as char),
        is_ascii_chars(b.map_values(|x: u8| x as char)),
        encode_utf8(b.map_values(|x: u8| x as char)) == b,
{
    let chars = b.map_values(|x: u8| x as char);
    assert forall|i: int| 0 <= i < chars.len() implies '\0' <= #[trigger] chars[i] <= '\u{7f}' by {
        assert(b[i] < 128);
    }
    is_ascii_chars_encode_utf8(chars);
    assert forall|i: int| 0 <= i < b.len() implies encode_utf8(chars)[i] == b[i] by {
        assert(chars[i] as u8 == b[i]);
    }
    assert(encode_utf8(chars) =~= b);
    encode_utf8_valid_utf8(chars);
    encode_utf8_decode_utf8(chars);
}

/// The argon2 hash, in its encoded text form, that `argon2::hash_encoded`
/// gives for the password bytes `pwd` and the salt `salt` under the
/// default configuration.
pub uninterp spec fn argon2_encoded(pwd: Seq<u8>, salt: Seq<u8>) -> Seq<char>;

/// What `argon2::verify_encoded` answers for the encoded hash `encoded` and
/// the password bytes `pwd`: whether they match, or `None` for an error.
pub uninterp spec fn argon2_verdict(encoded: Seq<char>, pwd: Seq<u8>) -> Option<bool>;

/// Trusted: `argon2::hash_encoded` with the default configuration succeeds
/// exactly when the password has at most `u32::MAX` bytes and the salt
/// between 8 and `u32::MAX` bytes, and then gives the encoded hash.
#[verifier::external_body]
fn argon2_hash(pwd: &[u8], salt: &[u8]) -> (r: Option<String>)
    ensures
        r is Some <==> (pwd@.len() <= 0xFFFF_FFFF && 8 <= salt@.len() <= 0xFFFF_FFFF),
        r matches Some(h) ==> h@ == argon2_encoded(pwd@, salt@),
{
    argon2::hash_encoded(pwd, salt, &argon2::Config::default()).ok()
}

/// Trusted: `argon2::verify_encoded` answers as `argon2_verdict` names, and
/// accepts a password against a hash that `argon2::hash_encoded` made of
/// that same password (it reads the parameters and the salt back from the
/// encoded text and recomputes the hash).
#[verifier::external_body]
pub(crate) fn argon2_verify(encoded: &str, pwd: &[u8]) -> (r: Option<bool>)
    ensures
        r == argon2_verdict(encoded@, pwd@),
        forall|salt: Seq<u8>|
            8 <= salt.len() <= 0xFFFF_FFFF && pwd@.len() <= 0xFFFF_FFFF && #[trigger] argon2_encoded(
                pwd@,
                salt,
            ) == encoded@ ==> r == Some(true),
{
    argon2::verify_encoded(encoded, pwd).ok()
}

/// The length of the random salt of a password hash.
pub const SALT_LENGTH: usize = 16;

/// `h` is the argon2 hash of `password` under some salt of
/// `SALT_LENGTH` characters.
pub open spec fn is_password_hash(password: Seq<char>, h: Seq<char>) -> bool {
    exists|salt: Seq<u8>|
        salt.len() == SALT_LENGTH && #[trigger] argon2_encoded(encode_utf8(password), salt) == h
}

/// Hashes `password` with argon2 under a fresh random salt. Fails when the
/// password is too long for argon2.
pub fn password_encode(password: &str) -> (r: Option<String>)
    ensures
        r is Some <==> encode_utf8(password@).len() <= 0xFFFF_FFFF,
        r matches Some(h) ==> is_password_hash(password@, h@),
{
    let salt = random_string(SALT_LENGTH);
    let h = argon2_hash(password.as_bytes(), salt.as_str().as_bytes());
    proof {
        let sb = encode_utf8(salt@);
        is_ascii_chars_encode_utf8(salt@);
        if h is Some {
            assert(argon2_encoded(encode_utf8(password@), sb) == h->0@);
        }
    }
    h
}

} // verus!
