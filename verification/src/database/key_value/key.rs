//! Public keys of the users, stored as their base64 text.
use vstd::prelude::*;
use vstd::utf8::*;

use crate::database::key_value::OrderedTable;
use crate::database::Database;
use crate::utility::error::Result;

verus! {

/// The base64 text (standard alphabet, padded) of `bytes`.
pub uninterp spec fn base64_text(bytes: Seq<u8>) -> Seq<char>;

/// The bytes that the base64 text `text` stands for, if it is valid.
pub uninterp spec fn base64_data(text: Seq<u8>) -> Option<Seq<u8>>;

/// Trusted: `base64::encode` writes `bytes` as standard padded base64, and
/// decoding that text gives `bytes` back.
#[verifier::external_body]
fn base64_encode(bytes: &[u8]) -> (r: String)
    ensures
        r@ == base64_text(bytes@),
        base64_data(encode_utf8(r@)) == Some(bytes@),
{
    base64::encode(bytes)
}

/// Trusted: `base64::decode` gives the bytes of standard base64 text, or an
/// error, as `base64_data` names.
#[verifier::external_body]
pub(crate) fn base64_decode(text: &[u8]) -> (r: Option<Vec<u8>>)
    ensures
        match r {
            Some(v) => base64_data(text@) == Some(v@),
            None => base64_data(text@) is None,
        },
{
    match base64::decode(text) {
        Ok(v) => Some(v),
        Err(_) => None,
    }
}

impl<T: OrderedTable> Database<T> {
    /// The public key that `username` published.
    pub fn get_key(&self, username: &str) -> (r: Result<Option<Vec<u8>>>)
        requires
            self.key_readable(encode_utf8(username@)),
        ensures
            self.infallible() ==> r is Ok,
            match r {
                Ok(Some(k)) => self.user_key.contents().contains_key(encode_utf8(username@))
                    && base64_data(self.user_key.contents()[encode_utf8(username@)]) == Some(k@),
                Ok(None) => !self.user_key.contents().contains_key(encode_utf8(username@)),
                Err(e) => e is SqliteError,
            },
    {
        match self.user_key.get(username.as_bytes()) {
            Ok(Some(text)) => match base64_decode(text.as_slice()) {
                Some(k) => Ok(Some(k)),
                None => {
                    proof {
                        assert(false);
                    }
                    Ok(None)
                },
            },
            Ok(None) => Ok(None),
            Err(e) => Err(e),
        }
    }

    /// The public key of `username`, read only when the stored text is
    /// base64: `None` when it is not, else what [`Self::get_key`] answers.
    pub fn get_key_checked(&self, username: &str) -> (r: Result<Option<Option<Vec<u8>>>>)
        ensures
            self.infallible() ==> r is Ok,
            match r {
                Ok(None) => !self.key_readable(encode_utf8(username@)),
                Ok(Some(Some(k))) => self.user_key.contents().contains_key(encode_utf8(username@))
                    && base64_data(self.user_key.contents()[encode_utf8(username@)]) == Some(k@),
                Ok(Some(None)) => !self.user_key.contents().contains_key(encode_utf8(username@)),
                Err(e) => e is SqliteError,
            },
    {
        match self.user_key.get(username.as_bytes()) {
            Ok(Some(text)) => {
                if base64_decode(text.as_slice()).is_none() {
                    return Ok(None);
                }
            },
            Ok(None) => {},
            Err(e) => {
                return Err(e);
            },
        }
        match self.get_key(username) {
            Ok(k) => Ok(Some(k)),
            Err(e) => Err(e),
        }
    }

    /// Publishes `public_key` as the key of `username`.
    pub fn set_key(&mut self, username: &str, public_key: Vec<u8>) -> (r: Result<()>)
        ensures
            old(self).well_formed() ==> final(self).well_formed(),
            final(self).infallible() == old(self).infallible(),
            old(self).infallible() ==> r is Ok,
            r is Ok ==> final(self).user_key.contents() == old(self).user_key.contents().insert(
                encode_utf8(username@),
                encode_utf8(base64_text(public_key@)),
            ),
            r is Ok ==> base64_data(final(self).user_key.contents()[encode_utf8(username@)]) == Some(
                public_key@,
            ),
            r matches Err(e) ==> e is SqliteError && final(self).user_key.contents() == old(
                self,
            ).user_key.contents(),
            final(self).same_except_user_key(*old(self)),
    {
        let text = base64_encode(public_key.as_slice());
        self.user_key.insert(username.as_bytes(), text.as_str().as_bytes())
    }
}

} // verus!
