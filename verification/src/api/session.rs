//! What signing up and signing in promise across calls.
use vstd::prelude::*;
use vstd::utf8::*;

use crate::api::token_owner;
use crate::api::user::login::stored_hash;
use crate::database::key_value::user::{rotated_token_user, stored_password};
use crate::utility::is_password_hash;

verus! {

/// A fresh token names the user it was given to.
pub proof fn law_new_token_names_user(
    token_user: Map<Seq<u8>, Seq<u8>>,
    user_token: Map<Seq<u8>, Seq<u8>>,
    user: Seq<char>,
    token: Seq<char>,
)
    ensures
        token_owner(
            rotated_token_user(token_user, user_token, encode_utf8(user), encode_utf8(token)),
            token,
        ) == Some(user),
{
    encode_utf8_valid_utf8(user);
    encode_utf8_decode_utf8(user);
}

/// Once a user gets a new token, the old one names no one, unless the
/// random new token happens to equal it.
pub proof fn law_old_token_revoked(
    token_user: Map<Seq<u8>, Seq<u8>>,
    user_token: Map<Seq<u8>, Seq<u8>>,
    user: Seq<char>,
    token: Seq<char>,
)
    requires
        user_token.contains_key(encode_utf8(user)),
        user_token[encode_utf8(user)] != encode_utf8(token),
    ensures
        !rotated_token_user(token_user, user_token, encode_utf8(user), encode_utf8(token)).contains_key(
            user_token[encode_utf8(user)],
        ),
{
}

/// A new token for one user leaves every other token naming whom it named:
/// any token but the new one and the user's old one.
pub proof fn law_other_tokens_kept(
    token_user: Map<Seq<u8>, Seq<u8>>,
    user_token: Map<Seq<u8>, Seq<u8>>,
    user: Seq<char>,
    token: Seq<char>,
    other: Seq<char>,
)
    requires
        encode_utf8(other) != encode_utf8(token),
        user_token.contains_key(encode_utf8(user)) ==> user_token[encode_utf8(user)]
            != encode_utf8(other),
    ensures
        token_owner(
            rotated_token_user(token_user, user_token, encode_utf8(user), encode_utf8(token)),
            other,
        ) == token_owner(token_user, other),
{
}

/// After a user registers with a password, the stored hash is one that the
/// same password logs in against.
pub proof fn law_login_after_register(
    user_password: Map<Seq<u8>, Seq<u8>>,
    user: Seq<char>,
    password: Seq<char>,
    h: Seq<char>,
)
    requires
        stored_password(Some(password), h),
    ensures
        stored_hash(user_password.insert(encode_utf8(user), encode_utf8(h)), user) == Some(h),
        is_password_hash(password, h),
{
    encode_utf8_valid_utf8(h);
    encode_utf8_decode_utf8(h);
}

} // verus!
