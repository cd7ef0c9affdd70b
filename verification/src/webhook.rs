//! Deciding what to do with a webhook delivery: whether its signature holds,
//! whether it is a push to the default branch, and where to clone from.

use vstd::prelude::*;
use vstd::string::StrSliceExecFns;
use hmac::Mac;
use crate::text::{chars_of, str_eq};

verus! {

/// The value of a hex digit byte (either case), if it is one.
pub open spec fn hex_value(b: u8) -> Option<int> {
    if 48 <= b <= 57 {
        Some(b - 48)
    } else if 65 <= b <= 70 {
        Some(b - 55)
    } else if 97 <= b <= 102 {
        Some(b - 87)
    } else {
        None
    }
}

/// The bytes that a hex text stands for: two digits per byte, high nibble
/// first; none if the length is odd or a byte is not a hex digit.
pub open spec fn hex_decode_spec(d: Seq<u8>) -> Option<Seq<u8>>
    decreases d.len(),
{
    if d.len() == 0 {
        Some(seq![])
    } else if d.len() < 2 {
        None
    } else {
        match (hex_value(d[0]), hex_value(d[1]), hex_decode_spec(d.skip(2))) {
            (Some(h), Some(l), Some(rest)) => Some(seq![(h * 16 + l) as u8] + rest),
            _ => None,
        }
    }
}

/// Calls `hex::decode`. Trusted: it succeeds exactly when `data` has an even
/// length and every byte is a hex digit of either case, and then gives one
/// byte per pair of digits, high nibble first.
#[verifier::external_body]
fn hex_decode(data: &[u8]) -> (r: Option<Vec<u8>>)
    ensures
        match r {
            None => hex_decode_spec(data@) is None,
            Some(v) => hex_decode_spec(data@) == Some(v@),
        },
{
    hex::decode(data).ok()
}

/// Names the HMAC-SHA256 tag of `message` under `key`.
pub uninterp spec fn hmac_sha256(key: Seq<u8>, message: Seq<u8>) -> Seq<u8>;

/// Checks a tag with `hmac::Hmac<sha2::Sha256>`: `new_from_slice`, `update`,
/// then `verify_slice` (a constant-time comparison); the three calls make one
/// check and none is used alone. Trusted: true exactly
/// when `tag` is the HMAC-SHA256 tag of `message` under `key`, named
/// `hmac_sha256(key, message)`. HMAC accepts keys of any length, so the key
/// is never refused.
#[verifier::external_body]
fn hmac_sha256_verify(key: &[u8], message: &[u8], tag: &[u8]) -> (r: bool)
    ensures
        r == (tag@ == hmac_sha256(key@, message@)),
{
    match <hmac::Hmac<sha2::Sha256> as Mac>::new_from_slice(key) {
        Ok(mut mac) => {
            mac.update(message);
            mac.verify_slice(tag).is_ok()
        },
        Err(_) => false,
    }
}

/// The prefix of a signature header.
pub open spec fn signature_prefix() -> Seq<char> {
    seq!['s', 'h', 'a', '2', '5', '6', '=']
}

/// Whether a signature header holds, for this secret and body: it is
/// `sha256=` then the hex of the HMAC-SHA256 of the body keyed by the secret.
pub open spec fn spec_verify_signature(secret: Seq<char>, body: Seq<u8>, header: Seq<char>) -> bool {
    &&& header.len() >= 7
    &&& header.take(7) == signature_prefix()
    &&& match hex_decode_spec(vstd::utf8::encode_utf8(header.skip(7))) {
        None => false,
        Some(sig) => sig == hmac_sha256(vstd::utf8::encode_utf8(secret), body),
    }
}

pub fn verify_signature(secret: &str, body: &[u8], signature_header: &str) -> (r: bool)
    ensures
        r == spec_verify_signature(secret@, body@, signature_header@),
{
    let h = chars_of(signature_header);
    if h.len() < 7 {
        return false;
    }
    if !(h[0] == 's' && h[1] == 'h' && h[2] == 'a' && h[3] == '2' && h[4] == '5' && h[5] == '6'
        && h[6] == '=') {
        assert(h@.take(7)[0] != 's' || h@.take(7)[1] != 'h' || h@.take(7)[2] != 'a' || h@.take(
            7,
        )[3] != '2' || h@.take(7)[4] != '5' || h@.take(7)[5] != '6' || h@.take(7)[6] != '=');
        return false;
    }
    assert(h@.take(7) =~= signature_prefix());
    let hex_part = signature_header.substring_char(7, h.len());
    assert(hex_part@ =~= signature_header@.skip(7));
    let sig = match hex_decode(hex_part.as_bytes()) {
        None => return false,
        Some(sig) => sig,
    };
    hmac_sha256_verify(secret.as_bytes(), body, sig.as_slice())
}

/// What to do with a webhook delivery before its payload is read.
#[derive(Debug, Clone, Copy, PartialEq, Eq, Structural)]
pub enum RequestCheck {
    /// Signature missing or wrong: answer 401.
    Unauthorized,
    /// Event header missing: answer 400.
    BadRequest,
    /// Not a push: answer 200 and do nothing.
    Ignore,
    /// A signed push: read the payload.
    ReadPush,
}

/// Checks a delivery's signature header, then its event header.
pub fn check_request(secret: &str, body: &[u8], signature: Option<&str>, event: Option<&str>) -> (r:
    RequestCheck)
    ensures
        r == (match signature {
            None => RequestCheck::Unauthorized,
            Some(sig) => if !spec_verify_signature(secret@, body@, sig@) {
                RequestCheck::Unauthorized
            } else {
                match event {
                    None => RequestCheck::BadRequest,
                    Some(e) => if e@ == "push"@ {
                        RequestCheck::ReadPush
                    } else {
                        RequestCheck::Ignore
                    },
                }
            },
        }),
{
    let sig = match signature {
        None => return RequestCheck::Unauthorized,
        Some(sig) => sig,
    };
    if !verify_signature(secret, body, sig) {
        return RequestCheck::Unauthorized;
    }
    match event {
        None => RequestCheck::BadRequest,
        Some(e) => if str_eq(e, "push") {
            RequestCheck::ReadPush
        } else {
            RequestCheck::Ignore
        },
    }
}

/// Whether a push event calls for a sync: it updated (not deleted) the
/// repository's default branch.
pub fn is_default_branch_push(git_ref: &str, default_branch: &str, deleted: bool) -> (r: bool)
    ensures
        r == (git_ref@ == "refs/heads/"@ + default_branch@ && !deleted),
{
    let mut expected = String::new();
    expected.append("refs/heads/");
    expected.append(default_branch);
    let same = str_eq(git_ref, expected.as_str());
    same && !deleted
}

/// The URL to clone a repository from with an installation token.
pub fn clone_url(installation_token: &str, owner: &str, repo: &str) -> (r: String)
    ensures
        r@ == "https://x-access-token:"@ + installation_token@ + "@github.com/"@ + owner@ + "/"@
            + repo@ + ".git"@,
{
    let mut url = String::new();
    url.append("https://x-access-token:");
    url.append(installation_token);
    url.append("@github.com/");
    url.append(owner);
    url.append("/");
    url.append(repo);
    url.append(".git");
    url
}

} // verus!
