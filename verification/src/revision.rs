//! Revisions of files: a change is made only to the text that was approved.
use crate::text;
use sha2::{Digest, Sha256};
use vstd::prelude::*;
use vstd::utf8::encode_utf8;

verus! {

/// The SHA-256 digest of bytes, in hexadecimal.
pub uninterp spec fn sha256_hex(bytes: Seq<u8>) -> Seq<char>;

/// The digest of a text: of its UTF-8 bytes.
pub open spec fn text_digest(text: Seq<char>) -> Seq<char> {
    sha256_hex(encode_utf8(text))
}

/// A lower-case hexadecimal digit.
pub open spec fn is_hex_digit(c: char) -> bool {
    ('0' <= c && c <= '9') || ('a' <= c && c <= 'f')
}

/// `sha2::Sha256::digest`, written out in hexadecimal. The result depends on the
/// bytes alone, and has two lower-case digits for each of its own thirty-two.
#[verifier::external_body]
pub(crate) fn sha256_bytes(bytes: &[u8]) -> (r: String)
    ensures
        r@ == sha256_hex(bytes@),
        r@.len() == 64,
        forall|i: int| 0 <= i < r@.len() ==> is_hex_digit(#[trigger] r@[i]),
{
    format!("{:x}", Sha256::digest(bytes))
}

/// The digest of a text, by which a revision of a file is known.
pub fn sha256_text(value: &str) -> (r: String)
    ensures
        r@ == text_digest(value@),
        r@.len() == 64,
        forall|i: int| 0 <= i < r@.len() ==> is_hex_digit(#[trigger] r@[i]),
{
    sha256_bytes(value.as_bytes())
}

/// What an approval says of a text: it holds, it is missing, or it was given
/// for another text.
#[derive(Clone, Copy, PartialEq, Eq, Structural, Debug)]
pub enum Approval {
    Granted,
    Missing,
    Stale,
}

/// What an expected digest says of a text whose digest is `current`.
pub open spec fn approval(expected: Option<Seq<char>>, current: Seq<char>) -> Approval {
    match expected {
        None => Approval::Missing,
        Some(e) => if e == current {
            Approval::Granted
        } else {
            Approval::Stale
        },
    }
}

/// What an expected digest says of a text whose digest is `current`.
pub fn check_approval(expected: Option<&String>, current: &str) -> (r: Approval)
    ensures
        r == approval(
            match expected {
                Some(e) => Some(e@),
                None => None,
            },
            current@,
        ),
{
    match expected {
        None => Approval::Missing,
        Some(e) => if text::same(e.as_str(), current) {
            Approval::Granted
        } else {
            Approval::Stale
        },
    }
}

/// A change is approved exactly if it names the digest of the text as it is.
pub proof fn law_approval_names_the_current_text(expected: Option<Seq<char>>, current: Seq<char>)
    ensures
        approval(expected, current) == Approval::Granted <==> expected == Some(current),
        approval(expected, current) == Approval::Missing <==> expected is None,
{
}

} // verus!
