use crate::json::{hex_char, hex_digit};
use crate::outside::{sha256, sha256_of};
use vstd::prelude::*;
use vstd::utf8::encode_utf8;

verus! {

/// A byte as two lower-case hexadecimal digits.
pub open spec fn hex_pair(b: u8) -> Seq<char> {
    seq![hex_char(b as int / 16), hex_char(b as int % 16)]
}

/// Bytes as lower-case hexadecimal digits, two for each byte.
pub open spec fn hex_text(bytes: Seq<u8>) -> Seq<char>
    decreases bytes.len(),
{
    if bytes.len() == 0 {
        Seq::empty()
    } else {
        hex_text(bytes.drop_last()) + hex_pair(bytes.last())
    }
}

/// The fingerprint of a text: the SHA-256 digest of its UTF-8 bytes, in
/// hexadecimal.
pub open spec fn fingerprint(text: Seq<char>) -> Seq<char> {
    hex_text(sha256(encode_utf8(text)))
}

/// Hexadecimal text is twice as long as the bytes.
pub proof fn lemma_hex_text_len(bytes: Seq<u8>)
    ensures
        hex_text(bytes).len() == 2 * bytes.len(),
    decreases bytes.len(),
{
    if bytes.len() > 0 {
        lemma_hex_text_len(bytes.drop_last());
    }
}

/// Writes bytes as hexadecimal digits.
pub fn to_hex(bytes: &Vec<u8>) -> (text: String)
    ensures
        text@ == hex_text(bytes@),
        text@.len() == 2 * bytes@.len(),
{
    proof {
        lemma_hex_text_len(bytes@);
    }
    let mut text = String::new();
    let mut i: usize = 0;
    while i < bytes.len()
        invariant
            i <= bytes@.len(),
            text@ == hex_text(bytes@.take(i as int)),
        decreases bytes@.len() - i,
    {
        let b: u8 = bytes[i];
        let ghost before = text@;
        text.push(hex_digit(b / 16));
        text.push(hex_digit(b % 16));
        assert(bytes@.take(i + 1).drop_last() =~= bytes@.take(i as int));
        assert(text@ =~= before + hex_pair(b));
        i += 1;
    }
    assert(bytes@.take(i as int) =~= bytes@);
    text
}

/// The fingerprint of `text`: 64 hexadecimal digits.
pub fn content_hash(text: &str) -> (hash: String)
    ensures
        hash@ == fingerprint(text@),
        hash@.len() == 64,
{
    let digest = sha256_of(text.as_bytes());
    to_hex(&digest)
}

} // verus!
