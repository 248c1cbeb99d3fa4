use crate::time::Timestamp;
use sha2::{Digest, Sha256};
use vstd::prelude::*;

verus! {

/// `String::push` of the standard library, which vstd leaves without a
/// contract: the character is appended to the end of the string.
pub assume_specification[ String::push ](s: &mut String, c: char)
    ensures
        final(s)@ == old(s)@.push(c),
;

/// The SHA-256 digest of `bytes`.
pub uninterp spec fn sha256(bytes: Seq<u8>) -> Seq<u8>;

/// Calls `sha2::Sha256::digest`, which hashes the bytes in one go, and
/// copies the digest out. Trusted: the result depends on the bytes alone,
/// and is the digest named by [`sha256`]; a SHA-256 digest has 32 bytes.
#[verifier::external_body]
pub(crate) fn sha256_of(bytes: &[u8]) -> (digest: Vec<u8>)
    ensures
        digest@ == sha256(bytes@),
        digest@.len() == 32,
{
    Sha256::digest(bytes).to_vec()
}

/// Calls `uuid::Uuid::new_v4` and renders the identifier with `to_string`,
/// which writes the hyphenated form: 32 hexadecimal digits and four hyphens.
/// Trusted, and only the length is promised: the identifier is random. The
/// call fails only where the operating system has no random numbers to give.
#[verifier::external_body]
pub(crate) fn fresh_id() -> (id: String)
    ensures
        id@.len() == 36,
{
    uuid::Uuid::new_v4().to_string()
}

/// Calls `chrono::Utc::now` and takes the seconds (`timestamp`) and the
/// nanoseconds (`timestamp_subsec_nanos`) of the result. Trusted, with
/// nothing promised: the result is the wall clock's. The call fails only
/// where the clock is set to a time before 1970.
#[verifier::external_body]
pub(crate) fn current_time() -> (now: Timestamp) {
    let now = chrono::Utc::now();
    Timestamp { secs: now.timestamp(), nanos: now.timestamp_subsec_nanos() }
}

/// The RFC 3339 text of the time that lies `secs` seconds and `nanos`
/// nanoseconds after the Unix epoch, where the calendar can name it.
pub uninterp spec fn rfc3339_text(secs: i64, nanos: u32) -> Option<Seq<char>>;

/// Makes the time with `chrono::DateTime::from_timestamp`, which gives none
/// where the calendar cannot name it, and writes it with
/// `chrono::DateTime::to_rfc3339`. Trusted: the result depends on the two
/// numbers alone, and is the text named by [`rfc3339_text`].
#[verifier::external_body]
pub(crate) fn rfc3339_of(secs: i64, nanos: u32) -> (text: Option<String>)
    ensures
        match text {
            Some(written) => rfc3339_text(secs, nanos) == Some(written@),
            None => rfc3339_text(secs, nanos) is None,
        },
{
    match chrono::DateTime::from_timestamp(secs, nanos) {
        Some(time) => Some(time.to_rfc3339()),
        None => None,
    }
}

/// The seconds and nanoseconds after the Unix epoch of the time that `text`
/// names in RFC 3339, where it names one.
pub uninterp spec fn rfc3339_time(text: Seq<char>) -> Option<(i64, u32)>;

/// Reads `text` with `chrono::DateTime::parse_from_rfc3339` and takes the
/// seconds (`timestamp`) and nanoseconds (`timestamp_subsec_nanos`) of the
/// time read. Trusted: the result depends on the text alone, and is the
/// pair named by [`rfc3339_time`].
#[verifier::external_body]
pub(crate) fn rfc3339_parsed(text: &str) -> (time: Option<(i64, u32)>)
    ensures
        time == rfc3339_time(text@),
{
    match chrono::DateTime::parse_from_rfc3339(text) {
        Ok(time) => Some((time.timestamp(), time.timestamp_subsec_nanos())),
        Err(_) => None,
    }
}

} // verus!
