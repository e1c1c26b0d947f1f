//! What the library has from std and from other crates, and what it takes for granted of
//! them.

use crate::json::{JsonLayer, JsonTree};
use base64::Engine;
use chrono::TimeZone;
use rand::Rng;
use std::time::{Duration, SystemTime, SystemTimeError};
use vstd::prelude::*;
use vstd::utf8::{decode_utf8, valid_utf8};

verus! {

/// Why a text is not Base64.
#[verifier::external_type_specification]
#[verifier::external_body]
pub struct ExDecodeError(base64::DecodeError);

/// What `STANDARD.decode` of base64 makes of a text: bytes, or nothing.
pub uninterp spec fn base64_decoded(text: Seq<char>) -> Option<Seq<u8>>;

/// What `STANDARD.encode` of base64 makes of bytes.
pub uninterp spec fn base64_encoded(bytes: Seq<u8>) -> Seq<char>;

/// `base64::engine::general_purpose::STANDARD.decode`: what comes out depends on the text
/// alone.
#[verifier::external_body]
pub(crate) fn base64_decode(text: &str) -> (res: Result<Vec<u8>, base64::DecodeError>)
    ensures
        match res {
            Ok(bytes) => base64_decoded(text@) == Some(bytes@),
            Err(_) => base64_decoded(text@) is None,
        },
{
    base64::engine::general_purpose::STANDARD.decode(text)
}

/// `base64::engine::general_purpose::STANDARD.encode`: what comes out depends on the bytes
/// alone, and decodes to the same bytes. The length is bounded because the call panics
/// where a vector cannot hold its result, which is a third longer.
#[verifier::external_body]
pub(crate) fn base64_encode(bytes: &[u8]) -> (res: String)
    requires
        bytes@.len() <= usize::MAX / 4,
    ensures
        res@ == base64_encoded(bytes@),
        base64_decoded(res@) == Some(bytes@),
{
    base64::engine::general_purpose::STANDARD.encode(bytes)
}

/// `String::from_utf8` of std: the text of the bytes, where they are UTF-8.
#[verifier::external_body]
pub(crate) fn utf8_text(bytes: Vec<u8>) -> (res: Option<String>)
    ensures
        match res {
            Some(s) => valid_utf8(bytes@) && s@ == decode_utf8(bytes@),
            None => !valid_utf8(bytes@),
        },
{
    String::from_utf8(bytes).ok()
}

/// What `String::from_utf8_lossy` of std makes of bytes.
pub uninterp spec fn lossy_text(bytes: Seq<u8>) -> Seq<char>;

/// `String::from_utf8_lossy` of std: what comes out depends on the bytes alone, and is their
/// text where they are UTF-8. What stands for other bytes is left unsaid.
#[verifier::external_body]
pub(crate) fn utf8_text_lossy(bytes: &[u8]) -> (res: String)
    ensures
        res@ == lossy_text(bytes@),
        valid_utf8(bytes@) ==> res@ == decode_utf8(bytes@),
{
    String::from_utf8_lossy(bytes).into_owned()
}

/// Whether `c` is an ASCII letter or digit.
pub open spec fn is_alphanumeric(c: char) -> bool {
    'a' <= c <= 'z' || 'A' <= c <= 'Z' || '0' <= c <= '9'
}

/// What `{:?}` of std writes for a text.
pub uninterp spec fn debug_text(s: Seq<char>) -> Seq<char>;

/// The `Debug` format of a `str` in std: what is written depends on the text alone. Letters
/// and digits of ASCII stand for themselves between double quotes; how other characters are
/// escaped is left unsaid.
#[verifier::external_body]
pub(crate) fn quoted(s: &str) -> (res: String)
    ensures
        res@ == debug_text(s@),
        (forall|i: int| 0 <= i < s@.len() ==> is_alphanumeric(#[trigger] s@[i])) ==> res@
            == seq!['"'] + s@ + seq!['"'],
{
    format!("{:?}", s)
}

/// `Rng::sample` of rand with `Alphanumeric` on the generator of the thread: some ASCII
/// letter or digit.
#[verifier::external_body]
pub(crate) fn random_alphanumeric() -> (res: u8)
    ensures
        is_alphanumeric(res as char),
{
    rand::thread_rng().sample(rand::distributions::Alphanumeric)
}

/// A point in time.
#[verifier::external_type_specification]
#[verifier::external_body]
pub struct ExSystemTime(SystemTime);

/// That a point in time was earlier than the one it was held against.
#[verifier::external_type_specification]
#[verifier::external_body]
pub struct ExSystemTimeError(SystemTimeError);

/// `SystemTime::now` of std: whatever the clock shows.
pub assume_specification[ SystemTime::now ]() -> SystemTime
;

/// How many nanoseconds a point in time lies after the start of 1970; negative where it lies
/// before.
pub uninterp spec fn nanos_of(t: SystemTime) -> int;

/// How many nanoseconds a span lasts.
pub uninterp spec fn span_nanos(span: Duration) -> int;

/// `SystemTime::duration_since` of std: the span from the earlier point in time to the later
/// one, and a failure exactly where the second lies after the first.
pub assume_specification[ SystemTime::duration_since ](
    later: &SystemTime,
    earlier: SystemTime,
) -> (res: Result<Duration, SystemTimeError>)
    ensures
        match res {
            Ok(span) => {
                &&& nanos_of(*later) >= nanos_of(earlier)
                &&& span_nanos(span) == nanos_of(*later) - nanos_of(earlier)
            },
            Err(_) => nanos_of(*later) < nanos_of(earlier),
        },
;

/// `Duration::as_secs` of std: the whole seconds of the span.
pub assume_specification[ Duration::as_secs ](span: &Duration) -> (res: u64)
    ensures
        res == span_nanos(*span) / 1_000_000_000,
;

/// `SystemTime::UNIX_EPOCH` of std: the start of 1970.
#[verifier::external_body]
pub(crate) fn unix_epoch() -> (res: SystemTime)
    ensures
        nanos_of(res) == 0,
{
    SystemTime::UNIX_EPOCH
}

/// The seconds since 1970 for which chrono has a date.
pub open spec fn has_date(epoch_secs: int) -> bool {
    -8334601228800 <= epoch_secs <= 8210266876799
}

/// Whether a zone may be that far from UTC, in seconds.
pub open spec fn is_zone_offset(secs: int) -> bool {
    -86400 < secs < 86400
}

/// `Local.timestamp_opt(..).single()` of chrono, and the offset of the machine's time zone
/// at that time. It is there exactly for the times that have a date; which offset it is
/// depends on the machine.
#[verifier::external_body]
pub(crate) fn local_offset_secs(epoch_secs: i64) -> (res: Option<i32>)
    ensures
        res is Some <==> has_date(epoch_secs as int),
        res matches Some(secs) ==> is_zone_offset(secs as int),
{
    chrono::Local.timestamp_opt(epoch_secs, 0).single().map(|t| t.offset().local_minus_utc())
}

/// The two patterns that times are written with.
pub open spec fn is_time_pattern(pattern: Seq<char>) -> bool {
    pattern == "%Y-%m-%dT%H:%M:%S%.3f%:::z"@ || pattern == "%Y-%m-%dT%H:%M:%S%.3f%:z"@
}

/// What chrono writes for a time at an offset from UTC with a pattern.
pub uninterp spec fn time_text(epoch_secs: int, offset_secs: int, pattern: Seq<char>) -> Seq<char>;

/// `DateTime::format` of chrono, at a fixed offset from UTC: what is written depends on the
/// time, the offset and the pattern alone. Other patterns than the two, a time without a
/// date and an offset of a day or more are left out because the call panics on some of them.
#[verifier::external_body]
pub(crate) fn format_time(epoch_secs: i64, offset_secs: i32, pattern: &str) -> (res: String)
    requires
        has_date(epoch_secs as int),
        is_zone_offset(offset_secs as int),
        is_time_pattern(pattern@),
    ensures
        res@ == time_text(epoch_secs as int, offset_secs as int, pattern@),
{
    let zone = chrono::FixedOffset::east_opt(offset_secs).unwrap();
    zone.timestamp_opt(epoch_secs, 0).unwrap().format(pattern).to_string()
}

/// A value of serde_json.
#[verifier::external_type_specification]
#[verifier::external_body]
pub struct ExJsonValue(serde_json::Value);

/// Why bytes are not JSON.
#[verifier::external_type_specification]
#[verifier::external_body]
pub struct ExJsonError(serde_json::Error);

/// What a value of serde_json holds.
pub uninterp spec fn json_tree(value: serde_json::Value) -> JsonTree;

/// What `serde_json::from_slice` makes of bytes: a value, or nothing.
pub uninterp spec fn json_parsed(bytes: Seq<u8>) -> Option<JsonTree>;

/// `serde_json::from_slice` into a `Value`: what comes out depends on the bytes alone.
#[verifier::external_body]
pub(crate) fn parse_json(bytes: &[u8]) -> (res: Result<serde_json::Value, serde_json::Error>)
    ensures
        match res {
            Ok(value) => json_parsed(bytes@) == Some(json_tree(value)),
            Err(_) => json_parsed(bytes@) is None,
        },
{
    serde_json::from_slice(bytes)
}

/// The outermost layer of a `serde_json::Value`: which of its six variants it is, with the
/// values inside as they are. The entries of an object come out in some order, each key
/// once.
#[verifier::external_body]
pub(crate) fn unfold_json(value: serde_json::Value) -> (res: JsonLayer)
    ensures
        res.unfolds(json_tree(value)),
{
    match value {
        serde_json::Value::Null => JsonLayer::Null,
        serde_json::Value::Bool(b) => JsonLayer::Bool(b),
        serde_json::Value::Number(_) => JsonLayer::Number,
        serde_json::Value::String(s) => JsonLayer::Text(s),
        serde_json::Value::Array(items) => JsonLayer::Array(items),
        serde_json::Value::Object(map) => JsonLayer::Object(map.into_iter().collect()),
    }
}

} // verus!
