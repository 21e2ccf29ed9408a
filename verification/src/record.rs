//! The log record and its encoding: one JSON object on one line.

use serde::Deserialize;
use vstd::prelude::*;
use vstd::utf8::encode_utf8;
use crate::json::ascii;
use crate::json::decimal;
use crate::json::on_one_line;
use crate::json::push_ascii;
use crate::json::push_decimal;
use crate::json::push_quoted;
use crate::json::quoted;
use crate::json::lemma_decimal_on_one_line;
use crate::json::lemma_escaped_on_one_line;
use crate::text::same_text;
use crate::timestamp::Timestamp;

verus! {

/// The value that marks a record as the deletion of its key.
pub const TOMBSTONE_VALUE: &'static str = "__TOMBSTONE__";

/// One entry of the log.
#[derive(Clone, Debug)]
pub struct Pair {
    pub key: String,
    pub keysize: usize,
    pub value: String,
    pub value_size: usize,
    pub timestamp: Timestamp,
}

/// What a record holds, as mathematical values.
pub struct PairView {
    pub key: Seq<char>,
    pub keysize: usize,
    pub value: Seq<char>,
    pub value_size: usize,
    pub timestamp: Timestamp,
}

impl View for Pair {
    type V = PairView;

    open spec fn view(&self) -> PairView {
        PairView {
            key: self.key@,
            keysize: self.keysize,
            value: self.value@,
            value_size: self.value_size,
            timestamp: self.timestamp,
        }
    }
}

impl PairView {
    /// The record written for `key` and `value` at `timestamp`: the two size
    /// fields hold the lengths in bytes.
    pub open spec fn of(key: Seq<char>, value: Seq<char>, timestamp: Timestamp) -> PairView {
        PairView {
            key,
            keysize: encode_utf8(key).len() as usize,
            value,
            value_size: encode_utf8(value).len() as usize,
            timestamp,
        }
    }

    /// The record deletes its key.
    pub open spec fn is_tombstone(self) -> bool {
        self.value == TOMBSTONE_VALUE@
    }
}

/// The line that stands for a record in a segment: a JSON object with the
/// fields `key`, `keysize`, `value`, `value_size` and `timestamp` in this
/// order, the timestamp as seconds and nanoseconds since the epoch, and no
/// space anywhere outside the strings.
pub open spec fn record_bytes(pair: PairView) -> Seq<u8> {
    ascii("{\"key\":"@) + quoted(encode_utf8(pair.key)) + ascii(",\"keysize\":"@) + decimal(
        pair.keysize as nat,
    ) + ascii(",\"value\":"@) + quoted(encode_utf8(pair.value)) + ascii(",\"value_size\":"@)
        + decimal(pair.value_size as nat) + ascii(",\"timestamp\":{\"secs_since_epoch\":"@)
        + decimal(pair.timestamp.secs as nat) + ascii(",\"nanos_since_epoch\":"@) + decimal(
        pair.timestamp.nanos as nat,
    ) + ascii("}}"@)
}

/// The six fields that `serde_json` reads out of a line, or `None` where it
/// reports an error: the key, the key size, the value, the value size, and the
/// timestamp's seconds and nanoseconds as they are written.
pub uninterp spec fn json_fields(line: Seq<u8>) -> Option<(Seq<char>, u64, Seq<char>, u64, u64, u32)>;

/// The record that the fields of a line make: the sizes must fit the
/// machine, and whole seconds in the nanoseconds are carried over into the
/// seconds, which must not overflow.
pub open spec fn record_of(fields: (Seq<char>, u64, Seq<char>, u64, u64, u32)) -> Option<PairView> {
    match Timestamp::carried(fields.4, fields.5) {
        Some(timestamp) if fields.1 <= usize::MAX && fields.3 <= usize::MAX => Some(
            PairView {
                key: fields.0,
                keysize: fields.1 as usize,
                value: fields.2,
                value_size: fields.3 as usize,
                timestamp,
            },
        ),
        _ => None,
    }
}

/// The record that a line decodes to: the record of the fields that the JSON
/// parser reads out of it.
pub open spec fn decoded(line: Seq<u8>) -> Option<PairView> {
    match json_fields(line) {
        None => None,
        Some(fields) => record_of(fields),
    }
}

/// The line of the record decodes to the record again.
pub open spec fn reads_back(pair: PairView) -> bool {
    decoded(record_bytes(pair)) == Some(pair)
}

/// Why a line is no record.
#[derive(Clone, Copy, Debug, PartialEq, Eq, Structural)]
pub enum DecodeError {
    /// The line is not a JSON object with the fields of a record.
    Malformed,
    /// A size or the timestamp is too large for this machine.
    OutOfRange,
}

/// The JSON writer refused a string.
#[derive(Clone, Copy, Debug, PartialEq, Eq, Structural)]
pub struct EncodeError;

/// The fields of a record as the JSON parser hands them over.
pub struct RawFields {
    pub key: String,
    pub keysize: u64,
    pub value: String,
    pub value_size: u64,
    pub secs: u64,
    pub nanos: u32,
}

impl View for RawFields {
    type V = (Seq<char>, u64, Seq<char>, u64, u64, u32);

    open spec fn view(&self) -> Self::V {
        (self.key@, self.keysize, self.value@, self.value_size, self.secs, self.nanos)
    }
}

/// `serde_json::from_slice` parses the line into a `serde_json::Value`, and
/// serde's `Deserialize` reads the members `key`, `keysize`, `value` and
/// `value_size` of that value, and `secs_since_epoch` and `nanos_since_epoch`
/// of its member `timestamp`, as two strings, three `u64` and one `u32`. The
/// contract only gives the outcome a name: the same line always gives the
/// same fields or the same failure.
#[verifier::external_body]
pub(crate) fn parse_fields(line: &[u8]) -> (res: Result<RawFields, serde_json::Error>)
    ensures
        res is Ok <==> json_fields(line@) is Some,
        res is Ok ==> res->Ok_0@ == json_fields(line@)->0,
{
    let doc: serde_json::Value = serde_json::from_slice(line)?;
    Ok(RawFields {
        key: String::deserialize(&doc["key"])?,
        keysize: u64::deserialize(&doc["keysize"])?,
        value: String::deserialize(&doc["value"])?,
        value_size: u64::deserialize(&doc["value_size"])?,
        secs: u64::deserialize(&doc["timestamp"]["secs_since_epoch"])?,
        nanos: u32::deserialize(&doc["timestamp"]["nanos_since_epoch"])?,
    })
}

impl Pair {
    /// The record of a write of `value` under `key` at `timestamp`.
    pub fn new(key: &str, value: &str, timestamp: Timestamp) -> (pair: Pair)
        ensures
            pair@ == PairView::of(key@, value@, timestamp),
    {
        Pair {
            key: key.to_owned(),
            keysize: key.len(),
            value: value.to_owned(),
            value_size: value.len(),
            timestamp,
        }
    }

    /// The record that deletes `key` at `timestamp`.
    pub fn tombstone(key: &str, timestamp: Timestamp) -> (pair: Pair)
        ensures
            pair@ == PairView::of(key@, TOMBSTONE_VALUE@, timestamp),
            pair@.is_tombstone(),
    {
        Pair::new(key, TOMBSTONE_VALUE, timestamp)
    }

    /// Whether the record deletes its key.
    pub fn is_tombstone(&self) -> (res: bool)
        ensures
            res == self@.is_tombstone(),
    {
        same_text(self.value.as_str(), TOMBSTONE_VALUE)
    }

    /// The line for this record, without the newline that ends it in a
    /// segment: it is not empty and holds no newline itself. Every record
    /// has a line.
    pub fn encode(&self) -> (res: Result<Vec<u8>, EncodeError>)
        ensures
            res is Ok,
            res->Ok_0@ == record_bytes(self@),
            res->Ok_0@.len() > 0,
            on_one_line(res->Ok_0@),
    {
        proof {
            lemma_labels_ascii();
            lemma_record_is_one_line(self@);
        }
        let mut buf: Vec<u8> = Vec::new();
        push_ascii(&mut buf, "{\"key\":");
        if !push_quoted(&mut buf, self.key.as_str()) {
            return Err(EncodeError);
        }
        push_ascii(&mut buf, ",\"keysize\":");
        push_decimal(&mut buf, self.keysize as u64);
        push_ascii(&mut buf, ",\"value\":");
        if !push_quoted(&mut buf, self.value.as_str()) {
            return Err(EncodeError);
        }
        push_ascii(&mut buf, ",\"value_size\":");
        push_decimal(&mut buf, self.value_size as u64);
        push_ascii(&mut buf, ",\"timestamp\":{\"secs_since_epoch\":");
        push_decimal(&mut buf, self.timestamp.secs);
        push_ascii(&mut buf, ",\"nanos_since_epoch\":");
        push_decimal(&mut buf, self.timestamp.nanos as u64);
        push_ascii(&mut buf, "}}");
        assert(buf@ == record_bytes(self@));
        Ok(buf)
    }

    /// The record that the fields of a line make, or `OutOfRange` where a
    /// size does not fit the machine or the timestamp overflows.
    pub fn from_fields(fields: RawFields) -> (res: Result<Pair, DecodeError>)
        ensures
            match res {
                Ok(pair) => record_of(fields@) == Some(pair@),
                Err(error) => error == DecodeError::OutOfRange && record_of(fields@) is None,
            },
    {
        let timestamp = match Timestamp::new(fields.secs, fields.nanos) {
            Some(timestamp) => timestamp,
            None => {
                return Err(DecodeError::OutOfRange);
            },
        };
        if fields.keysize > usize::MAX as u64 || fields.value_size > usize::MAX as u64 {
            return Err(DecodeError::OutOfRange);
        }
        Ok(
            Pair {
                key: fields.key,
                keysize: fields.keysize as usize,
                value: fields.value,
                value_size: fields.value_size as usize,
                timestamp,
            },
        )
    }

    /// Reads a record from a line of a segment, given without its newline.
    pub fn decode(line: &[u8]) -> (res: Result<Pair, DecodeError>)
        ensures
            match res {
                Ok(pair) => decoded(line@) == Some(pair@),
                Err(DecodeError::Malformed) => json_fields(line@) is None,
                Err(DecodeError::OutOfRange) => json_fields(line@) is Some && decoded(line@)
                    is None,
            },
    {
        match parse_fields(line) {
            Ok(fields) => Pair::from_fields(fields),
            Err(_) => Err(DecodeError::Malformed),
        }
    }

    /// Whether two records hold the same.
    pub fn same_as(&self, other: &Pair) -> (res: bool)
        ensures
            res == (self@ == other@),
    {
        same_text(self.key.as_str(), other.key.as_str()) && self.keysize == other.keysize
            && same_text(self.value.as_str(), other.value.as_str()) && self.value_size
            == other.value_size && self.timestamp == other.timestamp
    }

    /// The line for this record, if the line decodes to the record again;
    /// `None` if it does not.
    pub fn encode_checked(&self) -> (res: Option<Vec<u8>>)
        ensures
            match res {
                Some(line) => {
                    &&& line@ == record_bytes(self@)
                    &&& reads_back(self@)
                    &&& line@.len() > 0
                    &&& on_one_line(line@)
                },
                None => !reads_back(self@),
            },
    {
        let line = match self.encode() {
            Ok(line) => line,
            Err(_) => {
                return None;
            },
        };
        match Pair::decode(line.as_slice()) {
            Ok(back) => if back.same_as(self) {
                Some(line)
            } else {
                None
            },
            Err(_) => None,
        }
    }
}

/// The fixed parts of a record's line are ASCII.
pub proof fn lemma_labels_ascii()
    ensures
        "{\"key\":".is_ascii(),
        ",\"keysize\":".is_ascii(),
        ",\"value\":".is_ascii(),
        ",\"value_size\":".is_ascii(),
        ",\"timestamp\":{\"secs_since_epoch\":".is_ascii(),
        ",\"nanos_since_epoch\":".is_ascii(),
        "}}".is_ascii(),
{
    reveal_strlit("{\"key\":");
    reveal_strlit(",\"keysize\":");
    reveal_strlit(",\"value\":");
    reveal_strlit(",\"value_size\":");
    reveal_strlit(",\"timestamp\":{\"secs_since_epoch\":");
    reveal_strlit(",\"nanos_since_epoch\":");
    reveal_strlit("}}");
}

/// A record's line is not empty and holds no newline, so it is exactly one
/// line of a segment.
pub proof fn lemma_record_is_one_line(pair: PairView)
    ensures
        record_bytes(pair).len() > 0,
        on_one_line(record_bytes(pair)),
{
    reveal_strlit("{\"key\":");
    reveal_strlit(",\"keysize\":");
    reveal_strlit(",\"value\":");
    reveal_strlit(",\"value_size\":");
    reveal_strlit(",\"timestamp\":{\"secs_since_epoch\":");
    reveal_strlit(",\"nanos_since_epoch\":");
    reveal_strlit("}}");
    lemma_escaped_on_one_line(encode_utf8(pair.key));
    lemma_escaped_on_one_line(encode_utf8(pair.value));
    lemma_decimal_on_one_line(pair.keysize as nat);
    lemma_decimal_on_one_line(pair.value_size as nat);
    lemma_decimal_on_one_line(pair.timestamp.secs as nat);
    lemma_decimal_on_one_line(pair.timestamp.nanos as nat);
}

} // verus!
