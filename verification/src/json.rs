//! The pieces of JSON text that a log record is made of: quoted strings,
//! decimal numbers and fixed ASCII punctuation, all as bytes.

use vstd::prelude::*;
use vstd::string::StringSliceAdditionalSpecFns;

verus! {

/// The byte that ends a record in a segment file.
pub const NEWLINE: u8 = 0x0a;

/// The bytes of a text in which every character is ASCII.
pub open spec fn ascii(text: Seq<char>) -> Seq<u8> {
    Seq::new(text.len(), |i: int| text[i] as u8)
}

/// The lower-case hexadecimal digit for `n`, which is below sixteen.
pub open spec fn hex_digit(n: u8) -> u8 {
    if n < 10 {
        (0x30 + n) as u8
    } else {
        (0x61 + n - 10) as u8
    }
}

/// How one byte of a string stands inside a JSON string: the quote, the
/// backslash and the control characters are escaped, every other byte stands
/// for itself.
pub open spec fn escaped_byte(b: u8) -> Seq<u8> {
    if b == 0x22 {
        seq![0x5cu8, 0x22u8]
    } else if b == 0x5c {
        seq![0x5cu8, 0x5cu8]
    } else if b == 0x08 {
        seq![0x5cu8, 0x62u8]
    } else if b == 0x09 {
        seq![0x5cu8, 0x74u8]
    } else if b == 0x0a {
        seq![0x5cu8, 0x6eu8]
    } else if b == 0x0c {
        seq![0x5cu8, 0x66u8]
    } else if b == 0x0d {
        seq![0x5cu8, 0x72u8]
    } else if b < 0x20 {
        seq![0x5cu8, 0x75u8, 0x30u8, 0x30u8, hex_digit(b / 16), hex_digit(b % 16)]
    } else {
        seq![b]
    }
}

/// The bytes of a string with each one escaped for JSON.
pub open spec fn escaped(s: Seq<u8>) -> Seq<u8>
    decreases s.len(),
{
    if s.len() == 0 {
        Seq::empty()
    } else {
        escaped_byte(s[0]) + escaped(s.drop_first())
    }
}

/// A string as a JSON string: its escaped bytes between two quotes.
pub open spec fn quoted(s: Seq<u8>) -> Seq<u8> {
    seq![0x22u8] + escaped(s) + seq![0x22u8]
}

/// A number in decimal digits, without sign or leading zeros.
pub open spec fn decimal(n: nat) -> Seq<u8>
    decreases n,
{
    if n < 10 {
        seq![(0x30 + n) as u8]
    } else {
        decimal(n / 10).push((0x30 + n % 10) as u8)
    }
}

/// No byte of `s` is a newline.
pub open spec fn on_one_line(s: Seq<u8>) -> bool {
    forall|i: int| 0 <= i < s.len() ==> s[i] != NEWLINE
}

/// Escaping leaves no newline in a string.
pub proof fn lemma_escaped_on_one_line(s: Seq<u8>)
    ensures
        on_one_line(escaped(s)),
        on_one_line(quoted(s)),
    decreases s.len(),
{
    if s.len() > 0 {
        lemma_escaped_on_one_line(s.drop_first());
        let b = s[0];
        assert(b < 0x20 ==> hex_digit(b / 16) != NEWLINE && hex_digit(b % 16) != NEWLINE);
        assert(on_one_line(escaped_byte(b)));
    }
}

/// No decimal number holds a newline, and none is empty.
pub proof fn lemma_decimal_on_one_line(n: nat)
    ensures
        on_one_line(decimal(n)),
        decimal(n).len() > 0,
    decreases n,
{
    if n >= 10 {
        lemma_decimal_on_one_line(n / 10);
    }
}

/// Appends `bytes` to `buf`.
pub fn push_bytes(buf: &mut Vec<u8>, bytes: &[u8])
    ensures
        final(buf)@ == old(buf)@ + bytes@,
{
    let mut i: usize = 0;
    while i < bytes.len()
        invariant
            i <= bytes.len(),
            buf@ == old(buf)@ + bytes@.subrange(0, i as int),
        decreases bytes.len() - i,
    {
        buf.push(bytes[i]);
        i += 1;
    }
    assert(bytes@.subrange(0, i as int) == bytes@);
}

/// Appends an ASCII text to `buf`.
pub(crate) fn push_ascii(buf: &mut Vec<u8>, text: &str)
    requires
        text.is_ascii(),
    ensures
        final(buf)@ == old(buf)@ + ascii(text@),
{
    broadcast use vstd::string::is_ascii_spec_bytes;

    push_bytes(buf, text.as_bytes());
}

/// Appends `n` in decimal digits to `buf`.
pub fn push_decimal(buf: &mut Vec<u8>, n: u64)
    ensures
        final(buf)@ == old(buf)@ + decimal(n as nat),
    decreases n,
{
    if n >= 10 {
        push_decimal(buf, n / 10);
    }
    let digit: u8 = (n % 10) as u8;
    buf.push(0x30 + digit);
}

/// `serde_json::Error`, the error of the JSON writer and parser. Nothing is
/// known of what a value holds.
#[verifier::external_type_specification]
#[verifier::external_body]
pub struct ExJsonError(serde_json::Error);

/// `serde_json::to_vec` on a string slice. It gives the string as a JSON
/// string: a quote, each byte of the string with the quote, the backslash and
/// the bytes below `0x20` escaped as the crate's escape table says, and a
/// closing quote. It succeeds on every string: the crate documents that
/// `to_vec` fails only where the value's `Serialize` fails or a map has a key
/// that is no string, and a string slice is handed to `serialize_str`, which
/// fails only where the writer does; the writer is a `Vec<u8>`, which takes
/// every write.
#[verifier::external_body]
pub(crate) fn to_json_string(s: &str) -> (res: Result<Vec<u8>, serde_json::Error>)
    ensures
        res is Ok,
        res->Ok_0@ == quoted(s.spec_bytes()),
{
    serde_json::to_vec(s)
}

/// Appends `s` as a JSON string to `buf`: its bytes between two quotes, with
/// the quote, the backslash and the control characters escaped. Returns
/// `true`, since every string can be written so.
pub fn push_quoted(buf: &mut Vec<u8>, s: &str) -> (done: bool)
    ensures
        done,
        final(buf)@ == old(buf)@ + quoted(s.spec_bytes()),
{
    match to_json_string(s) {
        Ok(text) => {
            push_bytes(buf, text.as_slice());
            true
        },
        Err(_) => false,
    }
}

} // verus!
