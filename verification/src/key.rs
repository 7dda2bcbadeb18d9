//! The key schema of the `metrics` table.
//!
//! A row is keyed by `agent_id`, a NUL byte, the timestamp written in
//! twenty characters, a NUL byte, and a nonce of forty-eight hexadecimal
//! digits: the clock reading in nanoseconds followed by a sequence number.
//! Keys are stated here as the UTF-8 bytes of the key string, the form in
//! which the store compares them.

use vstd::prelude::*;
use vstd::string::*;
use vstd::utf8::*;
use crate::text::{find_first, find_last, lacks};

verus! {

/// The byte that separates the parts of a key. No agent id holds it.
pub const SEPARATOR: u8 = 0;

/// The colon, which separated agent id and timestamp in keys of the first
/// layout.
pub const COLON: u8 = 58;

/// The ASCII digit for `d`, lower case above nine.
pub open spec fn digit_byte(d: int) -> u8 {
    if d < 10 {
        (48 + d) as u8
    } else {
        (87 + d) as u8
    }
}

/// `x` written in `width` digits of the given base, most significant first,
/// padded with zeros; digits beyond `width` are cut off.
pub open spec fn radix_digits(x: nat, width: nat, base: nat) -> Seq<u8>
    decreases width,
{
    if width == 0 {
        Seq::<u8>::empty()
    } else {
        radix_digits(x / base, (width - 1) as nat, base).push(digit_byte((x % base) as int))
    }
}

/// `x` has at most `width` digits in the given base.
pub open spec fn fits(x: nat, width: nat, base: nat) -> bool
    decreases width,
{
    if width == 0 {
        x == 0
    } else {
        fits(x / base, (width - 1) as nat, base)
    }
}

/// Every byte of `s` is a decimal digit.
pub open spec fn all_decimal(s: Seq<u8>) -> bool {
    forall|i: int| 0 <= i < s.len() ==> 48 <= #[trigger] s[i] <= 57
}

/// The number that a string of decimal digits denotes.
pub open spec fn decimal_value(s: Seq<u8>) -> nat
    decreases s.len(),
{
    if s.len() == 0 {
        0
    } else {
        (decimal_value(s.drop_last()) * 10 + (s.last() - 48)) as nat
    }
}

/// The twenty characters that stand for a timestamp: twenty digits, or a
/// minus sign and nineteen digits.
pub open spec fn timestamp_digits(ts: int) -> Seq<u8> {
    if ts >= 0 {
        radix_digits(ts as nat, 20, 10)
    } else {
        seq![45u8] + radix_digits((-ts) as nat, 19, 10)
    }
}

/// The nonce of a key: the clock reading and the sequence number in
/// hexadecimal.
pub open spec fn nonce_digits(nanos: nat, seq: nat) -> Seq<u8> {
    radix_digits(nanos, 32, 16) + radix_digits(seq, 16, 16)
}

/// The key of a row.
pub open spec fn key_bytes(agent: Seq<u8>, ts: int, nanos: nat, seq: nat) -> Seq<u8> {
    agent + seq![SEPARATOR] + timestamp_digits(ts) + seq![SEPARATOR] + nonce_digits(nanos, seq)
}

/// Lower bound of the scan over one agent's rows.
pub open spec fn range_start(agent: Seq<u8>) -> Seq<u8> {
    agent + seq![SEPARATOR]
}

/// What follows the lower bound in the upper bound: twenty nines and the
/// greatest character.
pub open spec fn range_tail() -> Seq<u8> {
    Seq::new(20, |i: int| 57u8) + encode_utf8(seq!['\u{10ffff}'])
}

/// Upper bound of the scan over one agent's rows.
pub open spec fn range_end(agent: Seq<u8>) -> Seq<u8> {
    range_start(agent) + range_tail()
}

/// The characters whose codes are the given bytes.
pub open spec fn ascii(bytes: Seq<u8>) -> Seq<char> {
    Seq::new(bytes.len(), |i: int| bytes[i] as char)
}

/// `byte` is a decimal or lower-case hexadecimal digit, or the minus sign.
pub open spec fn is_glyph(byte: u8) -> bool {
    48 <= byte <= 57 || 97 <= byte <= 102 || byte == 45
}

/// Every byte of `s` is a digit or the minus sign.
pub open spec fn all_glyphs(s: Seq<u8>) -> bool {
    forall|i: int| 0 <= i < s.len() ==> is_glyph(#[trigger] s[i])
}

/// Every byte of `s` is below 128.
pub open spec fn all_ascii(s: Seq<u8>) -> bool {
    forall|i: int| 0 <= i < s.len() ==> #[trigger] s[i] < 128
}

/// UTF-8 encodes a concatenation piece by piece.
pub proof fn lemma_encode_concat(a: Seq<char>, b: Seq<char>)
    ensures
        encode_utf8(a + b) == encode_utf8(a) + encode_utf8(b),
    decreases a.len(),
{
    if a.len() == 0 {
        assert(a + b =~= b);
        assert(encode_utf8(a) + encode_utf8(b) =~= encode_utf8(b));
    } else {
        assert((a + b).drop_first() =~= a.drop_first() + b);
        lemma_encode_concat(a.drop_first(), b);
        assert(encode_utf8(a + b) =~= encode_utf8(a) + encode_utf8(b));
    }
}

/// ASCII text is its own UTF-8 encoding.
pub proof fn lemma_encode_ascii(bytes: Seq<u8>)
    requires
        all_ascii(bytes),
    ensures
        encode_utf8(ascii(bytes)) == bytes,
{
    let chars = ascii(bytes);
    assert forall|i: int| 0 <= i < chars.len() implies '\0' <= #[trigger] chars[i] <= '\u{7f}' by {
        assert(bytes[i] < 128);
    }
    is_ascii_chars_encode_utf8(chars);
    assert forall|i: int| 0 <= i < bytes.len() implies encode_utf8(chars)[i] == bytes[i] by {
        assert(chars[i] as u8 == encode_utf8(chars)[i]);
        assert(bytes[i] < 128);
    }
    assert(encode_utf8(chars) =~= bytes);
}

/// Digits are ASCII.
pub proof fn lemma_radix_digits_shape(x: nat, width: nat, base: nat)
    requires
        base == 10 || base == 16,
    ensures
        radix_digits(x, width, base).len() == width,
        all_ascii(radix_digits(x, width, base)),
        all_glyphs(radix_digits(x, width, base)),
        lacks(radix_digits(x, width, base), SEPARATOR),
        base == 10 ==> all_decimal(radix_digits(x, width, base)),
    decreases width,
{
    if width > 0 {
        lemma_radix_digits_shape(x / base, (width - 1) as nat, base);
    }
}

/// The digits of `x` in base ten or sixteen, `width` of them.
pub fn digits_of(x: u128, width: usize, base: u128) -> (digits: Vec<u8>)
    requires
        base == 10 || base == 16,
    ensures
        digits@ == radix_digits(x as nat, width as nat, base as nat),
{
    let mut digits: Vec<u8> = Vec::new();
    let mut n: usize = 0;
    while n < width
        invariant
            n <= width,
            digits@.len() == n,
        decreases width - n,
    {
        digits.push(0);
        n += 1;
    }
    let mut rest: u128 = x;
    let mut i: usize = width;
    while i > 0
        invariant
            base == 10 || base == 16,
            i <= width,
            digits@.len() == width,
            radix_digits(x as nat, width as nat, base as nat) == radix_digits(
                rest as nat,
                i as nat,
                base as nat,
            ) + digits@.subrange(i as int, width as int),
        decreases i,
    {
        let ghost before = digits@;
        let ghost lead = radix_digits((rest / base) as nat, (i - 1) as nat, base as nat);
        let d: u8 = (rest % base) as u8;
        let byte: u8 = if d < 10 {
            48 + d
        } else {
            87 + d
        };
        i -= 1;
        digits.set(i, byte);
        proof {
            assert(byte == digit_byte((rest as nat % base as nat) as int));
            assert(radix_digits(rest as nat, (i + 1) as nat, base as nat) == lead.push(byte));
            assert(digits@.subrange(i as int, width as int) =~= seq![byte] + before.subrange(
                i as int + 1,
                width as int,
            ));
            assert(lead.push(byte) + before.subrange(i as int + 1, width as int) =~= lead
                + digits@.subrange(i as int, width as int));
        }
        rest = rest / base;
    }
    proof {
        assert(radix_digits(rest as nat, 0, base as nat) + digits@.subrange(0, width as int)
            =~= digits@);
    }
    digits
}

/// The one-character text of a digit or of the minus sign.
fn glyph(byte: u8) -> (text: &'static str)
    requires
        is_glyph(byte),
    ensures
        text@ == seq![byte as char],
{
    proof {
        reveal_strlit("0");
        reveal_strlit("1");
        reveal_strlit("2");
        reveal_strlit("3");
        reveal_strlit("4");
        reveal_strlit("5");
        reveal_strlit("6");
        reveal_strlit("7");
        reveal_strlit("8");
        reveal_strlit("9");
        reveal_strlit("a");
        reveal_strlit("b");
        reveal_strlit("c");
        reveal_strlit("d");
        reveal_strlit("e");
        reveal_strlit("f");
        reveal_strlit("-");
    }
    let text = match byte {
        48 => "0",
        49 => "1",
        50 => "2",
        51 => "3",
        52 => "4",
        53 => "5",
        54 => "6",
        55 => "7",
        56 => "8",
        57 => "9",
        97 => "a",
        98 => "b",
        99 => "c",
        100 => "d",
        101 => "e",
        102 => "f",
        _ => "-",
    };
    assert(text@ =~= seq![byte as char]);
    text
}

/// Appends digits, or any run of digits and minus signs, to a string.
fn append_glyphs(out: &mut String, bytes: &Vec<u8>)
    requires
        all_glyphs(bytes@),
    ensures
        final(out)@ == old(out)@ + ascii(bytes@),
{
    let mut i: usize = 0;
    while i < bytes.len()
        invariant
            i <= bytes.len(),
            all_glyphs(bytes@),
            out@ == old(out)@ + ascii(bytes@.subrange(0, i as int)),
        decreases bytes.len() - i,
    {
        let ghost before = out@;
        out.append(glyph(bytes[i]));
        proof {
            assert(ascii(bytes@.subrange(0, i as int + 1)) =~= ascii(bytes@.subrange(0, i as int))
                + seq![bytes@[i as int] as char]);
            assert(out@ =~= old(out)@ + ascii(bytes@.subrange(0, i as int + 1)));
        }
        i += 1;
    }
    proof {
        assert(bytes@.subrange(0, bytes@.len() as int) =~= bytes@);
    }
}

/// The twenty characters that stand for a timestamp.
pub fn timestamp_text(timestamp: i64) -> (text: Vec<u8>)
    ensures
        text@ == timestamp_digits(timestamp as int),
        text@.len() == 20,
        all_glyphs(text@),
{
    if timestamp >= 0 {
        proof {
            lemma_radix_digits_shape(timestamp as nat, 20, 10);
        }
        digits_of(timestamp as u128, 20, 10)
    } else {
        let magnitude: u128 = (-(timestamp as i128)) as u128;
        let mut text: Vec<u8> = Vec::new();
        text.push(45);
        let mut digits = digits_of(magnitude, 19, 10);
        proof {
            lemma_radix_digits_shape(magnitude as nat, 19, 10);
        }
        text.append(&mut digits);
        text
    }
}

/// Builds the key of a row from the agent id, the sample's timestamp, a
/// clock reading in nanoseconds and a sequence number.
pub fn make_key(agent_id: &str, timestamp: i64, now_nanos: u128, seq: u64) -> (key: String)
    ensures
        encode_utf8(key@) == key_bytes(
            encode_utf8(agent_id@),
            timestamp as int,
            now_nanos as nat,
            seq as nat,
        ),
{
    let stamp = timestamp_text(timestamp);
    let clock = digits_of(now_nanos, 32, 16);
    let count = digits_of(seq as u128, 16, 16);
    proof {
        reveal_strlit("\0");
        lemma_radix_digits_shape(now_nanos as nat, 32, 16);
        lemma_radix_digits_shape(seq as nat, 16, 16);
    }
    let mut key = String::from_str(agent_id);
    key.append("\0");
    append_glyphs(&mut key, &stamp);
    key.append("\0");
    append_glyphs(&mut key, &clock);
    append_glyphs(&mut key, &count);
    proof {
        let tail = seq![SEPARATOR] + stamp@ + seq![SEPARATOR] + (clock@ + count@);
        assert("\0"@ =~= ascii(seq![SEPARATOR]));
        assert(key@ =~= agent_id@ + ascii(tail));
        assert(all_ascii(tail));
        lemma_encode_concat(agent_id@, ascii(tail));
        lemma_encode_ascii(tail);
        assert(encode_utf8(agent_id@) + tail =~= key_bytes(
            encode_utf8(agent_id@),
            timestamp as int,
            now_nanos as nat,
            seq as nat,
        ));
    }
    key
}

/// Builds the bounds of the scan over one agent's rows: the first is
/// included, the second is not.
pub fn make_key_range(agent_id: &str) -> (bounds: (String, String))
    ensures
        encode_utf8(bounds.0@) == range_start(encode_utf8(agent_id@)),
        encode_utf8(bounds.1@) == range_end(encode_utf8(agent_id@)),
{
    proof {
        reveal_strlit("\0");
        reveal_strlit("99999999999999999999");
        reveal_strlit("\u{10ffff}");
    }
    let mut start = String::from_str(agent_id);
    start.append("\0");
    let mut end = String::from_str(agent_id);
    end.append("\0");
    end.append("99999999999999999999");
    end.append("\u{10ffff}");
    proof {
        let nines = Seq::new(20, |i: int| 57u8);
        assert("\0"@ =~= ascii(seq![SEPARATOR]));
        assert("99999999999999999999"@ =~= ascii(nines));
        assert("\u{10ffff}"@ =~= seq!['\u{10ffff}']);
        assert(start@ =~= agent_id@ + ascii(seq![SEPARATOR]));
        lemma_encode_concat(agent_id@, ascii(seq![SEPARATOR]));
        lemma_encode_ascii(seq![SEPARATOR]);
        let low = seq![SEPARATOR] + nines;
        assert(end@ =~= (agent_id@ + ascii(low)) + seq!['\u{10ffff}']);
        lemma_encode_concat(agent_id@ + ascii(low), seq!['\u{10ffff}']);
        lemma_encode_concat(agent_id@, ascii(low));
        lemma_encode_ascii(low);
        assert(encode_utf8(end@) =~= range_end(encode_utf8(agent_id@)));
    }
    (start, end)
}

/// What a string denotes as a signed 64-bit number: an optional sign, then
/// one or more decimal digits, the value within the range of the type.
pub open spec fn parse_i64_spec(s: Seq<u8>) -> Option<int> {
    let negative = s.len() > 0 && s[0] == 45;
    let signed = s.len() > 0 && (s[0] == 45 || s[0] == 43);
    let body = if signed {
        s.drop_first()
    } else {
        s
    };
    let value = if negative {
        -(decimal_value(body) as int)
    } else {
        decimal_value(body) as int
    };
    if body.len() > 0 && all_decimal(body) && i64::MIN <= value <= i64::MAX {
        Some(value)
    } else {
        None
    }
}

/// A longer run of digits denotes no smaller number than its beginning.
pub proof fn lemma_decimal_value_grows(s: Seq<u8>, k: int)
    requires
        all_decimal(s),
        0 <= k <= s.len(),
    ensures
        decimal_value(s.take(k)) <= decimal_value(s),
    decreases s.len() - k,
{
    if k == s.len() {
        assert(s.take(k) =~= s);
    } else {
        lemma_decimal_value_grows(s, k + 1);
        assert(s.take(k + 1).drop_last() =~= s.take(k));
        assert(48 <= s[k] <= 57);
    }
}

/// Reads a signed 64-bit number.
pub fn parse_i64(s: &[u8]) -> (parsed: Option<i64>)
    ensures
        match parsed {
            Some(value) => parse_i64_spec(s@) == Some(value as int),
            None => parse_i64_spec(s@) is None,
        },
{
    let n = s.len();
    if n == 0 {
        return None;
    }
    let negative = s[0] == 45;
    let start: usize = if s[0] == 45 || s[0] == 43 {
        1
    } else {
        0
    };
    if start == n {
        return None;
    }
    let ghost body = s@.subrange(start as int, n as int);
    proof {
        if start == 1 {
            assert(body =~= s@.drop_first());
        } else {
            assert(body =~= s@);
        }
    }
    let limit: u64 = if negative {
        9223372036854775808
    } else {
        9223372036854775807
    };
    let mut acc: u64 = 0;
    let mut i: usize = start;
    while i < n
        invariant
            start <= i <= n,
            n == s.len(),
            n > 0,
            negative == (s@[0] == 45),
            body == s@.subrange(start as int, n as int),
            body == if s@[0] == 45 || s@[0] == 43 {
                s@.drop_first()
            } else {
                s@
            },
            all_decimal(body.take(i - start)),
            acc == decimal_value(body.take(i - start)),
            acc <= limit,
            9223372036854775807 <= limit <= 9223372036854775808,
            limit == if negative {
                9223372036854775808u64
            } else {
                9223372036854775807u64
            },
        decreases n - i,
    {
        let byte = s[i];
        if byte < 48 || byte > 57 {
            assert(body[i - start] == byte);
            return None;
        }
        let digit: u64 = (byte - 48) as u64;
        proof {
            assert(body.take(i - start + 1).drop_last() =~= body.take(i - start));
            assert(body.take(i - start + 1).last() == byte);
            assert forall|j: int| 0 <= j < i - start + 1 implies 48 <= #[trigger] body.take(
                i - start + 1,
            )[j] <= 57 by {
                if j < i - start {
                    assert(body.take(i - start)[j] == body.take(i - start + 1)[j]);
                }
            }
        }
        if acc > (limit - digit) / 10 {
            proof {
                if all_decimal(body) {
                    lemma_decimal_value_grows(body, i - start + 1);
                }
            }
            return None;
        }
        acc = acc * 10 + digit;
        i += 1;
    }
    proof {
        assert(body.take(n - start) =~= body);
    }
    if negative {
        if acc == 9223372036854775808 {
            Some(i64::MIN)
        } else {
            Some(-(acc as i64))
        }
    } else {
        Some(acc as i64)
    }
}

/// `i` is the index of the first `byte` in `s`.
pub open spec fn is_first(s: Seq<u8>, byte: u8, i: int) -> bool {
    0 <= i < s.len() && s[i] == byte && lacks(s.subrange(0, i), byte)
}

/// `i` is the index of the last `byte` in `s`.
pub open spec fn is_last(s: Seq<u8>, byte: u8, i: int) -> bool {
    0 <= i < s.len() && s[i] == byte && lacks(s.subrange(i + 1, s.len() as int), byte)
}

/// Index of the first `byte` in a string that holds one.
pub open spec fn first_of(s: Seq<u8>, byte: u8) -> int {
    choose|i: int| is_first(s, byte, i)
}

/// Index of the last `byte` in a string that holds one.
pub open spec fn last_of(s: Seq<u8>, byte: u8) -> int {
    choose|i: int| is_last(s, byte, i)
}

/// The part of `s` before its first separator; all of `s` if it has none.
pub open spec fn until_separator(s: Seq<u8>) -> Seq<u8> {
    if lacks(s, SEPARATOR) {
        s
    } else {
        s.subrange(0, first_of(s, SEPARATOR))
    }
}

/// Agent id and timestamp that a key names.
///
/// A key with a separator names the agent before the first separator and
/// the timestamp between it and the next. A key without separator is of
/// the first layout and is split at its last colon.
pub open spec fn parse_key_spec(key: Seq<u8>) -> Option<(Seq<u8>, int)> {
    if !lacks(key, SEPARATOR) {
        let i = first_of(key, SEPARATOR);
        match parse_i64_spec(until_separator(key.subrange(i + 1, key.len() as int))) {
            Some(ts) => Some((key.subrange(0, i), ts)),
            None => None,
        }
    } else if !lacks(key, COLON) {
        let j = last_of(key, COLON);
        match parse_i64_spec(key.subrange(j + 1, key.len() as int)) {
            Some(ts) => Some((key.subrange(0, j), ts)),
            None => None,
        }
    } else {
        None
    }
}

/// A string has one first occurrence of a byte.
pub proof fn lemma_first_unique(s: Seq<u8>, byte: u8, i: int)
    requires
        is_first(s, byte, i),
    ensures
        first_of(s, byte) == i,
        !lacks(s, byte),
{
    let j = first_of(s, byte);
    assert(is_first(s, byte, j));
    if i < j {
        assert(s.subrange(0, j)[i] == s[i]);
    } else if j < i {
        assert(s.subrange(0, i)[j] == s[j]);
    }
}

/// A string has one last occurrence of a byte.
pub proof fn lemma_last_unique(s: Seq<u8>, byte: u8, i: int)
    requires
        is_last(s, byte, i),
    ensures
        last_of(s, byte) == i,
        !lacks(s, byte),
{
    let j = last_of(s, byte);
    assert(is_last(s, byte, j));
    if i < j {
        assert(s.subrange(i + 1, s.len() as int)[j - i - 1] == s[j]);
    } else if j < i {
        assert(s.subrange(j + 1, s.len() as int)[i - j - 1] == s[i]);
    }
}

/// Reads agent id and timestamp from a key.
pub fn parse_key<'a>(key: &'a str) -> (parsed: Option<(&'a str, i64)>)
    ensures
        match parsed {
            Some((agent, ts)) => parse_key_spec(encode_utf8(key@)) == Some(
                (encode_utf8(agent@), ts as int),
            ),
            None => parse_key_spec(encode_utf8(key@)) is None,
        },
{
    let bytes = key.as_bytes();
    proof {
        encode_utf8_valid_utf8(key@);
    }
    match find_first(bytes, SEPARATOR) {
        Some(i) => {
            proof {
                lemma_first_unique(bytes@, SEPARATOR, i as int);
            }
            let rest = vstd::slice::slice_subrange(bytes, i + 1, bytes.len());
            let stamp = match find_first(rest, SEPARATOR) {
                Some(j) => {
                    proof {
                        lemma_first_unique(rest@, SEPARATOR, j as int);
                    }
                    vstd::slice::slice_subrange(rest, 0, j)
                },
                None => rest,
            };
            match parse_i64(stamp) {
                Some(ts) => {
                    proof {
                        is_char_boundary_iff_not_is_continuation_byte(bytes@, i as int);
                    }
                    let (agent, _) = key.split_at(i);
                    Some((agent, ts))
                },
                None => None,
            }
        },
        None => {
            match find_last(bytes, COLON) {
                Some(j) => {
                    proof {
                        lemma_last_unique(bytes@, COLON, j as int);
                    }
                    let stamp = vstd::slice::slice_subrange(bytes, j + 1, bytes.len());
                    match parse_i64(stamp) {
                        Some(ts) => {
                            proof {
                                is_char_boundary_iff_not_is_continuation_byte(bytes@, j as int);
                            }
                            let (agent, _) = key.split_at(j);
                            Some((agent, ts))
                        },
                        None => None,
                    }
                },
                None => None,
            }
        },
    }
}

} // verus!
