//! Laws of the key schema: keys sort as their timestamps do, a scan over
//! one agent's range meets that agent's rows and no others, and a key can
//! be read back.

use vstd::prelude::*;
use vstd::arithmetic::div_mod::lemma_multiply_divide_lt;
use crate::text::{
    decides_at, lacks, lemma_between_has_prefix, lemma_lex_asymmetric, lemma_lex_extend,
    lemma_lex_irreflexive, lemma_lex_prefix_cancel, lemma_lex_total, lemma_prefix_sorts_first,
    lex_le, lex_lt,
};
use crate::key::{
    decimal_value, digit_byte, fits, is_first, key_bytes, lemma_first_unique,
    lemma_radix_digits_shape, nonce_digits, parse_i64_spec, parse_key_spec, radix_digits,
    range_end, range_start, range_tail, timestamp_digits, until_separator, SEPARATOR,
};

verus! {

/// `base` raised to `exp`.
pub open spec fn power(base: nat, exp: nat) -> nat
    decreases exp,
{
    if exp == 0 {
        1
    } else {
        base * power(base, (exp - 1) as nat)
    }
}

/// A number below `base` to the `width` has at most `width` digits.
pub proof fn lemma_fits_below_power(x: nat, width: nat, base: nat)
    requires
        base > 0,
        x < power(base, width),
    ensures
        fits(x, width, base),
    decreases width,
{
    if width > 0 {
        let p = power(base, (width - 1) as nat);
        assert(power(base, width) == p * base) by (nonlinear_arith)
            requires
                power(base, width) == base * p,
        ;
        lemma_multiply_divide_lt(x as int, base as int, p as int);
        lemma_fits_below_power(x / base, (width - 1) as nat, base);
    }
}

/// Every magnitude of a signed 64-bit number has at most nineteen decimal
/// digits.
pub proof fn lemma_timestamp_fits(x: nat)
    requires
        x <= 9223372036854775808,
    ensures
        fits(x, 19, 10),
        fits(x, 20, 10),
{
    reveal_with_fuel(power, 21);
    assert(power(10, 19) == 10000000000000000000);
    assert(power(10, 20) == 100000000000000000000);
    lemma_fits_below_power(x, 19, 10);
    lemma_fits_below_power(x, 20, 10);
}

/// A clock reading has at most thirty-two hexadecimal digits, a sequence
/// number at most sixteen.
pub proof fn lemma_nonce_fits(nanos: nat, seq: nat)
    requires
        nanos <= u128::MAX,
        seq <= u64::MAX,
    ensures
        fits(nanos, 32, 16),
        fits(seq, 16, 16),
{
    reveal_with_fuel(power, 17);
    assert(power(16, 16) == 0x1_0000_0000_0000_0000);
    let p = power(16, 16);
    assert(power(16, 32) == p * p) by {
        lemma_power_adds(16, 16, 16);
    }
    assert(p * p == 0x1_0000_0000_0000_0000_0000_0000_0000_0000) by (nonlinear_arith)
        requires
            p == 0x1_0000_0000_0000_0000,
    ;
    lemma_fits_below_power(nanos, 32, 16);
    lemma_fits_below_power(seq, 16, 16);
}

/// Exponents add.
pub proof fn lemma_power_adds(base: nat, a: nat, b: nat)
    ensures
        power(base, a + b) == power(base, a) * power(base, b),
    decreases a,
{
    if a == 0 {
        assert(power(base, a) * power(base, b) == power(base, b)) by (nonlinear_arith)
            requires
                power(base, a) == 1,
        ;
    } else {
        lemma_power_adds(base, (a - 1) as nat, b);
        let pa = power(base, (a - 1) as nat);
        let pb = power(base, b);
        assert(power(base, a + b) == base * power(base, (a - 1 + b) as nat));
        assert(base * (pa * pb) == (base * pa) * pb) by (nonlinear_arith);
    }
}

/// The digits of a number denote it.
pub proof fn lemma_decimal_round_trip(x: nat, width: nat)
    requires
        fits(x, width, 10),
    ensures
        decimal_value(radix_digits(x, width, 10)) == x,
    decreases width,
{
    if width > 0 {
        let digits = radix_digits(x, width, 10);
        assert(digits.drop_last() =~= radix_digits(x / 10, (width - 1) as nat, 10));
        lemma_decimal_round_trip(x / 10, (width - 1) as nat);
    }
}

/// The smaller of two numbers of one width has the digits that sort first.
proof fn lemma_digits_lt(x: nat, y: nat, width: nat, base: nat)
    requires
        base == 10 || base == 16,
        fits(x, width, base),
        fits(y, width, base),
        x < y,
    ensures
        lex_lt(radix_digits(x, width, base), radix_digits(y, width, base)),
    decreases width,
{
    if width > 0 {
        let a = radix_digits(x / base, (width - 1) as nat, base);
        let b = radix_digits(y / base, (width - 1) as nat, base);
        let c = digit_byte((x % base) as int);
        let d = digit_byte((y % base) as int);
        lemma_radix_digits_shape(x / base, (width - 1) as nat, base);
        lemma_radix_digits_shape(y / base, (width - 1) as nat, base);
        assert(x / base <= y / base && (x / base == y / base ==> x % base < y % base)) by {
            if base == 10 {
                assert(x / 10 <= y / 10);
            } else {
                assert(x / 16 <= y / 16);
            }
        }
        if x / base < y / base {
            lemma_digits_lt(x / base, y / base, (width - 1) as nat, base);
            lemma_lex_extend(a, b, seq![c], seq![d]);
        } else {
            assert(c < d);
            assert(decides_at(seq![c], seq![d], 0));
            lemma_lex_prefix_cancel(a, seq![c], seq![d]);
        }
        assert(radix_digits(x, width, base) =~= a + seq![c]);
        assert(radix_digits(y, width, base) =~= b + seq![d]);
    }
}

/// Numbers of one width compare as their digits do.
pub proof fn lemma_digits_order(x: nat, y: nat, width: nat, base: nat)
    requires
        base == 10 || base == 16,
        fits(x, width, base),
        fits(y, width, base),
    ensures
        lex_lt(radix_digits(x, width, base), radix_digits(y, width, base)) <==> x < y,
        radix_digits(x, width, base) == radix_digits(y, width, base) <==> x == y,
{
    let dx = radix_digits(x, width, base);
    let dy = radix_digits(y, width, base);
    lemma_lex_irreflexive(dx);
    lemma_lex_asymmetric(dx, dy);
    if x < y {
        lemma_digits_lt(x, y, width, base);
    } else if y < x {
        lemma_digits_lt(y, x, width, base);
    }
}

/// Strings that begin with fields of one length compare by those fields
/// first and by what follows them second.
pub proof fn lemma_lex_fields(a1: Seq<u8>, r1: Seq<u8>, a2: Seq<u8>, r2: Seq<u8>)
    requires
        a1.len() == a2.len(),
    ensures
        lex_lt(a1 + r1, a2 + r2) <==> (lex_lt(a1, a2) || (a1 == a2 && lex_lt(r1, r2))),
{
    lemma_lex_total(a1, a2);
    lemma_lex_asymmetric(a1, a2);
    lemma_lex_irreflexive(a1);
    if a1 == a2 {
        lemma_lex_prefix_cancel(a1, r1, r2);
    } else if lex_lt(a1, a2) {
        lemma_lex_extend(a1, a2, r1, r2);
    } else {
        lemma_lex_extend(a2, a1, r2, r1);
        lemma_lex_asymmetric(a1 + r1, a2 + r2);
    }
}

/// The first row was written before the second: it has the smaller
/// timestamp, or the same timestamp and the smaller clock reading, or both
/// the same and the smaller sequence number.
pub open spec fn written_before(
    ts1: int,
    nanos1: nat,
    seq1: nat,
    ts2: int,
    nanos2: nat,
    seq2: nat,
) -> bool {
    ts1 < ts2 || (ts1 == ts2 && (nanos1 < nanos2 || (nanos1 == nanos2 && seq1 < seq2)))
}

/// The keys of one agent sort by timestamp, rows of one timestamp in the
/// order of their nonces, which is the order in which they were written.
/// This holds of timestamps that are not negative.
pub proof fn lemma_key_order(
    agent: Seq<u8>,
    ts1: int,
    nanos1: nat,
    seq1: nat,
    ts2: int,
    nanos2: nat,
    seq2: nat,
)
    requires
        0 <= ts1 <= i64::MAX,
        0 <= ts2 <= i64::MAX,
        nanos1 <= u128::MAX,
        nanos2 <= u128::MAX,
        seq1 <= u64::MAX,
        seq2 <= u64::MAX,
    ensures
        lex_lt(key_bytes(agent, ts1, nanos1, seq1), key_bytes(agent, ts2, nanos2, seq2))
            <==> written_before(ts1, nanos1, seq1, ts2, nanos2, seq2),
{
    let p = agent + seq![SEPARATOR];
    let z = seq![SEPARATOR];
    let t1 = timestamp_digits(ts1);
    let t2 = timestamp_digits(ts2);
    let h1 = radix_digits(nanos1, 32, 16);
    let h2 = radix_digits(nanos2, 32, 16);
    let s1 = radix_digits(seq1, 16, 16);
    let s2 = radix_digits(seq2, 16, 16);
    lemma_timestamp_fits(ts1 as nat);
    lemma_timestamp_fits(ts2 as nat);
    lemma_nonce_fits(nanos1, seq1);
    lemma_nonce_fits(nanos2, seq2);
    lemma_radix_digits_shape(ts1 as nat, 20, 10);
    lemma_radix_digits_shape(ts2 as nat, 20, 10);
    lemma_radix_digits_shape(nanos1, 32, 16);
    lemma_radix_digits_shape(nanos2, 32, 16);
    lemma_digits_order(ts1 as nat, ts2 as nat, 20, 10);
    lemma_digits_order(nanos1, nanos2, 32, 16);
    lemma_digits_order(seq1, seq2, 16, 16);
    assert(key_bytes(agent, ts1, nanos1, seq1) =~= p + (t1 + (z + (h1 + s1))));
    assert(key_bytes(agent, ts2, nanos2, seq2) =~= p + (t2 + (z + (h2 + s2))));
    lemma_lex_prefix_cancel(p, t1 + (z + (h1 + s1)), t2 + (z + (h2 + s2)));
    lemma_lex_fields(t1, z + (h1 + s1), t2, z + (h2 + s2));
    lemma_lex_prefix_cancel(z, h1 + s1, h2 + s2);
    lemma_lex_fields(h1, s1, h2, s2);
}

/// Of two rows of one agent and one timestamp that were written with one
/// clock reading, the one with the smaller sequence number sorts first: rows
/// of one batch stand in the store in the order of the batch.
pub proof fn lemma_later_write_sorts_later(
    agent: Seq<u8>,
    ts: int,
    nanos: nat,
    seq1: nat,
    seq2: nat,
)
    requires
        0 <= ts <= i64::MAX,
        nanos <= u128::MAX,
        seq1 < seq2 <= u64::MAX,
    ensures
        lex_lt(key_bytes(agent, ts, nanos, seq1), key_bytes(agent, ts, nanos, seq2)),
{
    lemma_key_order(agent, ts, nanos, seq1, ts, nanos, seq2);
}

/// Two rows with different nonces have different keys, whatever their
/// agents and timestamps, so neither overwrites the other.
pub proof fn lemma_keys_differ(
    agent1: Seq<u8>,
    ts1: int,
    agent2: Seq<u8>,
    ts2: int,
    nanos1: nat,
    seq1: nat,
    nanos2: nat,
    seq2: nat,
)
    requires
        nanos1 <= u128::MAX,
        nanos2 <= u128::MAX,
        seq1 <= u64::MAX,
        seq2 <= u64::MAX,
        nanos1 != nanos2 || seq1 != seq2,
    ensures
        key_bytes(agent1, ts1, nanos1, seq1) != key_bytes(agent2, ts2, nanos2, seq2),
{
    let k1 = key_bytes(agent1, ts1, nanos1, seq1);
    let k2 = key_bytes(agent2, ts2, nanos2, seq2);
    let h1 = radix_digits(nanos1, 32, 16);
    let h2 = radix_digits(nanos2, 32, 16);
    let s1 = radix_digits(seq1, 16, 16);
    let s2 = radix_digits(seq2, 16, 16);
    lemma_nonce_fits(nanos1, seq1);
    lemma_nonce_fits(nanos2, seq2);
    lemma_radix_digits_shape(nanos1, 32, 16);
    lemma_radix_digits_shape(nanos2, 32, 16);
    lemma_radix_digits_shape(seq1, 16, 16);
    lemma_radix_digits_shape(seq2, 16, 16);
    lemma_digits_order(nanos1, nanos2, 32, 16);
    lemma_digits_order(seq1, seq2, 16, 16);
    if k1 == k2 {
        let n = k1.len() as int;
        assert(k1.subrange(n - 48, n - 16) =~= h1);
        assert(k2.subrange(n - 48, n - 16) =~= h2);
        assert(k1.subrange(n - 16, n) =~= s1);
        assert(k2.subrange(n - 16, n) =~= s2);
        assert(false);
    }
}

/// The text of a timestamp begins with a zero or a minus sign, holds no
/// separator, and denotes the timestamp.
pub proof fn lemma_timestamp_digits(ts: int)
    requires
        i64::MIN <= ts <= i64::MAX,
    ensures
        timestamp_digits(ts).len() == 20,
        timestamp_digits(ts)[0] == 48 || timestamp_digits(ts)[0] == 45,
        lacks(timestamp_digits(ts), SEPARATOR),
        parse_i64_spec(timestamp_digits(ts)) == Some(ts),
{
    let text = timestamp_digits(ts);
    if ts >= 0 {
        lemma_timestamp_fits(ts as nat);
        lemma_radix_digits_shape(ts as nat, 20, 10);
        lemma_leading_zero(ts as nat, 20);
        lemma_decimal_round_trip(ts as nat, 20);
    } else {
        let digits = radix_digits((-ts) as nat, 19, 10);
        lemma_timestamp_fits((-ts) as nat);
        lemma_radix_digits_shape((-ts) as nat, 19, 10);
        lemma_decimal_round_trip((-ts) as nat, 19);
        assert(text.drop_first() =~= digits);
    }
}

/// A number written in more digits than it has begins with a zero.
proof fn lemma_leading_zero(x: nat, width: nat)
    requires
        width > 0,
        fits(x, (width - 1) as nat, 10),
    ensures
        radix_digits(x, width, 10)[0] == 48,
    decreases width,
{
    lemma_radix_digits_shape(x / 10, (width - 1) as nat, 10);
    if width > 1 {
        lemma_leading_zero(x / 10, (width - 1) as nat);
    }
}

/// Every row of an agent lies within the bounds of the scan over that
/// agent.
pub proof fn lemma_range_holds_own_keys(agent: Seq<u8>, ts: int, nanos: nat, seq: nat)
    requires
        i64::MIN <= ts <= i64::MAX,
    ensures
        lex_le(range_start(agent), key_bytes(agent, ts, nanos, seq)),
        lex_lt(key_bytes(agent, ts, nanos, seq), range_end(agent)),
{
    let p = range_start(agent);
    let rest = timestamp_digits(ts) + seq![SEPARATOR] + nonce_digits(nanos, seq);
    lemma_timestamp_digits(ts);
    assert(key_bytes(agent, ts, nanos, seq) =~= p + rest);
    lemma_prefix_sorts_first(p, rest);
    assert(rest[0] == timestamp_digits(ts)[0]);
    assert(range_tail()[0] == 57);
    assert(decides_at(rest, range_tail(), 0));
    lemma_lex_prefix_cancel(p, rest, range_tail());
}

/// A string within the bounds of the scan over an agent begins with that
/// agent's id and a separator.
pub proof fn lemma_range_holds_prefix(agent: Seq<u8>, key: Seq<u8>)
    requires
        lex_le(range_start(agent), key),
        lex_lt(key, range_end(agent)),
    ensures
        range_start(agent).is_prefix_of(key),
{
    lemma_between_has_prefix(range_start(agent), range_tail(), key);
}

/// No row of another agent lies within the bounds of the scan over an
/// agent, as long as neither id holds the separator.
pub proof fn lemma_range_excludes_other_agents(
    agent: Seq<u8>,
    other: Seq<u8>,
    ts: int,
    nanos: nat,
    seq: nat,
)
    requires
        lacks(agent, SEPARATOR),
        lacks(other, SEPARATOR),
        lex_le(range_start(agent), key_bytes(other, ts, nanos, seq)),
        lex_lt(key_bytes(other, ts, nanos, seq), range_end(agent)),
    ensures
        agent == other,
{
    let key = key_bytes(other, ts, nanos, seq);
    let p = range_start(agent);
    lemma_range_holds_prefix(agent, key);
    assert(forall|i: int| 0 <= i < p.len() ==> key[i] == key.subrange(0, p.len() as int)[i]);
    if agent.len() < other.len() {
        assert(key[agent.len() as int] == other[agent.len() as int]);
        assert(p[agent.len() as int] == SEPARATOR);
        assert(false);
    } else if other.len() < agent.len() {
        assert(key[other.len() as int] == SEPARATOR);
        assert(p[other.len() as int] == agent[other.len() as int]);
        assert(false);
    }
    assert forall|i: int| 0 <= i < agent.len() implies agent[i] == other[i] by {
        assert(p[i] == agent[i]);
        assert(key[i] == other[i]);
    }
    assert(agent =~= other);
}

/// Reading a key gives back the agent id and the timestamp it was built
/// from, for every agent id without separator.
pub proof fn lemma_parse_key_round_trip(agent: Seq<u8>, ts: int, nanos: nat, seq: nat)
    requires
        lacks(agent, SEPARATOR),
        i64::MIN <= ts <= i64::MAX,
    ensures
        parse_key_spec(key_bytes(agent, ts, nanos, seq)) == Some((agent, ts)),
{
    let key = key_bytes(agent, ts, nanos, seq);
    let stamp = timestamp_digits(ts);
    let n = agent.len() as int;
    lemma_timestamp_digits(ts);
    assert(key[n] == SEPARATOR);
    assert(key.subrange(0, n) =~= agent);
    assert(is_first(key, SEPARATOR, n));
    lemma_first_unique(key, SEPARATOR, n);
    let rest = key.subrange(n + 1, key.len() as int);
    assert(rest[20] == SEPARATOR);
    assert(rest.subrange(0, 20) =~= stamp);
    assert(is_first(rest, SEPARATOR, 20));
    lemma_first_unique(rest, SEPARATOR, 20);
    assert(until_separator(rest) == stamp);
}

} // verus!
