//! The rules of the persistent store.
//!
//! The store holds two tables. `metrics` maps a key of the schema in
//! [`crate::key`] to an encoded sample; `agent_latest` maps an agent id to
//! the greatest timestamp seen for it, written as eight bytes, most
//! significant first.
//!
//! The functions here read no table and write none. They take the keys that
//! a scan returned and say which rows a query picks and which rows a
//! retention pass deletes; the caller runs the scans and carries out the
//! plans inside the store's transactions.

use vstd::prelude::*;
use vstd::utf8::encode_utf8;
use crate::key::{
    fits, key_bytes, make_key, parse_key, parse_key_spec, SEPARATOR,
};
use crate::key_order::{lemma_fits_below_power, lemma_keys_differ, power};
use crate::order::{
    keep_last, last_n, lemma_stable_sort, lemma_stable_sort_map, own_rank, rank_lt, rank_of,
    reversed, sort_by_rank, stable_sort_by, time_rank, Ranked,
};
use crate::sample::{Sample, SampleView, views};
use crate::text::{bytes_eq, bytes_lt, find_first, lacks, lemma_lex_irreflexive};

verus! {

/// Most keys that one transaction deletes.
pub const DELETE_CHUNK: usize = 10000;

/// A timestamp as the unsigned number with the same sixty-four bits.
pub open spec fn unsigned_of(ts: int) -> nat {
    if ts >= 0 {
        ts as nat
    } else {
        (ts + 0x1_0000_0000_0000_0000) as nat
    }
}

/// The `width` low bytes of `x`, most significant first.
pub open spec fn be_bytes(x: nat, width: nat) -> Seq<u8>
    decreases width,
{
    if width == 0 {
        Seq::<u8>::empty()
    } else {
        be_bytes(x / 256, (width - 1) as nat).push((x % 256) as u8)
    }
}

/// The number that bytes denote, most significant first.
pub open spec fn be_value(bytes: Seq<u8>) -> nat
    decreases bytes.len(),
{
    if bytes.len() == 0 {
        0
    } else {
        be_value(bytes.drop_last()) * 256 + bytes.last() as nat
    }
}

/// The entry of `agent_latest` for a timestamp.
pub open spec fn latest_bytes(ts: int) -> Seq<u8> {
    be_bytes(unsigned_of(ts), 8)
}

/// The timestamp that an entry of `agent_latest` holds. An entry that is not
/// eight bytes long holds none.
pub open spec fn latest_value(bytes: Seq<u8>) -> Option<int> {
    if bytes.len() == 8 {
        let unsigned = be_value(bytes);
        if unsigned < 0x8000_0000_0000_0000 {
            Some(unsigned as int)
        } else {
            Some(unsigned - 0x1_0000_0000_0000_0000)
        }
    } else {
        None
    }
}

/// Bytes denote the number they were made from.
pub proof fn lemma_be_round_trip(x: nat, width: nat)
    requires
        fits(x, width, 256),
    ensures
        be_bytes(x, width).len() == width,
        be_value(be_bytes(x, width)) == x,
    decreases width,
{
    if width > 0 {
        assert(be_bytes(x, width).drop_last() =~= be_bytes(x / 256, (width - 1) as nat));
        lemma_be_round_trip(x / 256, (width - 1) as nat);
    }
}

/// An entry of `agent_latest` holds the timestamp it was made from.
pub proof fn lemma_latest_round_trip(ts: int)
    requires
        i64::MIN <= ts <= i64::MAX,
    ensures
        latest_bytes(ts).len() == 8,
        latest_value(latest_bytes(ts)) == Some(ts),
{
    reveal_with_fuel(power, 9);
    assert(power(256, 8) == 0x1_0000_0000_0000_0000);
    lemma_fits_below_power(unsigned_of(ts), 8, 256);
    lemma_be_round_trip(unsigned_of(ts), 8);
}

/// Writes a timestamp as an entry of `agent_latest`.
pub fn encode_latest(timestamp: i64) -> (bytes: Vec<u8>)
    ensures
        bytes@ == latest_bytes(timestamp as int),
        bytes@.len() == 8,
{
    let unsigned: u64 = if timestamp >= 0 {
        timestamp as u64
    } else {
        (timestamp - i64::MIN) as u64 + 0x8000_0000_0000_0000
    };
    let mut bytes: Vec<u8> = Vec::new();
    let mut n: usize = 0;
    while n < 8
        invariant
            n <= 8,
            bytes@.len() == n,
        decreases 8 - n,
    {
        bytes.push(0);
        n += 1;
    }
    let mut rest: u64 = unsigned;
    let mut i: usize = 8;
    while i > 0
        invariant
            i <= 8,
            bytes@.len() == 8,
            be_bytes(unsigned as nat, 8) == be_bytes(rest as nat, i as nat) + bytes@.subrange(
                i as int,
                8,
            ),
        decreases i,
    {
        let ghost before = bytes@;
        let ghost lead = be_bytes((rest / 256) as nat, (i - 1) as nat);
        let byte: u8 = (rest % 256) as u8;
        i -= 1;
        bytes.set(i, byte);
        proof {
            assert(be_bytes(rest as nat, (i + 1) as nat) == lead.push(byte));
            assert(bytes@.subrange(i as int, 8) =~= seq![byte] + before.subrange(i as int + 1, 8));
            assert(lead.push(byte) + before.subrange(i as int + 1, 8) =~= lead + bytes@.subrange(
                i as int,
                8,
            ));
        }
        rest = rest / 256;
    }
    proof {
        assert(be_bytes(rest as nat, 0) + bytes@.subrange(0, 8) =~= bytes@);
    }
    bytes
}

/// Reads the timestamp of an entry of `agent_latest`.
pub fn decode_latest(bytes: &[u8]) -> (timestamp: Option<i64>)
    ensures
        match timestamp {
            Some(ts) => latest_value(bytes@) == Some(ts as int),
            None => latest_value(bytes@) is None,
        },
{
    if bytes.len() != 8 {
        return None;
    }
    let mut unsigned: u64 = 0;
    let mut i: usize = 0;
    while i < 8
        invariant
            i <= 8,
            bytes@.len() == 8,
            unsigned == be_value(bytes@.take(i as int)),
            fits(unsigned as nat, i as nat, 256),
        decreases 8 - i,
    {
        proof {
            assert(bytes@.take(i as int + 1).drop_last() =~= bytes@.take(i as int));
            lemma_fits_bound(unsigned as nat, i as nat);
            reveal_with_fuel(power, 9);
            assert(power(256, i as nat) <= 0x1_0000_0000_0000_00) by {
                lemma_power_grows(i as nat, 7);
                assert(power(256, 7) == 0x1_0000_0000_0000_00);
            }
            assert((unsigned * 256 + bytes@[i as int]) / 256 == unsigned);
        }
        unsigned = unsigned * 256 + bytes[i] as u64;
        i += 1;
    }
    proof {
        assert(bytes@.take(8) =~= bytes@);
    }
    if unsigned < 0x8000_0000_0000_0000 {
        Some(unsigned as i64)
    } else {
        Some(((unsigned - 0x8000_0000_0000_0000) as i64) + i64::MIN)
    }
}

/// A number of at most `width` bytes is below 256 to the `width`.
proof fn lemma_fits_bound(x: nat, width: nat)
    requires
        fits(x, width, 256),
    ensures
        x < power(256, width),
    decreases width,
{
    if width > 0 {
        lemma_fits_bound(x / 256, (width - 1) as nat);
    }
}

/// Powers of 256 grow with the exponent.
proof fn lemma_power_grows(a: nat, b: nat)
    requires
        a <= b,
    ensures
        power(256, a) <= power(256, b),
    decreases b,
{
    if a < b {
        lemma_power_grows(a, (b - 1) as nat);
    }
}

/// Whether a batch that holds `timestamp` for an agent moves that agent's
/// entry of `agent_latest`: it does where there is no entry, where the entry
/// is not eight bytes long, and where the timestamp is greater than the
/// stored one.
pub open spec fn moves_latest(existing: Option<Seq<u8>>, timestamp: int) -> bool {
    match existing {
        None => true,
        Some(bytes) => match latest_value(bytes) {
            Some(stored) => timestamp > stored,
            None => true,
        },
    }
}

/// Tests whether a timestamp moves an entry of `agent_latest`.
pub fn should_update_latest(existing: Option<&[u8]>, timestamp: i64) -> (update: bool)
    ensures
        update == moves_latest(
            match existing {
                Some(bytes) => Some(bytes@),
                None => None,
            },
            timestamp as int,
        ),
{
    match existing {
        None => true,
        Some(bytes) => match decode_latest(bytes) {
            Some(stored) => timestamp > stored,
            None => true,
        },
    }
}

/// A row of `metrics` as a scan sees it: the timestamp read from the key,
/// and the key.
#[derive(Debug)]
pub struct KeyRecord {
    pub timestamp: i64,
    pub key: String,
}

impl View for KeyRecord {
    type V = (int, Seq<u8>);

    open spec fn view(&self) -> (int, Seq<u8>) {
        (self.timestamp as int, encode_utf8(self.key@))
    }
}

/// Rows rank by timestamp, rows of one timestamp by key.
impl Ranked for KeyRecord {
    open spec fn rank(&self) -> (int, Seq<u8>) {
        self@
    }

    fn before(&self, other: &Self) -> (first: bool) {
        self.timestamp < other.timestamp || (self.timestamp == other.timestamp && bytes_lt(
            self.key.as_str().as_bytes(),
            other.key.as_str().as_bytes(),
        ))
    }
}

/// A row of `metrics` that ranks by its timestamp alone.
#[derive(Debug)]
pub struct TimedKey {
    pub timestamp: i64,
    pub key: String,
}

impl View for TimedKey {
    type V = (int, Seq<u8>);

    open spec fn view(&self) -> (int, Seq<u8>) {
        (self.timestamp as int, encode_utf8(self.key@))
    }
}

impl Ranked for TimedKey {
    open spec fn rank(&self) -> (int, Seq<u8>) {
        (self.timestamp as int, Seq::<u8>::empty())
    }

    fn before(&self, other: &Self) -> (first: bool) {
        proof {
            lemma_lex_irreflexive(Seq::<u8>::empty());
        }
        self.timestamp < other.timestamp
    }
}

/// The view of a row.
pub open spec fn record_view() -> spec_fn(KeyRecord) -> (int, Seq<u8>) {
    |record: KeyRecord| record@
}

/// The view of a row that ranks by time.
pub open spec fn timed_view() -> spec_fn(TimedKey) -> (int, Seq<u8>) {
    |record: TimedKey| record@
}

/// The bytes of each key.
pub open spec fn encoded(keys: Seq<String>) -> Seq<Seq<u8>> {
    Seq::new(keys.len(), |i: int| encode_utf8(keys[i]@))
}

/// The key of each row.
pub open spec fn keys_of(rows: Seq<(int, Seq<u8>)>) -> Seq<Seq<u8>> {
    Seq::new(rows.len(), |i: int| rows[i].1)
}

/// The timestamp under which a key counts as a row of the agent, if it
/// does: the key must name that agent. In a pass over the whole table for
/// rows of the first layout, keys with a separator are left out, since the
/// scan over the agent's range has met them.
pub open spec fn row_time(agent: Seq<u8>, key: Seq<u8>, legacy: bool) -> Option<int> {
    if legacy && !lacks(key, SEPARATOR) {
        None
    } else {
        match parse_key_spec(key) {
            Some((named, ts)) => if named == agent {
                Some(ts)
            } else {
                None
            },
            None => None,
        }
    }
}

/// The rows of the agent among the given keys, in the order of the keys.
pub open spec fn matching(agent: Seq<u8>, keys: Seq<Seq<u8>>, legacy: bool) -> Seq<
    (int, Seq<u8>),
>
    decreases keys.len(),
{
    if keys.len() == 0 {
        Seq::empty()
    } else {
        let head = matching(agent, keys.drop_last(), legacy);
        match row_time(agent, keys.last(), legacy) {
            Some(ts) => head.push((ts, keys.last())),
            None => head,
        }
    }
}

/// The rows of the agent that two scans have met: the scan over the agent's
/// range, then the pass over the table for rows of the first layout.
pub open spec fn agent_rows(agent: Seq<u8>, range_keys: Seq<Seq<u8>>, legacy_keys: Seq<Seq<u8>>)
    -> Seq<(int, Seq<u8>)> {
    matching(agent, range_keys, false) + matching(agent, legacy_keys, true)
}

/// The rows with a timestamp below the cutoff, in their order.
pub open spec fn older(rows: Seq<(int, Seq<u8>)>, cutoff: int) -> Seq<(int, Seq<u8>)>
    decreases rows.len(),
{
    if rows.len() == 0 {
        Seq::empty()
    } else if rows.last().0 < cutoff {
        older(rows.drop_last(), cutoff).push(rows.last())
    } else {
        older(rows.drop_last(), cutoff)
    }
}

/// The greatest timestamp among the rows that are not below the cutoff.
pub open spec fn newest_kept(rows: Seq<(int, Seq<u8>)>, cutoff: int) -> Option<int>
    decreases rows.len(),
{
    if rows.len() == 0 {
        None
    } else {
        let head = newest_kept(rows.drop_last(), cutoff);
        if rows.last().0 < cutoff {
            head
        } else {
            match head {
                Some(best) => if rows.last().0 > best {
                    Some(rows.last().0)
                } else {
                    head
                },
                None => Some(rows.last().0),
            }
        }
    }
}

/// The row with the greatest timestamp, the last of them where several
/// share it.
pub open spec fn latest_row(rows: Seq<(int, Seq<u8>)>) -> Option<(int, Seq<u8>)>
    decreases rows.len(),
{
    if rows.len() == 0 {
        None
    } else {
        match latest_row(rows.drop_last()) {
            Some(best) => if best.0 <= rows.last().0 {
                Some(rows.last())
            } else {
                Some(best)
            },
            None => Some(rows.last()),
        }
    }
}

/// What `older` and `newest_kept` select: the rows below the cutoff, each
/// of them and no other; and the greatest timestamp of the rest, which one
/// of the rest has.
pub proof fn lemma_age_split(rows: Seq<(int, Seq<u8>)>, cutoff: int)
    ensures
        forall|i: int| 0 <= i < older(rows, cutoff).len() ==> (#[trigger] older(rows, cutoff)[i]).0
            < cutoff && rows.contains(older(rows, cutoff)[i]),
        forall|i: int|
            0 <= i < rows.len() && (#[trigger] rows[i]).0 < cutoff ==> older(
                rows,
                cutoff,
            ).contains(rows[i]),
        match newest_kept(rows, cutoff) {
            Some(best) => best >= cutoff && (exists|i: int|
                0 <= i < rows.len() && (#[trigger] rows[i]).0 == best) && (forall|i: int|
                0 <= i < rows.len() && (#[trigger] rows[i]).0 >= cutoff ==> rows[i].0 <= best),
            None => forall|i: int| 0 <= i < rows.len() ==> (#[trigger] rows[i]).0 < cutoff,
        },
    decreases rows.len(),
{
    if rows.len() > 0 {
        let head = rows.drop_last();
        let last = rows.last();
        lemma_age_split(head, cutoff);
        let old = older(rows, cutoff);
        assert forall|i: int| 0 <= i < old.len() implies (#[trigger] old[i]).0 < cutoff
            && rows.contains(old[i]) by {
            if i < older(head, cutoff).len() {
                assert(old[i] == older(head, cutoff)[i]);
                let j = choose|j: int| 0 <= j < head.len() && head[j] == old[i];
                assert(rows[j] == old[i]);
            } else {
                assert(old[i] == last);
                assert(rows[rows.len() - 1] == last);
            }
        }
        assert forall|i: int| 0 <= i < rows.len() && (#[trigger] rows[i]).0 < cutoff implies old.contains(
            rows[i],
        ) by {
            if i < head.len() {
                assert(head[i] == rows[i]);
                let j = choose|j: int|
                    0 <= j < older(head, cutoff).len() && older(head, cutoff)[j] == rows[i];
                assert(old[j] == rows[i]);
            } else {
                assert(old[old.len() - 1] == rows[i]);
            }
        }
        assert forall|i: int| 0 <= i < head.len() implies head[i] == rows[i] by {}
        match newest_kept(rows, cutoff) {
            Some(best) => {
                if last.0 >= cutoff && last.0 == best {
                    assert(rows[rows.len() - 1].0 == best);
                } else {
                    let j = choose|j: int| 0 <= j < head.len() && (#[trigger] head[j]).0 == best;
                    assert(rows[j].0 == best);
                }
                assert forall|i: int|
                    0 <= i < rows.len() && (#[trigger] rows[i]).0 >= cutoff implies rows[i].0
                    <= best by {
                    if i < head.len() {
                        assert(head[i] == rows[i]);
                    }
                }
            },
            None => {
                assert forall|i: int| 0 <= i < rows.len() implies (#[trigger] rows[i]).0
                    < cutoff by {
                    if i < head.len() {
                        assert(head[i] == rows[i]);
                    }
                }
            },
        }
    }
}

/// What `latest_row` selects: a row that no row exceeds in time and that
/// stands behind every other row of its time.
pub proof fn lemma_latest_row(rows: Seq<(int, Seq<u8>)>)
    ensures
        match latest_row(rows) {
            Some(best) => exists|at: int|
                0 <= at < rows.len() && #[trigger] rows[at] == best && (forall|i: int|
                    0 <= i < rows.len() ==> (#[trigger] rows[i]).0 <= best.0) && (forall|i: int|
                    at < i < rows.len() ==> (#[trigger] rows[i]).0 < best.0),
            None => rows.len() == 0,
        },
    decreases rows.len(),
{
    if rows.len() > 0 {
        let head = rows.drop_last();
        lemma_latest_row(head);
        assert forall|i: int| 0 <= i < head.len() implies head[i] == rows[i] by {}
        match latest_row(head) {
            Some(prior) => {
                if prior.0 <= rows.last().0 {
                    let at = rows.len() - 1;
                    assert(rows[at] == rows.last());
                    assert forall|i: int| 0 <= i < rows.len() implies (#[trigger] rows[i]).0
                        <= rows.last().0 by {
                        if i < head.len() {
                            assert(head[i] == rows[i]);
                        }
                    }
                } else {
                    let at = choose|at: int|
                        0 <= at < head.len() && #[trigger] head[at] == prior && (forall|i: int|
                            0 <= i < head.len() ==> (#[trigger] head[i]).0 <= prior.0) && (forall|
                            i: int,
                        | at < i < head.len() ==> (#[trigger] head[i]).0 < prior.0);
                    assert(rows[at] == prior);
                    assert forall|i: int| 0 <= i < rows.len() implies (#[trigger] rows[i]).0
                        <= prior.0 by {
                        if i < head.len() {
                            assert(head[i] == rows[i]);
                        }
                    }
                    assert forall|i: int| at < i < rows.len() implies (#[trigger] rows[i]).0
                        < prior.0 by {
                        if i < head.len() {
                            assert(head[i] == rows[i]);
                        }
                    }
                }
            },
            None => {
                assert(rows[0] == rows.last());
            },
        }
    }
}

/// No two rows have one key, as in a table.
pub open spec fn distinct_keys(rows: Seq<(int, Seq<u8>)>) -> bool {
    forall|i: int, j: int|
        0 <= i < j < rows.len() ==> (#[trigger] rows[i]).1 != (#[trigger] rows[j]).1
}

/// Number of rows that the count pass deletes: those beyond the cap.
pub open spec fn excess(count: nat, keep_count: nat) -> nat {
    if count > keep_count {
        (count - keep_count) as nat
    } else {
        0
    }
}

/// After the count pass the agent has the smaller of its former number of
/// rows and the cap: of the rows in the order of timestamp and key, the
/// pass deletes the keys of the first ones beyond the cap and the key of no
/// other row.
pub proof fn lemma_count_pass_leaves_newest(rows: Seq<(int, Seq<u8>)>, keep_count: nat)
    requires
        distinct_keys(rows),
    ensures
        rows.len() - excess(rows.len(), keep_count) == if rows.len() < keep_count {
            rows.len()
        } else {
            keep_count
        },
        forall|i: int|
            0 <= i < rows.len() ==> (keys_of(rows.take(excess(rows.len(), keep_count) as int)).contains(
                (#[trigger] rows[i]).1,
            ) <==> i < excess(rows.len(), keep_count)),
{
    let cut = excess(rows.len(), keep_count) as int;
    let doomed = keys_of(rows.take(cut));
    assert forall|i: int| 0 <= i < rows.len() implies (doomed.contains((#[trigger] rows[i]).1) <==> i
        < cut) by {
        if i < cut {
            assert(doomed[i] == rows[i].1);
        }
        if doomed.contains(rows[i].1) {
            let j = choose|j: int| 0 <= j < doomed.len() && doomed[j] == rows[i].1;
            assert(rows[j].1 == rows[i].1);
            if j < i {
                assert(rows[j].1 != rows[i].1);
            } else if i < j {
                assert(rows[i].1 != rows[j].1);
            }
        }
    }
}

/// After the age pass no row below the cutoff is left and no other row is
/// gone: the pass deletes the key of a row if and only if the timestamp of
/// the row lies below the cutoff.
pub proof fn lemma_age_pass_leaves_newer(rows: Seq<(int, Seq<u8>)>, cutoff: int)
    requires
        distinct_keys(rows),
    ensures
        forall|i: int|
            0 <= i < rows.len() ==> (keys_of(older(rows, cutoff)).contains((#[trigger] rows[i]).1)
                <==> rows[i].0 < cutoff),
{
    lemma_age_split(rows, cutoff);
    let old = older(rows, cutoff);
    let doomed = keys_of(old);
    assert forall|i: int| 0 <= i < rows.len() implies (doomed.contains((#[trigger] rows[i]).1)
        <==> rows[i].0 < cutoff) by {
        if rows[i].0 < cutoff {
            assert(old.contains(rows[i]));
            let j = choose|j: int| 0 <= j < old.len() && old[j] == rows[i];
            assert(doomed[j] == rows[i].1);
        }
        if doomed.contains(rows[i].1) {
            let j = choose|j: int| 0 <= j < doomed.len() && doomed[j] == rows[i].1;
            assert(old[j].0 < cutoff && rows.contains(old[j]));
            let k = choose|k: int| 0 <= k < rows.len() && rows[k] == old[j];
            assert(rows[k].1 == rows[i].1);
            if k < i {
                assert(rows[k].1 != rows[i].1);
            } else if i < k {
                assert(rows[i].1 != rows[k].1);
            }
        }
    }
}

/// The entry of `agent_latest` after a batch with the given greatest
/// timestamp for the agent.
pub open spec fn latest_after(existing: Option<Seq<u8>>, timestamp: int) -> Seq<u8> {
    if moves_latest(existing, timestamp) {
        latest_bytes(timestamp)
    } else {
        existing->0
    }
}

/// The entry of `agent_latest` never falls: after a batch it holds a
/// timestamp that is not below the greatest timestamp of the batch for the
/// agent, nor below the timestamp it held before.
pub proof fn lemma_latest_never_falls(existing: Option<Seq<u8>>, timestamp: int)
    requires
        i64::MIN <= timestamp <= i64::MAX,
    ensures
        latest_value(latest_after(existing, timestamp)) is Some,
        latest_value(latest_after(existing, timestamp))->0 >= timestamp,
        existing is Some && latest_value(existing->0) is Some ==> latest_value(
            latest_after(existing, timestamp),
        )->0 >= latest_value(existing->0)->0,
{
    lemma_latest_round_trip(timestamp);
}

/// The chunks of a plan, one behind the other, are the keys of the plan.
pub proof fn lemma_chunks_cover(len: nat, index: nat)
    requires
        index < chunks_of(len),
    ensures
        index * 10000 < len,
        index * 10000 < chunk_end(len, index) <= len,
        chunk_end(len, index) - index * 10000 <= 10000,
        index + 1 < chunks_of(len) ==> chunk_end(len, index) == (index + 1) * 10000,
        index + 1 == chunks_of(len) ==> chunk_end(len, index) == len,
{
}

/// The timestamp under which a key counts as a row of the agent, if it
/// does.
pub fn row_of(agent_id: &str, key: &str, legacy: bool) -> (time: Option<i64>)
    ensures
        match time {
            Some(ts) => row_time(encode_utf8(agent_id@), encode_utf8(key@), legacy) == Some(
                ts as int,
            ),
            None => row_time(encode_utf8(agent_id@), encode_utf8(key@), legacy) is None,
        },
{
    if legacy && find_first(key.as_bytes(), SEPARATOR).is_some() {
        return None;
    }
    match parse_key(key) {
        Some((named, ts)) => {
            if bytes_eq(named.as_bytes(), agent_id.as_bytes()) {
                Some(ts)
            } else {
                None
            }
        },
        None => None,
    }
}

/// Adds the rows of the agent among the given keys to `records`.
fn collect(agent_id: &str, keys: &Vec<String>, legacy: bool, records: &mut Vec<KeyRecord>)
    ensures
        final(records)@.map_values(record_view()) == old(records)@.map_values(record_view())
            + matching(encode_utf8(agent_id@), encoded(keys@), legacy),
{
    let ghost agent = encode_utf8(agent_id@);
    let ghost start = records@.map_values(record_view());
    let mut i: usize = 0;
    assert(encoded(keys@).take(0) =~= Seq::<Seq<u8>>::empty());
    assert(records@.map_values(record_view()) =~= start + matching(
        agent,
        encoded(keys@).take(0),
        legacy,
    ));
    while i < keys.len()
        invariant
            i <= keys.len(),
            agent == encode_utf8(agent_id@),
            records@.map_values(record_view()) == start + matching(
                agent,
                encoded(keys@).take(i as int),
                legacy,
            ),
        decreases keys.len() - i,
    {
        let ghost before = records@;
        proof {
            assert(encoded(keys@).take(i as int + 1).drop_last() =~= encoded(keys@).take(i as int));
            assert(encoded(keys@).take(i as int + 1).last() == encode_utf8(keys@[i as int]@));
        }
        match row_of(agent_id, keys[i].as_str(), legacy) {
            Some(ts) => {
                let key = keys[i].clone();
                records.push(KeyRecord { timestamp: ts, key });
                proof {
                    assert(records@.map_values(record_view()) =~= before.map_values(
                        record_view(),
                    ).push((ts as int, encode_utf8(keys@[i as int]@))));
                    assert(records@.map_values(record_view()) =~= start + matching(
                        agent,
                        encoded(keys@).take(i as int + 1),
                        legacy,
                    ));
                }
            },
            None => {},
        }
        i += 1;
    }
    proof {
        assert(encoded(keys@).take(keys@.len() as int) =~= encoded(keys@));
    }
}

/// The rows of the agent that the two scans have met.
fn collect_rows(agent_id: &str, range_keys: &Vec<String>, legacy_keys: &Vec<String>) -> (records:
    Vec<KeyRecord>)
    ensures
        records@.map_values(record_view()) == agent_rows(
            encode_utf8(agent_id@),
            encoded(range_keys@),
            encoded(legacy_keys@),
        ),
{
    let mut records: Vec<KeyRecord> = Vec::new();
    assert(records@.map_values(record_view()) =~= Seq::<(int, Seq<u8>)>::empty());
    collect(agent_id, range_keys, false, &mut records);
    collect(agent_id, legacy_keys, true, &mut records);
    proof {
        assert(records@.map_values(record_view()) =~= agent_rows(
            encode_utf8(agent_id@),
            encoded(range_keys@),
            encoded(legacy_keys@),
        ));
    }
    records
}

/// What becomes of an agent's entry of `agent_latest` after a deletion.
#[derive(Debug, Clone, Copy, PartialEq, Eq, Structural)]
pub enum LatestUpdate {
    /// The entry stays as it is.
    Keep,
    /// The entry is set to this timestamp.
    Put(i64),
    /// The entry is removed: the agent has no row left.
    Remove,
}

/// The keys that a retention pass deletes for one agent, and what becomes
/// of the agent's entry of `agent_latest`.
///
/// The keys are deleted in chunks, each in a transaction of its own; the
/// entry is written after the last chunk.
#[derive(Debug)]
pub struct DeletePlan {
    /// The keys to delete, in the order of deletion.
    pub keys: Vec<String>,
    /// What becomes of the entry of `agent_latest`.
    pub latest: LatestUpdate,
}

/// Number of chunks in which `len` keys are deleted.
pub open spec fn chunks_of(len: nat) -> nat {
    if len % 10000 == 0 {
        len / 10000
    } else {
        len / 10000 + 1
    }
}

/// Where a chunk ends.
pub open spec fn chunk_end(len: nat, index: nat) -> nat {
    if (index + 1) * 10000 < len {
        (index + 1) * 10000
    } else {
        len
    }
}

impl DeletePlan {
    /// The bytes of the keys to delete.
    pub open spec fn doomed(&self) -> Seq<Seq<u8>> {
        encoded(self.keys@)
    }

    /// Number of keys to delete.
    pub fn deleted(&self) -> (count: usize)
        ensures
            count == self.keys@.len(),
    {
        self.keys.len()
    }

    /// Number of chunks.
    pub fn chunk_count(&self) -> (count: usize)
        ensures
            count == chunks_of(self.keys@.len()),
    {
        let len = self.keys.len();
        if len % DELETE_CHUNK == 0 {
            len / DELETE_CHUNK
        } else {
            len / DELETE_CHUNK + 1
        }
    }

    /// The keys of one chunk: at least one and at most `DELETE_CHUNK`, each
    /// chunk beginning where the one before it ended.
    pub fn chunk(&self, index: usize) -> (part: &[String])
        requires
            index < chunks_of(self.keys@.len()),
        ensures
            part@ == self.keys@.subrange(
                index * 10000,
                chunk_end(self.keys@.len(), index as nat) as int,
            ),
            0 < part@.len() <= DELETE_CHUNK,
            chunk_end(self.keys@.len(), index as nat) == self.keys@.len() <==> index + 1
                == chunks_of(self.keys@.len()),
    {
        let len = self.keys.len();
        let start = index * DELETE_CHUNK;
        let end = if len - start > DELETE_CHUNK {
            start + DELETE_CHUNK
        } else {
            len
        };
        vstd::slice::slice_subrange(self.keys.as_slice(), start, end)
    }
}

/// Copies the keys of the first `count` rows.
fn first_keys(records: &Vec<KeyRecord>, count: usize) -> (keys: Vec<String>)
    requires
        count <= records@.len(),
    ensures
        keys@.len() == count,
        encoded(keys@) == keys_of(records@.map_values(record_view()).take(count as int)),
{
    let mut keys: Vec<String> = Vec::new();
    let mut i: usize = 0;
    while i < count
        invariant
            i <= count <= records@.len(),
            keys@.len() == i,
            forall|j: int| 0 <= j < i ==> (#[trigger] keys@[j])@ == records@[j].key@,
        decreases count - i,
    {
        keys.push(records[i].key.clone());
        i += 1;
    }
    assert(encoded(keys@) =~= keys_of(records@.map_values(record_view()).take(count as int)));
    keys
}

/// Plans the count pass of retention for one agent: of the agent's rows by
/// timestamp and key, all but the last `keep_count` are deleted.
///
/// Where the agent has no more than `keep_count` rows nothing is deleted
/// and `agent_latest` stays as it is. Otherwise the entry is set to the
/// timestamp of the last row, which no remaining row exceeds, or removed
/// where no row remains. After the plan the agent has the smaller of
/// `keep_count` and its former number of rows.
pub fn delete_old_records(
    agent_id: &str,
    range_keys: &Vec<String>,
    legacy_keys: &Vec<String>,
    keep_count: usize,
) -> (plan: DeletePlan)
    ensures
        ({
            let rows = stable_sort_by(
                agent_rows(encode_utf8(agent_id@), encoded(range_keys@), encoded(legacy_keys@)),
                own_rank(),
            );
            let excess = if rows.len() > keep_count {
                rows.len() - keep_count
            } else {
                0
            };
            &&& plan.doomed() == keys_of(rows.take(excess))
            &&& rows.len() - plan.keys@.len() == if rows.len() < keep_count {
                rows.len()
            } else {
                keep_count as nat
            }
            &&& plan.latest == if excess == 0 {
                LatestUpdate::Keep
            } else if keep_count == 0 {
                LatestUpdate::Remove
            } else {
                LatestUpdate::Put(rows.last().0 as i64)
            }
            &&& forall|i: int| 0 <= i < rows.len() ==> (#[trigger] rows[i]).0 <= rows.last().0
        }),
{
    let records = collect_rows(agent_id, range_keys, legacy_keys);
    let ghost found = records@;
    let sorted = sort_by_rank(records);
    proof {
        let rows = stable_sort_by(found.map_values(record_view()), own_rank());
        lemma_stable_sort_map(found, record_view(), rank_of::<KeyRecord>(), own_rank());
        lemma_stable_sort(found.map_values(record_view()), own_rank());
        assert(sorted@.map_values(record_view()) == rows);
        assert forall|i: int| 0 <= i < rows.len() implies (#[trigger] rows[i]).0
            <= rows.last().0 by {
            if i < rows.len() - 1 {
                assert(!rank_lt(own_rank()(rows[rows.len() - 1]), own_rank()(rows[i])));
            }
        }
    }
    let total = sorted.len();
    if total <= keep_count {
        let keys: Vec<String> = Vec::new();
        assert(encoded(keys@) =~= keys_of(sorted@.map_values(record_view()).take(0)));
        return DeletePlan { keys, latest: LatestUpdate::Keep };
    }
    let excess = total - keep_count;
    let latest = if keep_count > 0 {
        LatestUpdate::Put(sorted[total - 1].timestamp)
    } else {
        LatestUpdate::Remove
    };
    let keys = first_keys(&sorted, excess);
    proof {
        let rows = sorted@.map_values(record_view());
        assert(rows.len() == total);
        assert(rows.last() == sorted@[total - 1]@);
    }
    DeletePlan { keys, latest }
}

/// How `older` and `newest_kept` take one more row.
proof fn lemma_age_step(rows: Seq<(int, Seq<u8>)>, i: int, cutoff: int)
    requires
        0 <= i < rows.len(),
    ensures
        older(rows.take(i + 1), cutoff) == if rows[i].0 < cutoff {
            older(rows.take(i), cutoff).push(rows[i])
        } else {
            older(rows.take(i), cutoff)
        },
        newest_kept(rows.take(i + 1), cutoff) == if rows[i].0 < cutoff {
            newest_kept(rows.take(i), cutoff)
        } else {
            match newest_kept(rows.take(i), cutoff) {
                Some(best) => if rows[i].0 > best {
                    Some(rows[i].0)
                } else {
                    Some(best)
                },
                None => Some(rows[i].0),
            }
        },
        latest_row(rows.take(i + 1)) == match latest_row(rows.take(i)) {
            Some(best) => if best.0 <= rows[i].0 {
                Some(rows[i])
            } else {
                Some(best)
            },
            None => Some(rows[i]),
        },
{
    assert(rows.take(i + 1).drop_last() =~= rows.take(i));
    assert(rows.take(i + 1).last() == rows[i]);
}

/// Plans the age pass of retention for one agent: every row with a
/// timestamp below `before_ts` is deleted, in the order of the scans, and
/// no other.
///
/// The entry of `agent_latest` is set to the greatest timestamp that
/// remains, or removed where no row remains.
pub fn delete_before_timestamp(
    agent_id: &str,
    range_keys: &Vec<String>,
    legacy_keys: &Vec<String>,
    before_ts: i64,
) -> (plan: DeletePlan)
    ensures
        ({
            let rows = agent_rows(
                encode_utf8(agent_id@),
                encoded(range_keys@),
                encoded(legacy_keys@),
            );
            &&& plan.doomed() == keys_of(older(rows, before_ts as int))
            &&& plan.latest == match newest_kept(rows, before_ts as int) {
                Some(best) => LatestUpdate::Put(best as i64),
                None => LatestUpdate::Remove,
            }
        }),
{
    let records = collect_rows(agent_id, range_keys, legacy_keys);
    let ghost rows = records@.map_values(record_view());
    let mut keys: Vec<String> = Vec::new();
    let mut newest: Option<i64> = None;
    let mut i: usize = 0;
    assert(rows.take(0) =~= Seq::<(int, Seq<u8>)>::empty());
    assert(encoded(keys@) =~= keys_of(older(rows.take(0), before_ts as int)));
    while i < records.len()
        invariant
            i <= records.len(),
            rows.len() == records@.len(),
            forall|j: int| 0 <= j < rows.len() ==> #[trigger] rows[j] == records@[j]@,
            encoded(keys@) == keys_of(older(rows.take(i as int), before_ts as int)),
            newest_kept(rows.take(i as int), before_ts as int) == match newest {
                Some(best) => Some(best as int),
                None => None::<int>,
            },
        decreases records.len() - i,
    {
        let ghost before = keys@;
        proof {
            lemma_age_step(rows, i as int, before_ts as int);
            assert(rows[i as int] == records@[i as int]@);
        }
        let ts = records[i].timestamp;
        if ts < before_ts {
            keys.push(records[i].key.clone());
            proof {
                assert(encoded(keys@) =~= encoded(before).push(rows[i as int].1));
                assert(keys_of(older(rows.take(i as int), before_ts as int).push(rows[i as int]))
                    =~= keys_of(older(rows.take(i as int), before_ts as int)).push(
                    rows[i as int].1,
                ));
            }
        } else {
            newest = match newest {
                Some(best) => if ts > best {
                    Some(ts)
                } else {
                    Some(best)
                },
                None => Some(ts),
            };
        }
        i += 1;
    }
    proof {
        assert(rows.take(records@.len() as int) =~= rows);
    }
    let latest = match newest {
        Some(best) => LatestUpdate::Put(best),
        None => LatestUpdate::Remove,
    };
    DeletePlan { keys, latest }
}

/// Picks the row that holds the agent's latest sample: of the rows the two
/// scans have met, the one with the greatest timestamp, and the last of
/// them where several share it. Returns its key, or `None` where the agent
/// has no row.
pub fn get_latest_metrics(agent_id: &str, range_keys: &Vec<String>, legacy_keys: &Vec<String>)
    -> (key: Option<String>)
    ensures
        ({
            let rows = agent_rows(
                encode_utf8(agent_id@),
                encoded(range_keys@),
                encoded(legacy_keys@),
            );
            match key {
                Some(found) => match latest_row(rows) {
                    Some(row) => row.1 == encode_utf8(found@),
                    None => false,
                },
                None => latest_row(rows) is None,
            }
        }),
{
    let records = collect_rows(agent_id, range_keys, legacy_keys);
    let ghost rows = records@.map_values(record_view());
    let mut best: Option<usize> = None;
    let mut i: usize = 0;
    assert(rows.take(0) =~= Seq::<(int, Seq<u8>)>::empty());
    while i < records.len()
        invariant
            i <= records.len(),
            rows == records@.map_values(record_view()),
            match best {
                Some(at) => at < i && latest_row(rows.take(i as int)) == Some(rows[at as int]),
                None => latest_row(rows.take(i as int)) is None,
            },
        decreases records.len() - i,
    {
        proof {
            lemma_age_step(rows, i as int, 0);
            assert(rows[i as int] == records@[i as int]@);
            if best is Some {
                assert(rows[best->0 as int] == records@[best->0 as int]@);
            }
        }
        best = match best {
            Some(at) => if records[at].timestamp <= records[i].timestamp {
                Some(i)
            } else {
                Some(at)
            },
            None => Some(i),
        };
        i += 1;
    }
    proof {
        assert(rows.take(records@.len() as int) =~= rows);
    }
    match best {
        Some(at) => Some(records[at].key.clone()),
        None => None,
    }
}

/// Turns rows into rows that rank by time alone.
fn by_time(records: Vec<KeyRecord>) -> (timed: Vec<TimedKey>)
    ensures
        timed@.map_values(timed_view()) == records@.map_values(record_view()),
{
    let ghost orig = records@;
    let mut stack = reversed(records);
    let mut timed: Vec<TimedKey> = Vec::new();
    while stack.len() > 0
        invariant
            stack@.len() + timed@.len() == orig.len(),
            forall|i: int| 0 <= i < stack@.len() ==> stack@[i] == orig[orig.len() - 1 - i],
            forall|i: int| 0 <= i < timed@.len() ==> (#[trigger] timed@[i])@ == orig[i]@,
        decreases stack@.len(),
    {
        let record = stack.pop().unwrap();
        timed.push(TimedKey { timestamp: record.timestamp, key: record.key });
    }
    assert(timed@.map_values(timed_view()) =~= orig.map_values(record_view()));
    timed
}

/// Picks the rows that hold the agent's latest `limit` samples: the rows
/// the two scans have met are put in the order of their timestamps, rows of
/// one timestamp staying in the order of the scans, and the last `limit` of
/// them are taken. Returns their keys in that order.
pub fn query_latest_by_agent(
    agent_id: &str,
    range_keys: &Vec<String>,
    legacy_keys: &Vec<String>,
    limit: usize,
) -> (keys: Vec<String>)
    ensures
        encoded(keys@) == keys_of(
            last_n(
                stable_sort_by(
                    agent_rows(
                        encode_utf8(agent_id@),
                        encoded(range_keys@),
                        encoded(legacy_keys@),
                    ),
                    time_rank(),
                ),
                limit as int,
            ),
        ),
        keys@.len() <= limit,
{
    let records = collect_rows(agent_id, range_keys, legacy_keys);
    let ghost rows = records@.map_values(record_view());
    let timed = by_time(records);
    let ghost found = timed@;
    let sorted = sort_by_rank(timed);
    proof {
        lemma_stable_sort_map(found, timed_view(), rank_of::<TimedKey>(), time_rank());
        lemma_stable_sort(rows, time_rank());
    }
    let kept = keep_last(sorted, limit);
    let mut keys: Vec<String> = Vec::new();
    let mut i: usize = 0;
    while i < kept.len()
        invariant
            i <= kept.len(),
            keys@.len() == i,
            forall|j: int| 0 <= j < i ==> (#[trigger] keys@[j])@ == kept@[j].key@,
        decreases kept.len() - i,
    {
        keys.push(kept[i].key.clone());
        i += 1;
    }
    proof {
        let chosen = last_n(stable_sort_by(rows, time_rank()), limit as int);
        assert(kept@.map_values(timed_view()) =~= chosen);
        assert(encoded(keys@) =~= keys_of(chosen));
    }
    keys
}

/// An agent of a batch and the greatest timestamp that the batch holds for
/// it.
#[derive(Debug)]
pub struct LatestCandidate {
    pub agent_id: String,
    pub timestamp: i64,
}

/// `at` is the index of the first candidate for the agent.
pub open spec fn candidate_at(candidates: Seq<(Seq<char>, int)>, agent: Seq<char>, at: int)
    -> bool {
    &&& 0 <= at < candidates.len()
    &&& candidates[at].0 == agent
    &&& forall|j: int| 0 <= j < at ==> (#[trigger] candidates[j]).0 != agent
}

/// For each agent of a batch the greatest timestamp that the batch holds
/// for it, the agents in the order in which the batch first names them.
pub open spec fn newest_per_agent(batch: Seq<SampleView>) -> Seq<(Seq<char>, int)>
    decreases batch.len(),
{
    if batch.len() == 0 {
        Seq::empty()
    } else {
        let head = newest_per_agent(batch.drop_last());
        let sample = batch.last();
        if exists|at: int| candidate_at(head, sample.agent_id, at) {
            let at = choose|at: int| candidate_at(head, sample.agent_id, at);
            if sample.timestamp > head[at].1 {
                head.update(at, (sample.agent_id, sample.timestamp))
            } else {
                head
            }
        } else {
            head.push((sample.agent_id, sample.timestamp))
        }
    }
}

/// How `newest_per_agent` takes one more sample: the first candidate of the
/// sample's agent rises to the sample's timestamp if that is greater, and
/// where there is no such candidate one is added.
proof fn lemma_newest_step(batch: Seq<SampleView>)
    requires
        batch.len() > 0,
    ensures
        ({
            let head = newest_per_agent(batch.drop_last());
            let now = newest_per_agent(batch);
            let sample = batch.last();
            if exists|at: int| candidate_at(head, sample.agent_id, at) {
                let at = choose|at: int| candidate_at(head, sample.agent_id, at);
                &&& 0 <= at < head.len()
                &&& head[at].0 == sample.agent_id
                &&& now.len() == head.len()
                &&& now[at] == (
                    sample.agent_id,
                    if sample.timestamp > head[at].1 {
                        sample.timestamp
                    } else {
                        head[at].1
                    },
                )
                &&& forall|i: int| 0 <= i < head.len() && i != at ==> #[trigger] now[i] == head[i]
            } else {
                &&& now == head.push((sample.agent_id, sample.timestamp))
                &&& forall|i: int| 0 <= i < head.len() ==> (#[trigger] head[i]).0 != sample.agent_id
            }
        }),
{
    let head = newest_per_agent(batch.drop_last());
    let sample = batch.last();
    if exists|at: int| candidate_at(head, sample.agent_id, at) {
        let at = choose|at: int| candidate_at(head, sample.agent_id, at);
        assert(candidate_at(head, sample.agent_id, at));
    } else {
        assert forall|i: int| 0 <= i < head.len() implies (#[trigger] head[i]).0
            != sample.agent_id by {
            if head[i].0 == sample.agent_id {
                lemma_first_candidate(head, sample.agent_id, i);
            }
        }
    }
}

/// No two candidates name one agent.
pub proof fn lemma_candidates_distinct(batch: Seq<SampleView>, i: int, j: int)
    requires
        0 <= i < j < newest_per_agent(batch).len(),
    ensures
        newest_per_agent(batch)[i].0 != newest_per_agent(batch)[j].0,
    decreases batch.len(),
{
    if batch.len() > 0 {
        let head = newest_per_agent(batch.drop_last());
        let now = newest_per_agent(batch);
        lemma_newest_step(batch);
        if j < head.len() {
            lemma_candidates_distinct(batch.drop_last(), i, j);
            assert(now[i].0 == head[i].0);
            assert(now[j].0 == head[j].0);
        } else {
            assert(now[i] == head[i]);
        }
    }
}

/// For every sample of the batch there is a candidate of its agent, with a
/// timestamp that is not smaller.
pub proof fn lemma_candidates_cover(batch: Seq<SampleView>, k: int) -> (i: int)
    requires
        0 <= k < batch.len(),
    ensures
        0 <= i < newest_per_agent(batch).len(),
        newest_per_agent(batch)[i].0 == batch[k].agent_id,
        batch[k].timestamp <= newest_per_agent(batch)[i].1,
    decreases batch.len(),
{
    let head = newest_per_agent(batch.drop_last());
    let now = newest_per_agent(batch);
    let sample = batch.last();
    lemma_newest_step(batch);
    if k < batch.len() - 1 {
        let i = lemma_candidates_cover(batch.drop_last(), k);
        assert(batch.drop_last()[k] == batch[k]);
        assert(now[i].0 == head[i].0 && now[i].1 >= head[i].1);
        i
    } else if exists|at: int| candidate_at(head, sample.agent_id, at) {
        choose|at: int| candidate_at(head, sample.agent_id, at)
    } else {
        head.len() as int
    }
}

/// Every candidate holds the agent and the timestamp of a sample of the
/// batch.
pub proof fn lemma_candidates_attained(batch: Seq<SampleView>, i: int) -> (k: int)
    requires
        0 <= i < newest_per_agent(batch).len(),
    ensures
        0 <= k < batch.len(),
        batch[k].agent_id == newest_per_agent(batch)[i].0,
        batch[k].timestamp == newest_per_agent(batch)[i].1,
    decreases batch.len(),
{
    let head = newest_per_agent(batch.drop_last());
    let now = newest_per_agent(batch);
    let sample = batch.last();
    lemma_newest_step(batch);
    if i < head.len() && now[i] == head[i] {
        let k = lemma_candidates_attained(batch.drop_last(), i);
        assert(batch.drop_last()[k] == batch[k]);
        k
    } else {
        batch.len() - 1
    }
}

/// Where a candidate names the agent, one is the first to do so.
proof fn lemma_first_candidate(candidates: Seq<(Seq<char>, int)>, agent: Seq<char>, i: int)
    requires
        0 <= i < candidates.len(),
        candidates[i].0 == agent,
    ensures
        exists|at: int| candidate_at(candidates, agent, at),
    decreases i,
{
    if forall|j: int| 0 <= j < i ==> (#[trigger] candidates[j]).0 != agent {
        assert(candidate_at(candidates, agent, i));
    } else {
        let j = choose|j: int| 0 <= j < i && (#[trigger] candidates[j]).0 == agent;
        lemma_first_candidate(candidates, agent, j);
    }
}

/// What the candidates hold.
pub open spec fn candidate_views(candidates: Seq<LatestCandidate>) -> Seq<(Seq<char>, int)> {
    Seq::new(candidates.len(), |i: int| (candidates[i].agent_id@, candidates[i].timestamp as int))
}

/// What one transaction writes for a batch of samples.
#[derive(Debug)]
pub struct FlushPlan {
    /// The key under which each sample of the batch is inserted into
    /// `metrics`, in the order of the batch.
    pub keys: Vec<String>,
    /// For each agent of the batch the timestamp to hold against its entry
    /// of `agent_latest`; see `should_update_latest`.
    pub latest: Vec<LatestCandidate>,
}

impl FlushPlan {
    /// Whether there is nothing to write, so that no transaction is opened.
    pub fn is_empty(&self) -> (empty: bool)
        ensures
            empty == (self.keys@.len() == 0),
    {
        self.keys.len() == 0
    }
}

/// Each key is the key of the sample at its index, made at the given clock
/// reading with the sequence number that many steps behind the first.
pub open spec fn keys_made_at(
    keys: Seq<String>,
    metrics: Seq<Sample>,
    now_nanos: nat,
    first_seq: nat,
) -> bool {
    &&& keys.len() == metrics.len()
    &&& forall|i: int|
        0 <= i < metrics.len() ==> encode_utf8((#[trigger] keys[i])@) == key_bytes(
            encode_utf8(metrics[i].agent_id@),
            metrics[i].timestamp as int,
            now_nanos,
            next_seq(first_seq, i as nat),
        )
}

/// The sequence number that lies `steps` behind `seq`; after the greatest
/// number the count begins again at zero.
pub open spec fn next_seq(seq: nat, steps: nat) -> nat {
    (seq + steps) % 0x1_0000_0000_0000_0000
}

/// The rules of the persistent store, and the sequence number that makes
/// keys of one process differ.
#[derive(Debug)]
pub struct PersistStorage {
    next_seq: u64,
}

impl PersistStorage {
    /// The sequence number of the next key.
    pub closed spec fn sequence(&self) -> nat {
        self.next_seq as nat
    }

    /// A store that has made no key yet.
    pub fn new() -> (store: PersistStorage)
        ensures
            store.sequence() == 0,
    {
        PersistStorage { next_seq: 0 }
    }

    /// The sequence number of the next key.
    pub fn next_sequence(&self) -> (seq: u64)
        ensures
            seq == self.sequence(),
    {
        self.next_seq
    }

    /// Makes the key of a new row and moves the sequence number on.
    pub fn make_key(&mut self, agent_id: &str, timestamp: i64, now_nanos: u128) -> (key: String)
        ensures
            encode_utf8(key@) == key_bytes(
                encode_utf8(agent_id@),
                timestamp as int,
                now_nanos as nat,
                old(self).sequence(),
            ),
            final(self).sequence() == next_seq(old(self).sequence(), 1),
    {
        let key = make_key(agent_id, timestamp, now_nanos, self.next_seq);
        self.next_seq = if self.next_seq == u64::MAX {
            0
        } else {
            self.next_seq + 1
        };
        key
    }

    /// Reads agent id and timestamp from a key.
    pub fn parse_key<'a>(key: &'a str) -> (parsed: Option<(&'a str, i64)>)
        ensures
            match parsed {
                Some((agent, ts)) => parse_key_spec(encode_utf8(key@)) == Some(
                    (encode_utf8(agent@), ts as int),
                ),
                None => parse_key_spec(encode_utf8(key@)) is None,
            },
    {
        parse_key(key)
    }

    /// Builds the bounds of the scan over one agent's rows.
    pub fn make_key_range(agent_id: &str) -> (bounds: (String, String))
        ensures
            encode_utf8(bounds.0@) == crate::key::range_start(encode_utf8(agent_id@)),
            encode_utf8(bounds.1@) == crate::key::range_end(encode_utf8(agent_id@)),
    {
        crate::key::make_key_range(agent_id)
    }

    /// Plans the transaction that writes a batch, with keys made by the
    /// wall clock as it is now: see `flush_batch_at`.
    pub fn flush_batch(&mut self, metrics: &Vec<Sample>) -> (plan: FlushPlan)
        ensures
            plan.keys@.len() == metrics@.len(),
            exists|now_nanos: nat|
                now_nanos <= u128::MAX && #[trigger] keys_made_at(
                    plan.keys@,
                    metrics@,
                    now_nanos,
                    old(self).sequence(),
                ),
            forall|i: int, j: int|
                0 <= i < j < metrics@.len() ==> (#[trigger] plan.keys@[i])@ != (
                #[trigger] plan.keys@[j])@,
            final(self).sequence() == next_seq(old(self).sequence(), metrics@.len()),
            candidate_views(plan.latest@) == newest_per_agent(views(metrics@)),
    {
        let now_nanos = crate::clock::now_nanos();
        let ghost first = self.sequence();
        let plan = self.flush_batch_at(metrics, now_nanos);
        proof {
            assert(keys_made_at(plan.keys@, metrics@, now_nanos as nat, first));
        }
        plan
    }

    /// Plans the transaction that writes a batch: a fresh key for each
    /// sample, no two of them equal, and for each agent of the batch the
    /// greatest timestamp that the batch holds for it. An empty batch gives
    /// an empty plan.
    pub fn flush_batch_at(&mut self, metrics: &Vec<Sample>, now_nanos: u128) -> (plan: FlushPlan)
        ensures
            plan.keys@.len() == metrics@.len(),
            forall|i: int|
                0 <= i < metrics@.len() ==> encode_utf8((#[trigger] plan.keys@[i])@) == key_bytes(
                    encode_utf8(metrics@[i].agent_id@),
                    metrics@[i].timestamp as int,
                    now_nanos as nat,
                    next_seq(old(self).sequence(), i as nat),
                ),
            forall|i: int, j: int|
                0 <= i < j < metrics@.len() ==> (#[trigger] plan.keys@[i])@ != (
                #[trigger] plan.keys@[j])@,
            final(self).sequence() == next_seq(old(self).sequence(), metrics@.len()),
            candidate_views(plan.latest@) == newest_per_agent(views(metrics@)),
    {
        let ghost first = self.sequence();
        let mut keys: Vec<String> = Vec::new();
        let mut latest: Vec<LatestCandidate> = Vec::new();
        let mut i: usize = 0;
        assert(views(metrics@).take(0) =~= Seq::<SampleView>::empty());
        assert(candidate_views(latest@) =~= newest_per_agent(views(metrics@).take(0)));
        while i < metrics.len()
            invariant
                i <= metrics.len(),
                keys@.len() == i,
                self.sequence() == next_seq(first, i as nat),
                forall|k: int|
                    0 <= k < i ==> encode_utf8((#[trigger] keys@[k])@) == key_bytes(
                        encode_utf8(metrics@[k].agent_id@),
                        metrics@[k].timestamp as int,
                        now_nanos as nat,
                        next_seq(first, k as nat),
                    ),
                candidate_views(latest@) == newest_per_agent(views(metrics@).take(i as int)),
            decreases metrics.len() - i,
        {
            let sample = &metrics[i];
            let key = self.make_key(sample.agent_id.as_str(), sample.timestamp, now_nanos);
            keys.push(key);
            proof {
                assert(views(metrics@).take(i as int + 1).drop_last() =~= views(metrics@).take(
                    i as int,
                ));
                assert(views(metrics@).take(i as int + 1).last() == sample@);
            }
            let ghost head = candidate_views(latest@);
            let mut at: usize = 0;
            while at < latest.len() && latest[at].agent_id != sample.agent_id
                invariant
                    at <= latest.len(),
                    head == candidate_views(latest@),
                    forall|j: int| 0 <= j < at ==> (#[trigger] head[j]).0 != sample.agent_id@,
                decreases latest.len() - at,
            {
                at += 1;
            }
            if at < latest.len() {
                proof {
                    assert(head[at as int].0 == sample.agent_id@);
                    assert(candidate_at(head, sample.agent_id@, at as int));
                    let chosen = choose|c: int| candidate_at(head, sample.agent_id@, c);
                    assert(chosen == at);
                }
                if sample.timestamp > latest[at].timestamp {
                    let agent_id = sample.agent_id.clone();
                    latest.set(at, LatestCandidate { agent_id, timestamp: sample.timestamp });
                    assert(candidate_views(latest@) =~= head.update(
                        at as int,
                        (sample.agent_id@, sample.timestamp as int),
                    ));
                }
            } else {
                proof {
                    assert forall|c: int| !candidate_at(head, sample.agent_id@, c) by {
                        if 0 <= c < head.len() {
                            assert(head[c].0 != sample.agent_id@);
                        }
                    }
                }
                let agent_id = sample.agent_id.clone();
                latest.push(LatestCandidate { agent_id, timestamp: sample.timestamp });
                assert(candidate_views(latest@) =~= head.push(
                    (sample.agent_id@, sample.timestamp as int),
                ));
            }
            i += 1;
        }
        proof {
            assert(views(metrics@).take(metrics@.len() as int) =~= views(metrics@));
            assert forall|a: int, b: int| 0 <= a < b < metrics@.len() implies (#[trigger] keys@[a])@
                != (#[trigger] keys@[b])@ by {
                lemma_keys_differ(
                    encode_utf8(metrics@[a].agent_id@),
                    metrics@[a].timestamp as int,
                    encode_utf8(metrics@[b].agent_id@),
                    metrics@[b].timestamp as int,
                    now_nanos as nat,
                    next_seq(first, a as nat),
                    now_nanos as nat,
                    next_seq(first, b as nat),
                );
            }
        }
        FlushPlan { keys, latest }
    }
}

} // verus!
