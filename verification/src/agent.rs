//! The agent's side: who the agent is, what it has sent, and how it reads
//! the memory table of the operating system.

use vstd::prelude::*;
use vstd::string::*;
use vstd::utf8::encode_utf8;
use crate::key::{all_decimal, decimal_value, lemma_decimal_value_grows};
use crate::sample::Sample;

verus! {

/// Seconds that the agent waits before it connects again after a failure.
pub const RECONNECT_DELAY_SECS: u64 = 3;

/// What the agent has sent and how often it has failed.
#[derive(Debug, Clone, Copy, PartialEq, Eq, Structural)]
pub struct AgentStats {
    /// Number of samples sent.
    pub metrics_sent: u64,
    /// Number of failures.
    pub errors_count: u64,
}

/// The count that follows `count`; the counter starts again at zero after
/// its greatest value.
pub open spec fn counted(count: u64) -> u64 {
    if count == u64::MAX {
        0
    } else {
        (count + 1) as u64
    }
}

impl AgentStats {
    /// Counters at zero.
    pub fn new() -> (stats: AgentStats)
        ensures
            stats.metrics_sent == 0,
            stats.errors_count == 0,
    {
        AgentStats { metrics_sent: 0, errors_count: 0 }
    }
}

/// Counts a sample as sent.
pub fn increment_metrics_sent(stats: &mut AgentStats)
    ensures
        final(stats).metrics_sent == counted(old(stats).metrics_sent),
        final(stats).errors_count == old(stats).errors_count,
{
    stats.metrics_sent = stats.metrics_sent.wrapping_add(1);
}

/// Counts a failure.
pub fn increment_errors(stats: &mut AgentStats)
    ensures
        final(stats).errors_count == counted(old(stats).errors_count),
        final(stats).metrics_sent == old(stats).metrics_sent,
{
    stats.errors_count = stats.errors_count.wrapping_add(1);
}

/// `hostname::get` of the `hostname` crate: the name of this host as the
/// operating system gives it, or `None` where it gives none or the name is
/// not Unicode. Nothing is claimed of the name.
#[verifier::external_body]
fn system_hostname() -> Option<String> {
    match hostname::get() {
        Ok(name) => name.into_string().ok(),
        Err(_) => None,
    }
}

/// The name by which a host goes: the name given, or `unknown` where none
/// is given.
pub fn hostname_or_unknown(name: Option<String>) -> (hostname: String)
    ensures
        hostname@ == match name {
            Some(given) => given@,
            None => "unknown"@,
        },
{
    match name {
        Some(given) => given,
        None => String::from_str("unknown"),
    }
}

/// The id of the agent on a host of the given name: `agent-` and the name.
pub fn agent_id_for(hostname: &str) -> (agent_id: String)
    ensures
        agent_id@ == "agent-"@ + hostname@,
{
    let mut agent_id = String::from_str("agent-");
    agent_id.append(hostname);
    agent_id
}

/// The id of the agent on this host: `agent-` and the name of the host,
/// `agent-unknown` where the host has no name.
pub fn generate_agent_id() -> (agent_id: String)
    ensures
        exists|hostname: Seq<char>| agent_id@ == "agent-"@ + hostname,
{
    let hostname = hostname_or_unknown(system_hostname());
    agent_id_for(hostname.as_str())
}

/// The agent: who it is, where it reports to, and how often.
#[derive(Debug, Clone, PartialEq, Eq)]
pub struct Agent {
    pub agent_id: String,
    pub hostname: String,
    pub server_addr: String,
    /// Seconds between two reports.
    pub interval_secs: u64,
}

impl Agent {
    /// An agent that reports to the given server. The host name is the
    /// override where one is given, otherwise the name of this host, and
    /// `unknown` where the host has none.
    pub fn new(server_addr: String, interval_secs: u64, hostname_override: Option<String>) -> (agent:
        Agent)
        ensures
            agent.server_addr == server_addr,
            agent.interval_secs == interval_secs,
            hostname_override is Some ==> agent.hostname@ == hostname_override->0@,
            exists|hostname: Seq<char>| agent.agent_id@ == "agent-"@ + hostname,
    {
        let hostname = match hostname_override {
            Some(given) => given,
            None => hostname_or_unknown(system_hostname()),
        };
        Agent { agent_id: generate_agent_id(), hostname, server_addr, interval_secs }
    }

    /// The sample that the agent reports at the given time.
    pub fn report(&self, timestamp: i64, system: Option<Vec<u8>>) -> (sample: Sample)
        ensures
            sample.agent_id@ == self.agent_id@,
            sample.hostname@ == self.hostname@,
            sample.timestamp == timestamp,
            sample.system == system,
    {
        Sample {
            agent_id: self.agent_id.clone(),
            timestamp,
            hostname: self.hostname.clone(),
            system,
        }
    }

    /// What the agent does when a connection has ended: after a failure it
    /// counts the failure and waits before it connects again; after a
    /// connection that ended in order it connects again at once.
    pub fn after_stream(stats: &mut AgentStats, failed: bool) -> (wait_secs: u64)
        ensures
            wait_secs == if failed {
                RECONNECT_DELAY_SECS
            } else {
                0
            },
            final(stats).metrics_sent == old(stats).metrics_sent,
            final(stats).errors_count == if failed {
                counted(old(stats).errors_count)
            } else {
                old(stats).errors_count
            },
    {
        if failed {
            increment_errors(stats);
            RECONNECT_DELAY_SECS
        } else {
            0
        }
    }
}

/// Number of bytes of the white space character that begins at `at`, or
/// zero where none begins there. White space is what Unicode names so, in
/// its UTF-8 form.
pub open spec fn space_at(s: Seq<u8>, at: int) -> int {
    if at < 0 || at >= s.len() {
        0
    } else if 9 <= s[at] <= 13 || s[at] == 32 {
        1
    } else if at + 1 < s.len() && s[at] == 0xC2 && (s[at + 1] == 0x85 || s[at + 1] == 0xA0) {
        2
    } else if at + 2 < s.len() && s[at] == 0xE1 && s[at + 1] == 0x9A && s[at + 2] == 0x80 {
        3
    } else if at + 2 < s.len() && s[at] == 0xE2 && s[at + 1] == 0x80 && (0x80 <= s[at + 2] <= 0x8A
        || s[at + 2] == 0xA8 || s[at + 2] == 0xA9 || s[at + 2] == 0xAF) {
        3
    } else if at + 2 < s.len() && s[at] == 0xE2 && s[at + 1] == 0x81 && s[at + 2] == 0x9F {
        3
    } else if at + 2 < s.len() && s[at] == 0xE3 && s[at + 1] == 0x80 && s[at + 2] == 0x80 {
        3
    } else {
        0
    }
}

/// The first index at or behind `at` where no white space begins.
pub open spec fn skip_space(s: Seq<u8>, at: int) -> int
    decreases s.len() - at,
{
    if 0 <= at < s.len() && space_at(s, at) > 0 {
        skip_space(s, at + space_at(s, at))
    } else {
        at
    }
}

/// The first index at or behind `at` where white space begins, or the
/// length of the string.
pub open spec fn skip_word(s: Seq<u8>, at: int) -> int
    decreases s.len() - at,
{
    if 0 <= at < s.len() && space_at(s, at) == 0 {
        skip_word(s, at + 1)
    } else {
        at
    }
}

/// The second of the words that white space separates in a string.
pub open spec fn second_word(s: Seq<u8>) -> Option<Seq<u8>> {
    let first = skip_space(s, 0);
    let gap = skip_word(s, first);
    let second = skip_space(s, gap);
    let end = skip_word(s, second);
    if first >= s.len() || second >= s.len() {
        None
    } else {
        Some(s.subrange(second, end))
    }
}

/// What a string denotes as an unsigned 64-bit number: an optional plus
/// sign, then one or more decimal digits, the value within the range of
/// the type.
pub open spec fn parse_u64_spec(s: Seq<u8>) -> Option<int> {
    let body = if s.len() > 0 && s[0] == 43 {
        s.drop_first()
    } else {
        s
    };
    if body.len() > 0 && all_decimal(body) && decimal_value(body) <= u64::MAX {
        Some(decimal_value(body) as int)
    } else {
        None
    }
}

/// The bytes that a line of the memory table names: its second word read
/// as a number of kibibytes, times 1024, and the greatest number where the
/// product lies above it.
pub open spec fn meminfo_kib(line: Seq<u8>) -> Option<int> {
    match second_word(line) {
        Some(word) => match parse_u64_spec(word) {
            Some(kib) => if kib * 1024 > u64::MAX {
                Some(u64::MAX as int)
            } else {
                Some(kib * 1024)
            },
            None => None,
        },
        None => None,
    }
}

/// Number of bytes of the white space character that begins at `at`.
fn space_len(s: &[u8], at: usize) -> (len: usize)
    requires
        at < s@.len(),
    ensures
        len == space_at(s@, at as int),
        at + len <= s@.len(),
{
    let n = s.len();
    let b = s[at];
    if (9 <= b && b <= 13) || b == 32 {
        1
    } else if n - at > 1 && b == 0xC2 && (s[at + 1] == 0x85 || s[at + 1] == 0xA0) {
        2
    } else if n - at > 2 && b == 0xE1 && s[at + 1] == 0x9A && s[at + 2] == 0x80 {
        3
    } else if n - at > 2 && b == 0xE2 && s[at + 1] == 0x80 && ((0x80 <= s[at + 2] && s[at + 2]
        <= 0x8A) || s[at + 2] == 0xA8 || s[at + 2] == 0xA9 || s[at + 2] == 0xAF) {
        3
    } else if n - at > 2 && b == 0xE2 && s[at + 1] == 0x81 && s[at + 2] == 0x9F {
        3
    } else if n - at > 2 && b == 0xE3 && s[at + 1] == 0x80 && s[at + 2] == 0x80 {
        3
    } else {
        0
    }
}

/// The first index at or behind `at` where no white space begins.
fn after_space(s: &[u8], at: usize) -> (next: usize)
    requires
        at <= s@.len(),
    ensures
        next == skip_space(s@, at as int),
        at <= next <= s@.len(),
{
    let mut next: usize = at;
    loop
        invariant
            at <= next <= s@.len(),
            skip_space(s@, at as int) == skip_space(s@, next as int),
        ensures
            next == skip_space(s@, at as int),
            at <= next <= s@.len(),
        decreases s@.len() - next,
    {
        if next >= s.len() {
            break ;
        }
        let len = space_len(s, next);
        if len == 0 {
            break ;
        }
        next += len;
    }
    next
}

/// The first index at or behind `at` where white space begins.
fn after_word(s: &[u8], at: usize) -> (next: usize)
    requires
        at <= s@.len(),
    ensures
        next == skip_word(s@, at as int),
        at <= next <= s@.len(),
{
    let mut next: usize = at;
    loop
        invariant
            at <= next <= s@.len(),
            skip_word(s@, at as int) == skip_word(s@, next as int),
        ensures
            next == skip_word(s@, at as int),
            at <= next <= s@.len(),
        decreases s@.len() - next,
    {
        if next >= s.len() {
            break ;
        }
        let len = space_len(s, next);
        if len != 0 {
            break ;
        }
        next += 1;
    }
    next
}

/// Reads an unsigned 64-bit number.
pub fn parse_u64(s: &[u8]) -> (parsed: Option<u64>)
    ensures
        match parsed {
            Some(value) => parse_u64_spec(s@) == Some(value as int),
            None => parse_u64_spec(s@) is None,
        },
{
    let n = s.len();
    if n == 0 {
        return None;
    }
    let start: usize = if s[0] == 43 {
        1
    } else {
        0
    };
    if start == n {
        return None;
    }
    let ghost body = s@.subrange(start as int, n as int);
    proof {
        if start == 1 {
            assert(body =~= s@.drop_first());
        } else {
            assert(body =~= s@);
        }
    }
    let mut acc: u64 = 0;
    let mut i: usize = start;
    while i < n
        invariant
            start <= i <= n,
            n == s.len(),
            n > 0,
            body == s@.subrange(start as int, n as int),
            body == if s@[0] == 43 {
                s@.drop_first()
            } else {
                s@
            },
            all_decimal(body.take(i - start)),
            acc == decimal_value(body.take(i - start)),
        decreases n - i,
    {
        let byte = s[i];
        if byte < 48 || byte > 57 {
            assert(body[i - start] == byte);
            return None;
        }
        let digit: u64 = (byte - 48) as u64;
        proof {
            assert(body.take(i - start + 1).drop_last() =~= body.take(i - start));
            assert(body.take(i - start + 1).last() == byte);
            assert forall|j: int| 0 <= j < i - start + 1 implies 48 <= #[trigger] body.take(
                i - start + 1,
            )[j] <= 57 by {
                if j < i - start {
                    assert(body.take(i - start)[j] == body.take(i - start + 1)[j]);
                }
            }
        }
        if acc > (u64::MAX - digit) / 10 {
            proof {
                if all_decimal(body) {
                    lemma_decimal_value_grows(body, i - start + 1);
                }
            }
            return None;
        }
        acc = acc * 10 + digit;
        i += 1;
    }
    proof {
        assert(body.take(n - start) =~= body);
    }
    Some(acc)
}

/// The bytes that a line of the memory table names.
fn kib_of_line(line: &[u8]) -> (bytes: Option<u64>)
    ensures
        match bytes {
            Some(value) => meminfo_kib(line@) == Some(value as int),
            None => meminfo_kib(line@) is None,
        },
{
    let first = after_space(line, 0);
    if first >= line.len() {
        return None;
    }
    let gap = after_word(line, first);
    let second = after_space(line, gap);
    if second >= line.len() {
        return None;
    }
    let end = after_word(line, second);
    let word = vstd::slice::slice_subrange(line, second, end);
    match parse_u64(word) {
        Some(kib) => if kib > u64::MAX / 1024 {
            Some(u64::MAX)
        } else {
            Some(kib * 1024)
        },
        None => None,
    }
}

/// The bytes that a line of the memory table names: the second word of
/// the line, a number of kibibytes, times 1024.
pub fn parse_meminfo_kib(line: &str) -> (bytes: Option<u64>)
    ensures
        match bytes {
            Some(value) => meminfo_kib(encode_utf8(line@)) == Some(value as int),
            None => meminfo_kib(encode_utf8(line@)) is None,
        },
{
    kib_of_line(line.as_bytes())
}

/// How the memory of a host is used, in bytes.
#[derive(Debug, Clone, Copy, PartialEq, Eq, Structural)]
pub struct MemoryInfo {
    pub total: u64,
    pub used: u64,
    pub available: u64,
    pub swap_total: u64,
    pub swap_used: u64,
}

/// The four numbers that the memory table is read for: total memory,
/// available memory, total swap and free swap.
#[derive(Debug, Clone, Copy, PartialEq, Eq, Structural)]
pub struct MemoryTable {
    pub total: u64,
    pub available: u64,
    pub swap_total: u64,
    pub swap_free: u64,
}

/// The index of the line feed that ends the line beginning at `at`, or the
/// length of the text.
pub open spec fn line_end(text: Seq<u8>, at: int) -> int
    decreases text.len() - at,
{
    if 0 <= at < text.len() && text[at] != 10 {
        line_end(text, at + 1)
    } else {
        at
    }
}

/// What a line adds to the table: a line that begins with one of the four
/// labels sets that number. `None` where such a line names no number.
pub open spec fn with_line(table: MemoryTable, line: Seq<u8>) -> Option<MemoryTable> {
    if encode_utf8("MemTotal:"@).is_prefix_of(line) {
        match meminfo_kib(line) {
            Some(value) => Some(MemoryTable { total: value as u64, ..table }),
            None => None,
        }
    } else if encode_utf8("MemAvailable:"@).is_prefix_of(line) {
        match meminfo_kib(line) {
            Some(value) => Some(MemoryTable { available: value as u64, ..table }),
            None => None,
        }
    } else if encode_utf8("SwapTotal:"@).is_prefix_of(line) {
        match meminfo_kib(line) {
            Some(value) => Some(MemoryTable { swap_total: value as u64, ..table }),
            None => None,
        }
    } else if encode_utf8("SwapFree:"@).is_prefix_of(line) {
        match meminfo_kib(line) {
            Some(value) => Some(MemoryTable { swap_free: value as u64, ..table }),
            None => None,
        }
    } else {
        Some(table)
    }
}

/// The table after the lines of the text from `at` on, each line ending at
/// a line feed or at the end of the text.
pub open spec fn with_lines(table: MemoryTable, text: Seq<u8>, at: int) -> Option<MemoryTable>
    decreases text.len() + 1 - at,
{
    if 0 <= at < text.len() {
        let end = line_end(text, at);
        if at <= end <= text.len() {
            match with_line(table, text.subrange(at, end)) {
                Some(next) => with_lines(next, text, end + 1),
                None => None,
            }
        } else {
            None
        }
    } else {
        Some(table)
    }
}

/// The difference of two numbers, and zero where the second is greater.
pub open spec fn less(a: u64, b: u64) -> u64 {
    if a >= b {
        (a - b) as u64
    } else {
        0
    }
}

/// How the memory is used according to the text of the memory table: the
/// numbers of the last lines with the four labels, a number that no line
/// names counting as zero. `None` where a line with a label names no
/// number, and where the total is zero.
pub open spec fn meminfo_of(text: Seq<u8>) -> Option<MemoryInfo> {
    let start = MemoryTable { total: 0, available: 0, swap_total: 0, swap_free: 0 };
    match with_lines(start, text, 0) {
        Some(table) => if table.total == 0 {
            None
        } else {
            Some(
                MemoryInfo {
                    total: table.total,
                    used: less(table.total, table.available),
                    available: table.available,
                    swap_total: table.swap_total,
                    swap_used: less(table.swap_total, table.swap_free),
                },
            )
        },
        None => None,
    }
}

/// A line never ends before it begins nor behind the text.
proof fn lemma_line_end(text: Seq<u8>, at: int)
    requires
        0 <= at <= text.len(),
    ensures
        at <= line_end(text, at) <= text.len(),
    decreases text.len() - at,
{
    if at < text.len() && text[at] != 10 {
        lemma_line_end(text, at + 1);
    }
}

/// Tests whether a line begins with a label.
fn begins_with(line: &[u8], label: &str) -> (begins: bool)
    ensures
        begins == encode_utf8(label@).is_prefix_of(line@),
{
    let prefix = label.as_bytes();
    if prefix.len() > line.len() {
        return false;
    }
    let head = vstd::slice::slice_subrange(line, 0, prefix.len());
    crate::text::bytes_eq(head, prefix)
}

/// What a line adds to the table.
fn add_line(table: MemoryTable, line: &[u8]) -> (next: Option<MemoryTable>)
    ensures
        next == with_line(table, line@),
{
    if begins_with(line, "MemTotal:") {
        match kib_of_line(line) {
            Some(value) => Some(MemoryTable { total: value, ..table }),
            None => None,
        }
    } else if begins_with(line, "MemAvailable:") {
        match kib_of_line(line) {
            Some(value) => Some(MemoryTable { available: value, ..table }),
            None => None,
        }
    } else if begins_with(line, "SwapTotal:") {
        match kib_of_line(line) {
            Some(value) => Some(MemoryTable { swap_total: value, ..table }),
            None => None,
        }
    } else if begins_with(line, "SwapFree:") {
        match kib_of_line(line) {
            Some(value) => Some(MemoryTable { swap_free: value, ..table }),
            None => None,
        }
    } else {
        Some(table)
    }
}

/// Reads how the memory of the host is used from the text of the memory
/// table of the operating system.
pub fn parse_meminfo(content: &str) -> (info: Option<MemoryInfo>)
    ensures
        info == meminfo_of(encode_utf8(content@)),
{
    let text = content.as_bytes();
    let ghost start = MemoryTable { total: 0, available: 0, swap_total: 0, swap_free: 0 };
    let mut table = MemoryTable { total: 0, available: 0, swap_total: 0, swap_free: 0 };
    let mut at: usize = 0;
    while at < text.len()
        invariant
            at <= text@.len(),
            text@ == encode_utf8(content@),
            start == (MemoryTable { total: 0, available: 0, swap_total: 0, swap_free: 0 }),
            with_lines(start, text@, 0) == with_lines(table, text@, at as int),
        decreases text@.len() - at,
    {
        let mut end: usize = at;
        while end < text.len() && text[end] != 10
            invariant
                at <= end <= text@.len(),
                line_end(text@, at as int) == line_end(text@, end as int),
            decreases text@.len() - end,
        {
            end += 1;
        }
        let line = vstd::slice::slice_subrange(text, at, end);
        proof {
            assert(line_end(text@, end as int) == end);
            assert(line_end(text@, at as int) == end);
            assert(with_lines(table, text@, at as int) == match with_line(
                table,
                text@.subrange(at as int, end as int),
            ) {
                Some(next) => with_lines(next, text@, end + 1),
                None => None,
            });
        }
        match add_line(table, line) {
            Some(next) => {
                table = next;
            },
            None => {
                return None;
            },
        }
        at = if end < text.len() {
            end + 1
        } else {
            end
        };
    }
    if table.total == 0 {
        None
    } else {
        Some(
            MemoryInfo {
                total: table.total,
                used: table.total.saturating_sub(table.available),
                available: table.available,
                swap_total: table.swap_total,
                swap_used: table.swap_total.saturating_sub(table.swap_free),
            },
        )
    }
}

} // verus!
