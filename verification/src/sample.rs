//! The unit of ingest: one metric sample of one agent.

use vstd::prelude::*;
use vstd::utf8::encode_utf8;
use crate::key::SEPARATOR;
use crate::text::{find_first, lacks};

verus! {

/// One report of an agent.
///
/// The storage core reads the agent id and the timestamp. It carries the
/// host name and the system metrics, the latter as the bytes in which the
/// caller encoded them.
#[derive(Debug, Clone, PartialEq, Eq)]
pub struct Sample {
    /// Id of the reporting agent.
    pub agent_id: String,
    /// Time of the report in milliseconds since the epoch. Several samples
    /// of one agent may share it.
    pub timestamp: i64,
    /// Name of the reporting host.
    pub hostname: String,
    /// The encoded system metrics, if the report holds any.
    pub system: Option<Vec<u8>>,
}

/// What a sample holds.
pub struct SampleView {
    pub agent_id: Seq<char>,
    pub timestamp: int,
    pub hostname: Seq<char>,
    pub system: Option<Seq<u8>>,
}

impl View for Sample {
    type V = SampleView;

    open spec fn view(&self) -> SampleView {
        SampleView {
            agent_id: self.agent_id@,
            timestamp: self.timestamp as int,
            hostname: self.hostname@,
            system: match self.system {
                Some(bytes) => Some(bytes@),
                None => None,
            },
        }
    }
}

/// What each sample of a sequence holds.
pub open spec fn views(samples: Seq<Sample>) -> Seq<SampleView> {
    Seq::new(samples.len(), |i: int| samples[i]@)
}

/// What a sample holds, as a function.
pub open spec fn view_of() -> spec_fn(Sample) -> SampleView {
    |sample: Sample| sample@
}

/// The rank of what a sample holds: its timestamp alone.
pub open spec fn view_rank() -> spec_fn(SampleView) -> (int, Seq<u8>) {
    |held: SampleView| (held.timestamp, Seq::<u8>::empty())
}

/// The timestamp of each sample of a sequence.
pub open spec fn timestamps(samples: Seq<Sample>) -> Seq<int> {
    Seq::new(samples.len(), |i: int| samples[i].timestamp as int)
}

/// An agent id is a non-empty string without the separator byte.
pub open spec fn valid_agent_id(id: Seq<u8>) -> bool {
    id.len() > 0 && lacks(id, SEPARATOR)
}

/// Tests whether a string can serve as an agent id.
pub fn is_valid_agent_id(id: &str) -> (valid: bool)
    ensures
        valid == valid_agent_id(encode_utf8(id@)),
{
    let bytes = id.as_bytes();
    bytes.len() > 0 && find_first(bytes, SEPARATOR).is_none()
}

/// Copies a byte string.
pub fn copy_bytes(bytes: &Vec<u8>) -> (copy: Vec<u8>)
    ensures
        copy@ == bytes@,
{
    let mut copy: Vec<u8> = Vec::new();
    let mut i: usize = 0;
    while i < bytes.len()
        invariant
            i <= bytes.len(),
            copy@ == bytes@.subrange(0, i as int),
        decreases bytes.len() - i,
    {
        copy.push(bytes[i]);
        assert(copy@ =~= bytes@.subrange(0, i as int + 1));
        i += 1;
    }
    assert(bytes@.subrange(0, bytes@.len() as int) =~= bytes@);
    copy
}

impl Sample {
    /// A sample of the given agent and time.
    pub fn new(agent_id: String, timestamp: i64, hostname: String, system: Option<Vec<u8>>) -> (sample: Sample)
        ensures
            sample.agent_id == agent_id,
            sample.timestamp == timestamp,
            sample.hostname == hostname,
            sample.system == system,
    {
        Sample { agent_id, timestamp, hostname, system }
    }

    /// A copy that holds what this sample holds.
    pub fn duplicate(&self) -> (copy: Sample)
        ensures
            copy@ == self@,
    {
        let system = match &self.system {
            Some(bytes) => Some(copy_bytes(bytes)),
            None => None,
        };
        Sample {
            agent_id: self.agent_id.clone(),
            timestamp: self.timestamp,
            hostname: self.hostname.clone(),
            system,
        }
    }

    /// Tests whether two samples hold the same.
    pub fn same_as(&self, other: &Sample) -> (same: bool)
        ensures
            same == (self@ == other@),
    {
        if self.timestamp != other.timestamp {
            return false;
        }
        if self.agent_id != other.agent_id {
            return false;
        }
        if self.hostname != other.hostname {
            return false;
        }
        match (&self.system, &other.system) {
            (Some(a), Some(b)) => {
                let same = crate::text::bytes_eq(a.as_slice(), b.as_slice());
                same
            },
            (None, None) => true,
            _ => false,
        }
    }
}

/// Copies a run of samples.
pub fn duplicate_all(samples: &Vec<Sample>) -> (copies: Vec<Sample>)
    ensures
        views(copies@) == views(samples@),
{
    let mut copies: Vec<Sample> = Vec::new();
    let mut i: usize = 0;
    while i < samples.len()
        invariant
            i <= samples.len(),
            copies@.len() == i,
            forall|j: int| 0 <= j < i ==> copies@[j]@ == samples@[j]@,
        decreases samples.len() - i,
    {
        copies.push(samples[i].duplicate());
        i += 1;
    }
    assert(views(copies@) =~= views(samples@));
    copies
}

} // verus!
