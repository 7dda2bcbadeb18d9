//! The ingest endpoints: how the server is set up, and what it answers to
//! a report, to a stream of reports and to a heartbeat.

use vstd::prelude::*;
use vstd::string::*;
use crate::config::StorageConfig;
use crate::storage::StorageError;

verus! {

/// Directory whose presence makes the server persist its samples.
pub const DATA_DIR: &'static str = "/var/lib/iris";

/// Path of the database of a server that persists its samples.
pub const DB_PATH: &'static str = "/var/lib/iris/metrics.redb";

/// Capacity of the channel that feeds the live subscribers.
pub const BROADCAST_CAPACITY: usize = 1000;

/// Seconds between two keep-alive messages to a live subscriber.
pub const KEEP_ALIVE_SECS: u64 = 15;

/// What an agent is told whose report is committed.
pub const REPORT_RECEIVED: &'static str = "指标接收成功";

/// What an agent is told whose stream is set up.
pub const STREAM_ESTABLISHED: &'static str = "流式连接已建立";

/// The answer to a report.
#[derive(Debug, Clone, PartialEq, Eq)]
pub struct MetricsResponse {
    pub success: bool,
    pub message: String,
}

/// The answer to a heartbeat.
#[derive(Debug, Clone, Copy, PartialEq, Eq, Structural)]
pub struct HeartbeatResponse {
    pub alive: bool,
    /// The server's wall clock in milliseconds since the epoch.
    pub server_time: i64,
}

/// How the server is set up.
#[derive(Debug, Clone)]
pub struct ProbeServer {
    /// The options of its storage.
    pub config: StorageConfig,
}

impl ProbeServer {
    /// The server for this host: it persists its samples where the data
    /// directory exists, and keeps them in memory only where it does not.
    pub fn new(data_dir_exists: bool) -> (server: ProbeServer)
        ensures
            match server.config.db_path {
                Some(path) => data_dir_exists && path@ == DB_PATH@,
                None => !data_dir_exists,
            },
            server.config.cache_size_per_agent == 100,
            server.config.batch_valid(),
            server.config.cleanup_valid(),
            server.config.enable_cleanup,
    {
        if data_dir_exists {
            ProbeServer::with_db_path(DB_PATH)
        } else {
            ProbeServer::memory_only()
        }
    }

    /// A server that persists its samples to the database at the given
    /// path, with the default options otherwise.
    pub fn with_db_path(db_path: &str) -> (server: ProbeServer)
        ensures
            match server.config.db_path {
                Some(path) => path@ == db_path@,
                None => false,
            },
            server.config.cache_size_per_agent == 100,
            server.config.batch_valid(),
            server.config.cleanup_valid(),
            server.config.enable_cleanup,
    {
        let defaults = StorageConfig::default();
        ProbeServer {
            config: StorageConfig { db_path: Some(String::from_str(db_path)), ..defaults },
        }
    }

    /// A server that keeps its samples in memory only, with the default
    /// options otherwise.
    pub fn memory_only() -> (server: ProbeServer)
        ensures
            server.config.db_path is None,
            server.config.cache_size_per_agent == 100,
            server.config.batch_valid(),
            server.config.cleanup_valid(),
            server.config.enable_cleanup,
    {
        ProbeServer { config: StorageConfig::default() }
    }

    /// The port of the read API: the port behind that of the ingest
    /// endpoints. There is none behind the last port.
    pub fn http_port(grpc_port: u16) -> (port: Option<u16>)
        ensures
            port == if grpc_port < u16::MAX {
                Some((grpc_port + 1) as u16)
            } else {
                None::<u16>
            },
    {
        if grpc_port < u16::MAX {
            Some(grpc_port + 1)
        } else {
            None
        }
    }

    /// The answer to a report whose sample was saved: success where the
    /// sample is committed, and otherwise the error, which the caller
    /// reports as an internal failure.
    pub fn report_metrics(saved: Result<(), StorageError>) -> (answer: Result<
        MetricsResponse,
        StorageError,
    >)
        ensures
            match saved {
                Ok(_) => answer is Ok && answer->Ok_0.success && answer->Ok_0.message@
                    == REPORT_RECEIVED@,
                Err(error) => answer == Err::<MetricsResponse, StorageError>(error),
            },
    {
        match saved {
            Ok(_) => Ok(
                MetricsResponse { success: true, message: String::from_str(REPORT_RECEIVED) },
            ),
            Err(error) => Err(error),
        }
    }

    /// The answer to an agent that opens a stream of reports. It is given
    /// when the stream is set up, before any sample is read. The stream
    /// then goes on until the agent ends it, whether its samples are
    /// committed or not: a sample that could not be committed is the
    /// agent's to send again.
    pub fn stream_metrics() -> (answer: MetricsResponse)
        ensures
            answer.success,
            answer.message@ == STREAM_ESTABLISHED@,
    {
        MetricsResponse { success: true, message: String::from_str(STREAM_ESTABLISHED) }
    }

    /// The answer to a heartbeat at the given time.
    pub fn heartbeat(server_time: i64) -> (answer: HeartbeatResponse)
        ensures
            answer == (HeartbeatResponse { alive: true, server_time }),
    {
        HeartbeatResponse { alive: true, server_time }
    }
}

/// What the server knows of a stream of reports: the agent that sends it,
/// once the first sample has named it.
#[derive(Debug)]
pub struct StreamSession {
    agent_id: String,
}

impl StreamSession {
    /// The id of the agent of the stream; empty before the first sample.
    pub closed spec fn agent(&self) -> Seq<char> {
        self.agent_id@
    }

    /// A stream that has read no sample.
    pub fn new() -> (session: StreamSession)
        ensures
            session.agent() == Seq::<char>::empty(),
    {
        StreamSession { agent_id: String::new() }
    }

    /// Takes note of the agent of a sample. The first sample with an id
    /// names the agent of the stream; the result says whether this one
    /// did.
    pub fn note_agent(&mut self, agent_id: &str) -> (named: bool)
        ensures
            named == (old(self).agent().len() == 0),
            final(self).agent() == if named {
                agent_id@
            } else {
                old(self).agent()
            },
    {
        if self.agent_id.as_str().is_empty() {
            self.agent_id = String::from_str(agent_id);
            true
        } else {
            false
        }
    }

    /// The id of the agent of the stream.
    pub fn agent_id(&self) -> (agent_id: &str)
        ensures
            agent_id@ == self.agent(),
    {
        self.agent_id.as_str()
    }
}

} // verus!
