use std::collections::VecDeque;

use iris::cleanup::{CleanupStep, CleanupTask};
use iris::config::StorageConfig;
use iris::persist::{
    decode_latest, delete_before_timestamp, delete_old_records, encode_latest,
    get_latest_metrics, query_latest_by_agent, row_of, should_update_latest, DeletePlan,
    LatestUpdate, PersistStorage,
};
use iris::sample::Sample;
use iris::storage::{
    merge_history, AckOutcome, Enqueue, HistoryLookup, LatestLookup, SendOutcome, ShutdownStep,
    Storage, StorageError,
};
use iris::writer::{BatchWriter, WriteRequest};
use redb::{Database, ReadableTable, TableDefinition};

const METRICS_TABLE: TableDefinition<&str, &[u8]> = TableDefinition::new("metrics");
const AGENT_LATEST_TABLE: TableDefinition<&str, &[u8]> = TableDefinition::new("agent_latest");

fn create_test_metrics(agent_id: &str, timestamp: i64) -> Sample {
    Sample {
        agent_id: agent_id.to_string(),
        timestamp,
        hostname: "test-host".to_string(),
        system: Some(vec![1, 2, 3, 4, 5, 6, 7, 8]),
    }
}

fn encode_row(sample: &Sample) -> Vec<u8> {
    let mut bytes = Vec::new();
    bytes.extend_from_slice(&(sample.hostname.len() as u32).to_be_bytes());
    bytes.extend_from_slice(sample.hostname.as_bytes());
    match &sample.system {
        Some(system) => {
            bytes.push(1);
            bytes.extend_from_slice(system);
        }
        None => bytes.push(0),
    }
    bytes
}

fn decode_row(agent_id: &str, timestamp: i64, bytes: &[u8]) -> Sample {
    let len = u32::from_be_bytes([bytes[0], bytes[1], bytes[2], bytes[3]]) as usize;
    let hostname = String::from_utf8(bytes[4..4 + len].to_vec()).unwrap();
    let system = if bytes[4 + len] == 1 {
        Some(bytes[5 + len..].to_vec())
    } else {
        None
    };
    Sample { agent_id: agent_id.to_string(), timestamp, hostname, system }
}

/// The store as a caller of the library drives it: the scans and the
/// transactions are the store's, every decision is the library's.
struct Store {
    db: Database,
    rules: PersistStorage,
}

impl Store {
    fn open(path: &std::path::Path) -> Store {
        let db = Database::create(path).unwrap();
        let txn = db.begin_write().unwrap();
        {
            let _ = txn.open_table(METRICS_TABLE).unwrap();
            let _ = txn.open_table(AGENT_LATEST_TABLE).unwrap();
        }
        txn.commit().unwrap();
        Store { db, rules: PersistStorage::new() }
    }

    fn flush_batch(&mut self, metrics: &Vec<Sample>) -> Result<(), StorageError> {
        let plan = self.rules.flush_batch(metrics);
        if plan.is_empty() {
            return Ok(());
        }
        let txn = self.db.begin_write().map_err(|_| StorageError::TransientIo)?;
        {
            let mut rows = txn.open_table(METRICS_TABLE).map_err(|_| StorageError::TransientIo)?;
            let mut latest =
                txn.open_table(AGENT_LATEST_TABLE).map_err(|_| StorageError::TransientIo)?;
            for (key, sample) in plan.keys.iter().zip(metrics.iter()) {
                let value = encode_row(sample);
                rows.insert(key.as_str(), value.as_slice())
                    .map_err(|_| StorageError::TransientIo)?;
            }
            for candidate in &plan.latest {
                let existing = latest
                    .get(candidate.agent_id.as_str())
                    .map_err(|_| StorageError::TransientIo)?
                    .map(|guard| guard.value().to_vec());
                if should_update_latest(existing.as_deref(), candidate.timestamp) {
                    let bytes = encode_latest(candidate.timestamp);
                    latest
                        .insert(candidate.agent_id.as_str(), bytes.as_slice())
                        .map_err(|_| StorageError::TransientIo)?;
                }
            }
        }
        txn.commit().map_err(|_| StorageError::TransientIo)?;
        Ok(())
    }

    fn range_keys(&self, agent_id: &str) -> Vec<String> {
        let (start, end) = PersistStorage::make_key_range(agent_id);
        let txn = self.db.begin_read().unwrap();
        let table = txn.open_table(METRICS_TABLE).unwrap();
        let mut keys = Vec::new();
        for item in table.range(start.as_str()..end.as_str()).unwrap() {
            let (key, _) = item.unwrap();
            keys.push(key.value().to_string());
        }
        keys
    }

    fn legacy_keys(&self, agent_id: &str) -> Vec<String> {
        let txn = self.db.begin_read().unwrap();
        let table = txn.open_table(METRICS_TABLE).unwrap();
        let mut keys = Vec::new();
        for item in table.iter().unwrap() {
            let (key, _) = item.unwrap();
            if row_of(agent_id, key.value(), true).is_some() {
                keys.push(key.value().to_string());
            }
        }
        keys
    }

    fn all_keys(&self) -> Vec<String> {
        let txn = self.db.begin_read().unwrap();
        let table = txn.open_table(METRICS_TABLE).unwrap();
        let mut keys = Vec::new();
        for item in table.iter().unwrap() {
            let (key, _) = item.unwrap();
            keys.push(key.value().to_string());
        }
        keys
    }

    fn read_row(&self, key: &str) -> Sample {
        let txn = self.db.begin_read().unwrap();
        let table = txn.open_table(METRICS_TABLE).unwrap();
        let value = table.get(key).unwrap().unwrap();
        let (agent_id, timestamp) = PersistStorage::parse_key(key).unwrap();
        decode_row(agent_id, timestamp, value.value())
    }

    fn insert_raw(&mut self, key: &str, sample: &Sample) {
        let txn = self.db.begin_write().unwrap();
        {
            let mut rows = txn.open_table(METRICS_TABLE).unwrap();
            rows.insert(key, encode_row(sample).as_slice()).unwrap();
        }
        txn.commit().unwrap();
    }

    fn get_latest_metrics(&self, agent_id: &str) -> Option<Sample> {
        let range = self.range_keys(agent_id);
        let legacy = self.legacy_keys(agent_id);
        get_latest_metrics(agent_id, &range, &legacy).map(|key| self.read_row(&key))
    }

    fn query_latest_by_agent(&self, agent_id: &str, limit: usize) -> Vec<Sample> {
        let range = self.range_keys(agent_id);
        let legacy = self.legacy_keys(agent_id);
        query_latest_by_agent(agent_id, &range, &legacy, limit)
            .iter()
            .map(|key| self.read_row(key))
            .collect()
    }

    fn query_by_agent(&self, agent_id: &str, start_ts: i64, end_ts: i64) -> Vec<Sample> {
        let mut results = self.query_latest_by_agent(agent_id, usize::MAX);
        results.retain(|m| m.timestamp >= start_ts && m.timestamp <= end_ts);
        results
    }

    fn get_agent_latest_timestamp(&self, agent_id: &str) -> Option<i64> {
        self.get_latest_metrics(agent_id).map(|m| m.timestamp)
    }

    fn get_all_agent_ids(&self) -> Vec<String> {
        let txn = self.db.begin_read().unwrap();
        let table = txn.open_table(AGENT_LATEST_TABLE).unwrap();
        let mut ids = Vec::new();
        for item in table.iter().unwrap() {
            let (key, _) = item.unwrap();
            ids.push(key.value().to_string());
        }
        ids
    }

    fn agent_latest(&self, agent_id: &str) -> Option<i64> {
        let txn = self.db.begin_read().unwrap();
        let table = txn.open_table(AGENT_LATEST_TABLE).unwrap();
        let entry = table.get(agent_id).unwrap();
        entry.map(|guard| decode_latest(guard.value()).unwrap())
    }

    fn carry_out(&mut self, agent_id: &str, plan: &DeletePlan) -> usize {
        for index in 0..plan.chunk_count() {
            let txn = self.db.begin_write().unwrap();
            {
                let mut rows = txn.open_table(METRICS_TABLE).unwrap();
                for key in plan.chunk(index) {
                    rows.remove(key.as_str()).unwrap();
                }
            }
            txn.commit().unwrap();
        }
        match plan.latest {
            LatestUpdate::Keep => {}
            LatestUpdate::Put(timestamp) => {
                let txn = self.db.begin_write().unwrap();
                {
                    let mut latest = txn.open_table(AGENT_LATEST_TABLE).unwrap();
                    latest.insert(agent_id, encode_latest(timestamp).as_slice()).unwrap();
                }
                txn.commit().unwrap();
            }
            LatestUpdate::Remove => {
                let txn = self.db.begin_write().unwrap();
                {
                    let mut latest = txn.open_table(AGENT_LATEST_TABLE).unwrap();
                    latest.remove(agent_id).unwrap();
                }
                txn.commit().unwrap();
            }
        }
        plan.deleted()
    }

    fn delete_old_records(&mut self, agent_id: &str, keep_count: usize) -> usize {
        let range = self.range_keys(agent_id);
        let legacy = self.legacy_keys(agent_id);
        let plan = delete_old_records(agent_id, &range, &legacy, keep_count);
        self.carry_out(agent_id, &plan)
    }

    fn delete_before_timestamp(&mut self, before_ts: i64) -> usize {
        let mut total = 0;
        for agent_id in self.get_all_agent_ids() {
            let range = self.range_keys(&agent_id);
            let legacy = self.legacy_keys(&agent_id);
            let plan = delete_before_timestamp(&agent_id, &range, &legacy, before_ts);
            total += self.carry_out(&agent_id, &plan);
        }
        total
    }

    fn run_cleanup(&mut self, task: &CleanupTask, now_secs: i64) {
        let ids = self.get_all_agent_ids();
        let mut pass = match task.begin_pass(Some(ids)) {
            Some(pass) => pass,
            None => return,
        };
        loop {
            match pass.next_step(task.is_running(), now_secs) {
                CleanupStep::DeleteOldest { agent_id, keep_count } => {
                    let deleted = self.delete_old_records(&agent_id, keep_count);
                    pass.record_oldest(Some(deleted));
                }
                CleanupStep::DeleteBefore { cutoff } => {
                    let deleted = self.delete_before_timestamp(cutoff);
                    pass.record_before(Some(deleted));
                }
                CleanupStep::Finished(_) | CleanupStep::Stopped => return,
            }
        }
    }
}

fn temp_store() -> (tempfile::TempDir, Store) {
    let dir = tempfile::tempdir().unwrap();
    let store = Store::open(&dir.path().join("test.db"));
    (dir, store)
}

#[test]
fn test_persist_batch() {
    let (_dir, mut storage) = temp_store();

    let metrics = vec![
        create_test_metrics("agent-1", 1000),
        create_test_metrics("agent-1", 2000),
        create_test_metrics("agent-2", 1500),
    ];
    storage.flush_batch(&metrics).unwrap();

    let result = storage.query_by_agent("agent-1", 0, 9999);
    assert_eq!(result.len(), 2);

    let latest_ts = storage.get_agent_latest_timestamp("agent-1").unwrap();
    assert_eq!(latest_ts, 2000);
}

#[test]
fn test_persist_query_range() {
    let (_dir, mut storage) = temp_store();

    let metrics = vec![
        create_test_metrics("agent-1", 1000),
        create_test_metrics("agent-1", 2000),
        create_test_metrics("agent-1", 3000),
    ];
    storage.flush_batch(&metrics).unwrap();

    let result = storage.query_by_agent("agent-1", 1500, 2500);
    assert_eq!(result.len(), 1);
    assert_eq!(result[0].timestamp, 2000);
}

#[test]
fn test_persist_empty_batch() {
    let (_dir, mut storage) = temp_store();
    storage.flush_batch(&vec![]).unwrap();
    assert!(storage.all_keys().is_empty());
    assert!(storage.get_all_agent_ids().is_empty());
}

#[test]
fn test_persist_update_existing() {
    let (_dir, mut storage) = temp_store();

    storage.flush_batch(&vec![create_test_metrics("agent-1", 1000)]).unwrap();
    storage.flush_batch(&vec![create_test_metrics("agent-1", 1000)]).unwrap();

    let result = storage.query_by_agent("agent-1", 0, 9999);
    assert_eq!(result.len(), 2);
}

#[test]
fn test_persist_query_nonexistent_agent() {
    let (_dir, storage) = temp_store();
    let result = storage.query_by_agent("nonexistent", 0, 9999);
    assert!(result.is_empty());
}

#[test]
fn test_persist_get_latest_nonexistent() {
    let (_dir, storage) = temp_store();
    let result = storage.get_agent_latest_timestamp("nonexistent");
    assert!(result.is_none());
}

#[test]
fn test_persist_multiple_batches() {
    let (_dir, mut storage) = temp_store();

    for i in 0..10 {
        storage.flush_batch(&vec![create_test_metrics("agent-1", i * 1000)]).unwrap();
    }

    let result = storage.query_by_agent("agent-1", 0, 99999);
    assert_eq!(result.len(), 10);

    let latest = storage.get_agent_latest_timestamp("agent-1").unwrap();
    assert_eq!(latest, 9000);
}

#[test]
fn test_persist_key_format() {
    let (_dir, mut storage) = temp_store();

    let special_ids = ["agent-1", "agent_2", "agent.3", "agent:4"];

    for (i, id) in special_ids.iter().enumerate() {
        storage.flush_batch(&vec![create_test_metrics(id, (i as i64) * 1000)]).unwrap();
    }

    for (i, id) in special_ids.iter().enumerate() {
        let result = storage.query_by_agent(id, 0, 99999);
        assert_eq!(result.len(), 1, "Failed for agent_id: {}", id);
        assert_eq!(result[0].timestamp, (i as i64) * 1000);
    }
}

#[test]
fn test_persist_large_data() {
    let (_dir, mut storage) = temp_store();

    let metrics: Vec<_> = (0..1000).map(|i| create_test_metrics("agent-1", i as i64)).collect();
    storage.flush_batch(&metrics).unwrap();

    let result = storage.query_by_agent("agent-1", 0, 2000);
    assert_eq!(result.len(), 1000);
}

#[test]
fn test_persist_concurrent_writes() {
    let (_dir, mut storage) = temp_store();

    for i in 0..10 {
        let metrics: Vec<_> =
            (0..100).map(|j| create_test_metrics(&format!("agent-{}", i), j as i64)).collect();
        storage.flush_batch(&metrics).unwrap();
    }

    for i in 0..10 {
        let result = storage.query_by_agent(&format!("agent-{}", i), 0, 200);
        assert_eq!(result.len(), 100, "Failed for agent-{}", i);
    }
}

#[test]
fn test_persist_concurrent_reads() {
    let (_dir, mut storage) = temp_store();

    let metrics: Vec<_> = (0..100).map(|i| create_test_metrics("agent-1", i as i64)).collect();
    storage.flush_batch(&metrics).unwrap();

    for _ in 0..10 {
        let count = storage.query_by_agent("agent-1", 0, 100).len();
        assert_eq!(count, 100);
    }
}

#[test]
fn test_persist_timestamp_ordering() {
    let (_dir, mut storage) = temp_store();

    let timestamps = vec![5000, 1000, 3000, 4000, 2000];
    for ts in &timestamps {
        storage.flush_batch(&vec![create_test_metrics("agent-1", *ts)]).unwrap();
    }

    let result = storage.query_by_agent("agent-1", 0, 10000);
    assert_eq!(result.len(), 5);

    let mut result_timestamps: Vec<i64> = result.iter().map(|m| m.timestamp).collect();
    assert_eq!(result_timestamps, vec![1000, 2000, 3000, 4000, 5000]);
    result_timestamps.sort_unstable();
    assert_eq!(result_timestamps, vec![1000, 2000, 3000, 4000, 5000]);
}

#[test]
fn test_persist_reopen_database() {
    let dir = tempfile::tempdir().unwrap();
    let path = dir.path().join("test.db");

    {
        let mut storage = Store::open(&path);
        storage.flush_batch(&vec![create_test_metrics("agent-1", 1000)]).unwrap();
    }

    let storage = Store::open(&path);
    let result = storage.query_by_agent("agent-1", 0, 9999);
    assert_eq!(result.len(), 1);
    assert_eq!(result[0].timestamp, 1000);
    assert_eq!(result[0], create_test_metrics("agent-1", 1000));
}

#[test]
fn test_get_all_agent_ids() {
    let (_dir, mut storage) = temp_store();

    let ids = storage.get_all_agent_ids();
    assert!(ids.is_empty());

    let metrics = vec![
        create_test_metrics("agent-a", 1000),
        create_test_metrics("agent-b", 2000),
        create_test_metrics("agent-c", 3000),
    ];
    storage.flush_batch(&metrics).unwrap();

    let mut ids = storage.get_all_agent_ids();
    ids.sort();
    assert_eq!(ids, vec!["agent-a", "agent-b", "agent-c"]);
}

#[test]
fn test_delete_old_records() {
    let (_dir, mut storage) = temp_store();

    let metrics: Vec<_> = (1..=5).map(|i| create_test_metrics("agent-1", i * 1000)).collect();
    storage.flush_batch(&metrics).unwrap();

    let deleted = storage.delete_old_records("agent-1", 2);
    assert_eq!(deleted, 3);

    let remaining = storage.query_by_agent("agent-1", 0, 99999);
    assert_eq!(remaining.len(), 2);
    assert_eq!(remaining[0].timestamp, 4000);
    assert_eq!(remaining[1].timestamp, 5000);
}

#[test]
fn test_delete_old_records_keep_more_than_exists() {
    let (_dir, mut storage) = temp_store();

    let metrics: Vec<_> = (1..=3).map(|i| create_test_metrics("agent-1", i * 1000)).collect();
    storage.flush_batch(&metrics).unwrap();

    let deleted = storage.delete_old_records("agent-1", 10);
    assert_eq!(deleted, 0);

    let remaining = storage.query_by_agent("agent-1", 0, 99999);
    assert_eq!(remaining.len(), 3);
}

#[test]
fn test_delete_before_timestamp() {
    let (_dir, mut storage) = temp_store();

    let metrics = vec![
        create_test_metrics("agent-1", 1000),
        create_test_metrics("agent-1", 2000),
        create_test_metrics("agent-1", 3000),
        create_test_metrics("agent-2", 1500),
        create_test_metrics("agent-2", 2500),
    ];
    storage.flush_batch(&metrics).unwrap();

    let deleted = storage.delete_before_timestamp(2000);
    assert_eq!(deleted, 2);

    let r1 = storage.query_by_agent("agent-1", 0, 99999);
    assert_eq!(r1.len(), 2);
    assert_eq!(r1[0].timestamp, 2000);
    assert_eq!(r1[1].timestamp, 3000);

    let r2 = storage.query_by_agent("agent-2", 0, 99999);
    assert_eq!(r2.len(), 1);
    assert_eq!(r2[0].timestamp, 2500);
}

#[test]
fn test_delete_before_timestamp_no_match() {
    let (_dir, mut storage) = temp_store();

    let metrics = vec![create_test_metrics("agent-1", 5000)];
    storage.flush_batch(&metrics).unwrap();

    let deleted = storage.delete_before_timestamp(1000);
    assert_eq!(deleted, 0);

    let remaining = storage.query_by_agent("agent-1", 0, 99999);
    assert_eq!(remaining.len(), 1);
}

#[test]
fn store_walks_the_keys_of_an_agent_in_the_order_of_writing() {
    let (_dir, mut storage) = temp_store();
    let stamps = [7i64, 3, 3, 9, 0, 3, 7];
    for (i, ts) in stamps.iter().enumerate() {
        let mut sample = create_test_metrics("agent-1", *ts);
        sample.hostname = format!("write-{}", i);
        storage.flush_batch(&vec![sample]).unwrap();
    }
    let keys = storage.range_keys("agent-1");
    assert_eq!(keys.len(), stamps.len());
    let walked: Vec<(i64, String)> = keys
        .iter()
        .map(|key| {
            let row = storage.read_row(key);
            (row.timestamp, row.hostname)
        })
        .collect();
    let expected: Vec<(i64, String)> = vec![
        (0, "write-4".to_string()),
        (3, "write-1".to_string()),
        (3, "write-2".to_string()),
        (3, "write-5".to_string()),
        (7, "write-0".to_string()),
        (7, "write-6".to_string()),
        (9, "write-3".to_string()),
    ];
    assert_eq!(walked, expected);
}

#[test]
fn scan_over_one_agent_meets_no_row_of_another() {
    let (_dir, mut storage) = temp_store();
    let agents = ["a", "ab", "a-b", "b", "a:1"];
    for (i, agent) in agents.iter().enumerate() {
        for ts in 0..3 {
            storage.flush_batch(&vec![create_test_metrics(agent, ts + i as i64)]).unwrap();
        }
    }
    for agent in agents {
        let keys = storage.range_keys(agent);
        assert_eq!(keys.len(), 3);
        for key in keys {
            assert_eq!(PersistStorage::parse_key(&key).unwrap().0, agent);
        }
    }
}

#[test]
fn two_saves_of_one_sample_give_two_rows() {
    let (_dir, mut storage) = temp_store();
    let sample = create_test_metrics("agent-1", 1000);
    storage.flush_batch(&vec![sample.clone(), sample.clone()]).unwrap();
    storage.flush_batch(&vec![sample.clone()]).unwrap();
    let rows = storage.query_latest_by_agent("agent-1", 10);
    assert_eq!(rows, vec![sample.clone(), sample.clone(), sample]);
    assert_eq!(storage.all_keys().len(), 3);
}

#[test]
fn flush_moves_the_latest_entry_only_forward() {
    let (_dir, mut storage) = temp_store();
    storage
        .flush_batch(&vec![
            create_test_metrics("agent-1", 3000),
            create_test_metrics("agent-1", 5000),
            create_test_metrics("agent-1", 4000),
            create_test_metrics("agent-2", -7),
        ])
        .unwrap();
    assert_eq!(storage.agent_latest("agent-1"), Some(5000));
    assert_eq!(storage.agent_latest("agent-2"), Some(-7));
    storage.flush_batch(&vec![create_test_metrics("agent-1", 100)]).unwrap();
    assert_eq!(storage.agent_latest("agent-1"), Some(5000));
    storage.flush_batch(&vec![create_test_metrics("agent-1", 5001)]).unwrap();
    assert_eq!(storage.agent_latest("agent-1"), Some(5001));
    assert_eq!(storage.agent_latest("agent-3"), None);
}

#[test]
fn delete_oldest_keeps_the_smaller_of_cap_and_count() {
    for count in 0..7i64 {
        for keep in 0..8usize {
            let (_dir, mut storage) = temp_store();
            let metrics: Vec<_> =
                (1..=count).map(|i| create_test_metrics("agent-1", i * 10)).collect();
            storage.flush_batch(&metrics).unwrap();
            storage.flush_batch(&vec![create_test_metrics("other", 1)]).unwrap();

            let deleted = storage.delete_old_records("agent-1", keep);
            let remaining = storage.query_by_agent("agent-1", i64::MIN, i64::MAX);
            let kept = (count as usize).min(keep);
            assert_eq!(remaining.len(), kept);
            assert_eq!(deleted, count as usize - kept);
            let expected: Vec<i64> = ((count - kept as i64 + 1)..=count).map(|i| i * 10).collect();
            let stamps: Vec<i64> = remaining.iter().map(|m| m.timestamp).collect();
            assert_eq!(stamps, expected);
            if count == 0 {
                assert_eq!(storage.agent_latest("agent-1"), None);
            } else if kept == 0 {
                assert_eq!(storage.agent_latest("agent-1"), None);
            } else {
                assert_eq!(storage.agent_latest("agent-1"), Some(count * 10));
            }
            assert_eq!(storage.query_by_agent("other", i64::MIN, i64::MAX).len(), 1);
            assert_eq!(storage.agent_latest("other"), Some(1));
        }
    }
}

#[test]
fn delete_before_leaves_no_older_row_and_a_fitting_latest() {
    for cutoff in [i64::MIN, -5, 0, 15, 20, 21, 45, 1000, i64::MAX] {
        let (_dir, mut storage) = temp_store();
        let stamps_a = [10i64, 20, 30, 40];
        let stamps_b = [-10i64, 45];
        for ts in stamps_a {
            storage.flush_batch(&vec![create_test_metrics("a", ts)]).unwrap();
        }
        for ts in stamps_b {
            storage.flush_batch(&vec![create_test_metrics("b", ts)]).unwrap();
        }
        let deleted = storage.delete_before_timestamp(cutoff);
        let left_a: Vec<i64> = stamps_a.iter().copied().filter(|ts| *ts >= cutoff).collect();
        let left_b: Vec<i64> = stamps_b.iter().copied().filter(|ts| *ts >= cutoff).collect();
        assert_eq!(deleted, 6 - left_a.len() - left_b.len());
        let rows_a: Vec<i64> =
            storage.query_by_agent("a", i64::MIN, i64::MAX).iter().map(|m| m.timestamp).collect();
        let rows_b: Vec<i64> =
            storage.query_by_agent("b", i64::MIN, i64::MAX).iter().map(|m| m.timestamp).collect();
        assert_eq!(rows_a, left_a);
        assert_eq!(rows_b, left_b);
        assert_eq!(storage.agent_latest("a"), left_a.last().copied());
        assert_eq!(storage.agent_latest("b"), left_b.last().copied());
        let mut listed = storage.get_all_agent_ids();
        listed.sort();
        let mut expected = Vec::new();
        if !left_a.is_empty() {
            expected.push("a".to_string());
        }
        if !left_b.is_empty() {
            expected.push("b".to_string());
        }
        assert_eq!(listed, expected);
    }
}

#[test]
fn deletions_go_in_chunks_of_ten_thousand() {
    let keys: Vec<String> =
        (0..25_000).map(|i| iris::key::make_key("agent-1", i as i64, 1, i as u64)).collect();
    let plan = delete_old_records("agent-1", &keys, &vec![], 0);
    assert_eq!(plan.deleted(), 25_000);
    assert_eq!(plan.chunk_count(), 3);
    assert_eq!(plan.chunk(0).len(), 10_000);
    assert_eq!(plan.chunk(1).len(), 10_000);
    assert_eq!(plan.chunk(2).len(), 5_000);
    assert_eq!(plan.chunk(0)[0], keys[0]);
    assert_eq!(plan.chunk(1)[0], keys[10_000]);
    assert_eq!(plan.chunk(2)[4_999], keys[24_999]);
    assert_eq!(plan.latest, LatestUpdate::Remove);

    let exact = delete_old_records("agent-1", &keys, &vec![], 5_000);
    assert_eq!(exact.deleted(), 20_000);
    assert_eq!(exact.chunk_count(), 2);
    assert_eq!(exact.chunk(1).len(), 10_000);
    assert_eq!(exact.latest, LatestUpdate::Put(24_999));

    let none = delete_old_records("agent-1", &keys, &vec![], 25_000);
    assert_eq!(none.deleted(), 0);
    assert_eq!(none.chunk_count(), 0);
    assert_eq!(none.latest, LatestUpdate::Keep);
}

#[test]
fn rows_of_the_first_layout_count_for_their_agent() {
    let (_dir, mut storage) = temp_store();
    storage.insert_raw("agent-1:500", &create_test_metrics("agent-1", 500));
    storage.insert_raw("agent-1:2500", &create_test_metrics("agent-1", 2500));
    storage.insert_raw("agent-2:9000", &create_test_metrics("agent-2", 9000));
    storage.flush_batch(&vec![create_test_metrics("agent-1", 1000)]).unwrap();
    storage.flush_batch(&vec![create_test_metrics("agent-1", 2000)]).unwrap();

    let rows: Vec<i64> =
        storage.query_latest_by_agent("agent-1", 10).iter().map(|m| m.timestamp).collect();
    assert_eq!(rows, vec![500, 1000, 2000, 2500]);
    assert_eq!(storage.get_agent_latest_timestamp("agent-1"), Some(2500));

    let deleted = storage.delete_old_records("agent-1", 2);
    assert_eq!(deleted, 2);
    let rows: Vec<i64> =
        storage.query_latest_by_agent("agent-1", 10).iter().map(|m| m.timestamp).collect();
    assert_eq!(rows, vec![2000, 2500]);
    assert_eq!(storage.agent_latest("agent-1"), Some(2500));
    assert_eq!(storage.query_latest_by_agent("agent-2", 10).len(), 1);
}

#[test]
fn latest_of_equal_timestamps_is_the_row_written_last() {
    let (_dir, mut storage) = temp_store();
    for name in ["first", "second", "third"] {
        let mut sample = create_test_metrics("agent-1", 1000);
        sample.hostname = name.to_string();
        storage.flush_batch(&vec![sample]).unwrap();
    }
    let mut older = create_test_metrics("agent-1", 999);
    older.hostname = "older".to_string();
    storage.flush_batch(&vec![older]).unwrap();
    assert_eq!(storage.get_latest_metrics("agent-1").unwrap().hostname, "third");
    let tail: Vec<String> =
        storage.query_latest_by_agent("agent-1", 2).into_iter().map(|m| m.hostname).collect();
    assert_eq!(tail, vec!["second".to_string(), "third".to_string()]);
    assert!(storage.query_latest_by_agent("agent-1", 0).is_empty());
}

#[test]
fn latest_entry_round_trips_through_eight_bytes() {
    for ts in [0i64, 1, -1, 255, 256, 1_700_000_000_000, i64::MAX, i64::MIN] {
        let bytes = encode_latest(ts);
        assert_eq!(bytes, ts.to_be_bytes().to_vec());
        assert_eq!(decode_latest(&bytes), Some(ts));
    }
    assert_eq!(decode_latest(&[0, 0, 0, 1]), None);
    assert_eq!(decode_latest(&[]), None);
    assert_eq!(decode_latest(&[0u8; 9]), None);
}

#[test]
fn latest_entry_moves_for_greater_timestamps_and_broken_entries() {
    let stored = encode_latest(1000);
    assert!(should_update_latest(None, -5));
    assert!(should_update_latest(Some(stored.as_slice()), 1001));
    assert!(!should_update_latest(Some(stored.as_slice()), 1000));
    assert!(!should_update_latest(Some(stored.as_slice()), 999));
    assert!(should_update_latest(Some(&[1, 2, 3]), i64::MIN));
}

/// The façade, the batch writer and the store, run in one thread: what the
/// tasks of a server do, one step at a time.
struct Engine {
    storage: Storage,
    writer: BatchWriter,
    store: Option<Store>,
    queue: VecDeque<WriteRequest>,
    channel_capacity: usize,
    answers: Vec<(u64, Result<(), StorageError>)>,
    next_ticket: u64,
    cleanup: Option<CleanupTask>,
    dropped: Vec<StorageError>,
}

impl Engine {
    fn with_config(config: StorageConfig) -> Engine {
        let store = config.db_path.as_ref().map(|path| Store::open(std::path::Path::new(path)));
        let storage = Storage::with_config(&config, store.is_some());
        let cleanup = if storage.is_cleanup_enabled() {
            Some(CleanupTask::new(config.clone()))
        } else {
            None
        };
        Engine {
            storage,
            writer: BatchWriter::new(config.batch_size),
            store,
            queue: VecDeque::new(),
            channel_capacity: config.channel_capacity,
            answers: Vec::new(),
            next_ticket: 0,
            cleanup,
            dropped: Vec::new(),
        }
    }

    fn flush(&mut self) {
        let result = self.store.as_mut().unwrap().flush_batch(self.writer.batch());
        let answers = self.writer.flushed(result);
        for ticket in answers.tickets {
            self.answers.push((ticket, answers.result));
        }
    }

    /// The writer takes what is on the queue.
    fn run_writer(&mut self) {
        while let Some(request) = self.queue.pop_front() {
            if self.writer.receive(request).is_some() {
                self.flush();
            }
        }
    }

    /// The batch timer ticks.
    fn tick(&mut self) {
        self.run_writer();
        if self.writer.tick().is_some() {
            self.flush();
        }
    }

    fn save_metrics(&mut self, metrics: &Sample) {
        match self.storage.save_metrics(metrics) {
            Enqueue::TrySend => {
                let sent = if self.queue.len() < self.channel_capacity {
                    self.queue.push_back(WriteRequest { metrics: metrics.clone(), ack: None });
                    SendOutcome::Sent
                } else {
                    SendOutcome::Full
                };
                if let Some(error) = Storage::async_result(sent) {
                    self.dropped.push(error);
                }
            }
            Enqueue::Closed => self.dropped.push(StorageError::Shutdown),
            _ => {}
        }
    }

    fn save_metrics_sync(&mut self, metrics: &Sample) -> Result<(), StorageError> {
        match self.storage.save_metrics_sync(metrics) {
            Enqueue::Stored => Ok(()),
            Enqueue::Closed => Storage::sync_result(SendOutcome::Closed, AckOutcome::Lost),
            _ => {
                if self.queue.len() >= self.channel_capacity {
                    self.run_writer();
                }
                let ticket = self.next_ticket;
                self.next_ticket += 1;
                self.queue
                    .push_back(WriteRequest { metrics: metrics.clone(), ack: Some(ticket) });
                self.run_writer();
                if !self.answers.iter().any(|(t, _)| *t == ticket) {
                    self.tick();
                }
                let answer = self
                    .answers
                    .iter()
                    .find(|(t, _)| *t == ticket)
                    .map(|(_, result)| match result {
                        Ok(()) => AckOutcome::Committed,
                        Err(error) => AckOutcome::Failed(*error),
                    })
                    .unwrap_or(AckOutcome::Lost);
                Storage::sync_result(SendOutcome::Sent, answer)
            }
        }
    }

    fn get_agent_latest(&self, agent_id: &str) -> Option<Sample> {
        match self.storage.get_agent_latest(agent_id) {
            LatestLookup::Found(sample) => Some(sample),
            LatestLookup::AskStore => self.store.as_ref().unwrap().get_latest_metrics(agent_id),
            LatestLookup::Absent => None,
        }
    }

    fn get_agent_history(&self, agent_id: &str, limit: usize) -> Vec<Sample> {
        match self.storage.get_agent_history(agent_id, limit) {
            HistoryLookup::Done(history) => history,
            HistoryLookup::AskStore(cached) => {
                let persisted = self.store.as_ref().unwrap().query_latest_by_agent(agent_id, limit);
                merge_history(cached, Some(persisted), limit)
            }
        }
    }

    fn get_all_agents(&self) -> Vec<String> {
        let persisted = self.store.as_ref().map(|store| store.get_all_agent_ids());
        self.storage.get_all_agents(persisted)
    }

    fn shutdown(&mut self) {
        for step in self.storage.shutdown() {
            match step {
                ShutdownStep::StopCleaner { wait_ms } => {
                    assert_eq!(wait_ms, 5000);
                    self.cleanup.as_ref().unwrap().stop();
                }
                ShutdownStep::CloseQueue => {}
                ShutdownStep::StopWriter { wait_ms } => {
                    assert_eq!(wait_ms, 10000);
                    self.run_writer();
                    if self.writer.close().is_some() {
                        self.flush();
                    }
                }
            }
        }
    }
}

fn persistent_config(dir: &tempfile::TempDir) -> StorageConfig {
    StorageConfig {
        db_path: Some(dir.path().join("test.db").to_str().unwrap().to_string()),
        enable_cleanup: false,
        ..Default::default()
    }
}

fn stamps(samples: &Vec<Sample>) -> Vec<i64> {
    samples.iter().map(|m| m.timestamp).collect()
}

#[test]
fn test_storage_write_and_read() {
    let dir = tempfile::tempdir().unwrap();
    let config = StorageConfig {
        cache_size_per_agent: 10,
        batch_size: 5,
        batch_timeout_ms: 100,
        channel_capacity: 100,
        ..persistent_config(&dir)
    };
    let mut storage = Engine::with_config(config);

    let metrics = create_test_metrics("agent-1", 1000);
    storage.save_metrics(&metrics);

    let latest = storage.get_agent_latest("agent-1");
    assert!(latest.is_some());
    assert_eq!(latest.unwrap().timestamp, 1000);

    storage.tick();

    let agents = storage.get_all_agents();
    assert_eq!(agents.len(), 1);
    assert!(agents.contains(&"agent-1".to_string()));
}

#[test]
fn test_storage_multiple_agents() {
    let dir = tempfile::tempdir().unwrap();
    let config = StorageConfig {
        cache_size_per_agent: 10,
        batch_size: 5,
        batch_timeout_ms: 100,
        channel_capacity: 100,
        ..persistent_config(&dir)
    };
    let mut storage = Engine::with_config(config);

    for i in 1..=5 {
        let metrics = create_test_metrics(&format!("agent-{}", i), i * 1000);
        storage.save_metrics(&metrics);
    }
    storage.tick();

    let agents = storage.get_all_agents();
    assert_eq!(agents.len(), 5);

    for i in 1..=5 {
        let agent_id = format!("agent-{}", i);
        let latest = storage.get_agent_latest(&agent_id);
        assert!(latest.is_some());
        assert_eq!(latest.unwrap().timestamp, i * 1000);
    }
}

#[test]
fn test_storage_history() {
    let dir = tempfile::tempdir().unwrap();
    let config = StorageConfig {
        cache_size_per_agent: 10,
        batch_size: 5,
        batch_timeout_ms: 100,
        channel_capacity: 100,
        ..persistent_config(&dir)
    };
    let mut storage = Engine::with_config(config);

    for i in 1..=10 {
        let metrics = create_test_metrics("agent-1", i * 1000);
        storage.save_metrics(&metrics);
    }
    storage.tick();

    let history = storage.get_agent_history("agent-1", 5);
    assert_eq!(history.len(), 5);
    assert_eq!(history[0].timestamp, 6000);
    assert_eq!(history[4].timestamp, 10000);
}

#[test]
fn test_storage_history_fallback_to_persistence_when_cache_insufficient() {
    let dir = tempfile::tempdir().unwrap();
    let config = StorageConfig {
        cache_size_per_agent: 5,
        batch_size: 10,
        batch_timeout_ms: 100,
        channel_capacity: 100,
        ..persistent_config(&dir)
    };
    let mut storage = Engine::with_config(config);

    for i in 1..=20 {
        let metrics = create_test_metrics("agent-1", i * 1000);
        storage.save_metrics(&metrics);
    }
    storage.tick();

    let history = storage.get_agent_history("agent-1", 20);
    assert_eq!(history.len(), 20);
    assert_eq!(history[0].timestamp, 1000);
    assert_eq!(history[19].timestamp, 20000);
}

#[test]
fn test_storage_batch_write() {
    let dir = tempfile::tempdir().unwrap();
    let config = StorageConfig {
        cache_size_per_agent: 100,
        batch_size: 3,
        batch_timeout_ms: 10_000,
        channel_capacity: 100,
        ..persistent_config(&dir)
    };
    let mut storage = Engine::with_config(config);

    for i in 1..=3 {
        let metrics = create_test_metrics("agent-1", i * 1000);
        storage.save_metrics(&metrics);
    }
    storage.run_writer();
    assert_eq!(storage.store.as_ref().unwrap().all_keys().len(), 3);

    let history = storage.get_agent_history("agent-1", 10);
    assert_eq!(history.len(), 3);
}

#[test]
fn test_storage_timeout_flush() {
    let dir = tempfile::tempdir().unwrap();
    let config = StorageConfig {
        cache_size_per_agent: 100,
        batch_size: 100,
        batch_timeout_ms: 100,
        channel_capacity: 100,
        ..persistent_config(&dir)
    };
    let mut storage = Engine::with_config(config);

    let metrics = create_test_metrics("agent-1", 1000);
    storage.save_metrics(&metrics);
    storage.run_writer();
    assert!(storage.store.as_ref().unwrap().all_keys().is_empty());
    storage.tick();
    assert_eq!(storage.store.as_ref().unwrap().all_keys().len(), 1);

    let latest = storage.get_agent_latest("agent-1");
    assert!(latest.is_some());
}

#[test]
fn test_storage_cache_limit() {
    let dir = tempfile::tempdir().unwrap();
    let config = StorageConfig {
        cache_size_per_agent: 5,
        batch_size: 10,
        batch_timeout_ms: 100,
        channel_capacity: 100,
        ..persistent_config(&dir)
    };
    let mut storage = Engine::with_config(config);

    for i in 1..=10 {
        let metrics = create_test_metrics("agent-1", i * 1000);
        storage.save_metrics(&metrics);
    }
    storage.tick();

    let history = storage.get_agent_history("agent-1", 20);
    assert_eq!(history.len(), 10);
    assert_eq!(history[0].timestamp, 1000);
    assert_eq!(history[9].timestamp, 10000);
}

#[test]
fn test_storage_multiple_agents_cache_isolation() {
    let dir = tempfile::tempdir().unwrap();
    let config = StorageConfig {
        cache_size_per_agent: 3,
        batch_size: 10,
        batch_timeout_ms: 100,
        channel_capacity: 100,
        ..persistent_config(&dir)
    };
    let mut storage = Engine::with_config(config);

    for i in 1..=5 {
        let metrics = create_test_metrics("agent-1", i * 1000);
        storage.save_metrics(&metrics);
    }
    for i in 1..=2 {
        let metrics = create_test_metrics("agent-2", i * 2000);
        storage.save_metrics(&metrics);
    }
    storage.tick();

    let history1 = storage.get_agent_history("agent-1", 10);
    assert_eq!(history1.len(), 5);

    let history2 = storage.get_agent_history("agent-2", 10);
    assert_eq!(history2.len(), 2);
}

#[test]
fn test_storage_shutdown() {
    let dir = tempfile::tempdir().unwrap();
    let config = StorageConfig {
        cache_size_per_agent: 10,
        batch_size: 100,
        batch_timeout_ms: 10_000,
        channel_capacity: 100,
        ..persistent_config(&dir)
    };
    let mut storage = Engine::with_config(config);

    for i in 1..=5 {
        let metrics = create_test_metrics("agent-1", i * 1000);
        storage.save_metrics(&metrics);
    }
    storage.shutdown();
    assert_eq!(storage.store.as_ref().unwrap().all_keys().len(), 5);
    assert_eq!(storage.save_metrics_sync(&create_test_metrics("agent-1", 6000)),
        Err(StorageError::Shutdown));
}

#[test]
fn test_storage_channel_full() {
    let dir = tempfile::tempdir().unwrap();
    let config = StorageConfig {
        cache_size_per_agent: 100,
        batch_size: 1000,
        batch_timeout_ms: 60_000,
        channel_capacity: 5,
        ..persistent_config(&dir)
    };
    let mut storage = Engine::with_config(config);

    for i in 0..10 {
        let metrics = create_test_metrics("agent-1", i * 1000);
        storage.save_metrics(&metrics);
    }

    let latest = storage.get_agent_latest("agent-1");
    assert!(latest.is_some());
    assert_eq!(storage.dropped, vec![StorageError::Backpressure; 5]);
}

#[test]
fn test_storage_empty_query() {
    let dir = tempfile::tempdir().unwrap();
    let storage = Engine::with_config(persistent_config(&dir));

    assert!(storage.get_agent_latest("nonexistent").is_none());
    assert!(storage.get_agent_history("nonexistent", 10).is_empty());
    assert!(storage.get_all_agents().is_empty());
}

#[test]
fn test_storage_persistence_across_restarts() {
    let dir = tempfile::tempdir().unwrap();
    {
        let config = StorageConfig {
            cache_size_per_agent: 10,
            batch_size: 2,
            batch_timeout_ms: 50,
            channel_capacity: 100,
            ..persistent_config(&dir)
        };
        let mut storage = Engine::with_config(config);
        for i in 1..=5 {
            let metrics = create_test_metrics("agent-1", i * 1000);
            storage.save_metrics(&metrics);
        }
        storage.shutdown();
    }
    {
        let config = StorageConfig {
            cache_size_per_agent: 10,
            batch_size: 2,
            batch_timeout_ms: 50,
            channel_capacity: 100,
            ..persistent_config(&dir)
        };
        let mut storage = Engine::with_config(config);

        let metrics = create_test_metrics("agent-2", 5000);
        storage.save_metrics(&metrics);
        storage.tick();

        let latest = storage.get_agent_latest("agent-2");
        assert!(latest.is_some());
        assert_eq!(latest.unwrap().timestamp, 5000);

        assert_eq!(storage.get_agent_latest("agent-1").unwrap().timestamp, 5000);
        assert_eq!(
            stamps(&storage.get_agent_history("agent-1", 10)),
            vec![1000, 2000, 3000, 4000, 5000]
        );
        assert_eq!(storage.get_all_agents(), vec!["agent-1".to_string(), "agent-2".to_string()]);
    }
}

#[test]
fn test_storage_high_frequency_writes() {
    let dir = tempfile::tempdir().unwrap();
    let config = StorageConfig {
        cache_size_per_agent: 100,
        batch_size: 50,
        batch_timeout_ms: 100,
        channel_capacity: 1000,
        ..persistent_config(&dir)
    };
    let mut storage = Engine::with_config(config);

    for i in 0..200 {
        let metrics = create_test_metrics("agent-1", i);
        storage.save_metrics(&metrics);
    }
    storage.tick();

    let history = storage.get_agent_history("agent-1", 200);
    assert_eq!(history.len(), 200);
}

#[test]
fn test_storage_cleanup_disabled() {
    let dir = tempfile::tempdir().unwrap();
    let config = StorageConfig {
        cache_size_per_agent: 100,
        batch_size: 10,
        batch_timeout_ms: 100,
        channel_capacity: 100,
        max_records_per_agent: 5,
        retention_days: 1,
        enable_cleanup: false,
        ..persistent_config(&dir)
    };
    let mut storage = Engine::with_config(config);
    assert!(storage.cleanup.is_none());

    for i in 1..=10 {
        let metrics = create_test_metrics("agent-1", i * 1000);
        storage.save_metrics(&metrics);
    }
    storage.tick();
    assert_eq!(storage.store.as_ref().unwrap().all_keys().len(), 10);

    storage.shutdown();
}

#[test]
fn test_storage_cleanup_shutdown() {
    let dir = tempfile::tempdir().unwrap();
    let config = StorageConfig {
        cache_size_per_agent: 100,
        batch_size: 10,
        batch_timeout_ms: 100,
        channel_capacity: 100,
        max_records_per_agent: 10000,
        retention_days: 30,
        enable_cleanup: true,
        ..persistent_config(&dir)
    };
    let mut storage = Engine::with_config(config);
    assert!(storage.cleanup.as_ref().unwrap().is_running());

    for i in 1..=5 {
        let metrics = create_test_metrics("agent-1", i * 1000);
        storage.save_metrics(&metrics);
    }
    storage.tick();

    storage.shutdown();
    assert!(!storage.cleanup.as_ref().unwrap().is_running());
}

#[test]
fn round_trip_merges_disk_with_cache() {
    let dir = tempfile::tempdir().unwrap();
    let config = StorageConfig {
        cache_size_per_agent: 3,
        batch_size: 2,
        batch_timeout_ms: 100,
        ..persistent_config(&dir)
    };
    let mut storage = Engine::with_config(config);
    for ts in 1..=4 {
        assert_eq!(storage.save_metrics_sync(&create_test_metrics("A", ts)), Ok(()));
    }
    assert_eq!(storage.get_agent_latest("A").unwrap().timestamp, 4);
    assert_eq!(stamps(&storage.get_agent_history("A", 10)), vec![1, 2, 3, 4]);
}

#[test]
fn cache_eviction_falls_back_to_disk() {
    let dir = tempfile::tempdir().unwrap();
    let config = StorageConfig {
        cache_size_per_agent: 5,
        batch_size: 10,
        batch_timeout_ms: 100,
        ..persistent_config(&dir)
    };
    let mut storage = Engine::with_config(config);
    for ts in 1..=20 {
        storage.save_metrics(&create_test_metrics("A", ts));
    }
    storage.tick();
    assert_eq!(stamps(&storage.get_agent_history("A", 20)), (1..=20).collect::<Vec<i64>>());
    assert_eq!(stamps(&storage.get_agent_history("A", 3)), vec![18, 19, 20]);
}

#[test]
fn count_retention_keeps_the_newest_rows() {
    let (_dir, mut store) = temp_store();
    let metrics: Vec<_> = (1..=10).map(|i| create_test_metrics("B", i * 1000)).collect();
    store.flush_batch(&metrics).unwrap();
    let task = CleanupTask::new(StorageConfig { max_records_per_agent: 4, ..Default::default() });
    store.run_cleanup(&task, 1_700_000_000);
    let rows = stamps(&store.query_latest_by_agent("B", 100));
    assert_eq!(rows, vec![7000, 8000, 9000, 10000]);
    assert_eq!(store.all_keys().len(), 4);
    assert_eq!(store.agent_latest("B"), Some(10000));
}

#[test]
fn age_retention_deletes_what_is_older_than_the_limit() {
    let (_dir, mut store) = temp_store();
    let now: i64 = 1_700_000_000;
    let day: i64 = 86400;
    store
        .flush_batch(&vec![
            create_test_metrics("X", now - 10 * day),
            create_test_metrics("X", now - 2 * day),
            create_test_metrics("Y", now - day),
        ])
        .unwrap();
    let task = CleanupTask::new(StorageConfig { retention_days: 5, ..Default::default() });
    store.run_cleanup(&task, now);
    assert_eq!(stamps(&store.query_latest_by_agent("X", 100)), vec![now - 2 * day]);
    assert_eq!(stamps(&store.query_latest_by_agent("Y", 100)), vec![now - day]);
    assert_eq!(store.all_keys().len(), 2);
    assert_eq!(store.agent_latest("X"), Some(now - 2 * day));
    assert_eq!(store.agent_latest("Y"), Some(now - day));
}

#[test]
fn graceful_shutdown_leaves_every_acknowledged_sample_on_disk() {
    let dir = tempfile::tempdir().unwrap();
    let config = StorageConfig {
        batch_size: 100,
        batch_timeout_ms: 10_000,
        ..persistent_config(&dir)
    };
    let path = config.db_path.clone().unwrap();
    {
        let mut storage = Engine::with_config(config);
        for ts in 0..99 {
            storage.save_metrics(&create_test_metrics("A", ts));
        }
        assert_eq!(storage.save_metrics_sync(&create_test_metrics("A", 99)), Ok(()));
        storage.shutdown();
    }
    let reopened = Store::open(std::path::Path::new(&path));
    assert_eq!(stamps(&reopened.query_latest_by_agent("A", 1000)), (0..100).collect::<Vec<i64>>());
    assert_eq!(reopened.agent_latest("A"), Some(99));
}

#[test]
fn backpressure_keeps_every_sample_in_the_cache() {
    let dir = tempfile::tempdir().unwrap();
    let config = StorageConfig {
        channel_capacity: 5,
        batch_size: 1000,
        batch_timeout_ms: 60_000,
        ..persistent_config(&dir)
    };
    let mut storage = Engine::with_config(config);
    for ts in 0..50 {
        storage.save_metrics(&create_test_metrics("A", ts));
    }
    assert_eq!(storage.get_agent_latest("A").unwrap().timestamp, 49);
    assert_eq!(stamps(&storage.get_agent_history("A", 50)), (0..50).collect::<Vec<i64>>());
    assert_eq!(storage.queue.len(), 5);
    assert_eq!(storage.dropped.len(), 45);
}

#[test]
fn list_agents_is_the_union_of_cache_and_store() {
    let dir = tempfile::tempdir().unwrap();
    let config = StorageConfig { batch_size: 2, ..persistent_config(&dir) };
    {
        let mut storage = Engine::with_config(config.clone());
        storage.save_metrics(&create_test_metrics("on-disk-b", 1));
        storage.save_metrics(&create_test_metrics("on-disk-a", 2));
        storage.shutdown();
    }
    let mut storage = Engine::with_config(config);
    storage.save_metrics(&create_test_metrics("in-cache", 3));
    storage.save_metrics(&create_test_metrics("on-disk-a", 4));
    assert_eq!(
        storage.get_all_agents(),
        vec!["in-cache".to_string(), "on-disk-a".to_string(), "on-disk-b".to_string()]
    );
}

#[test]
fn memory_only_mode_commits_to_the_cache() {
    let mut storage = Engine::with_config(StorageConfig::default());
    assert!(storage.store.is_none());
    assert!(!storage.storage.is_persist_enabled());
    assert_eq!(storage.save_metrics_sync(&create_test_metrics("A", 1)), Ok(()));
    storage.save_metrics(&create_test_metrics("A", 2));
    assert_eq!(stamps(&storage.get_agent_history("A", 10)), vec![1, 2]);
    assert_eq!(storage.get_all_agents(), vec!["A".to_string()]);
    assert!(storage.get_agent_latest("B").is_none());
    storage.shutdown();
    assert_eq!(storage.save_metrics_sync(&create_test_metrics("A", 3)), Ok(()));
}