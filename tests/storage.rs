use logbroker::protocol::Record;
use logbroker::storage::{PartitionLog, StorageError};

/// A partition with its log file held in memory.
struct Partition {
    file: Vec<u8>,
    log: PartitionLog,
}

impl Partition {
    fn new() -> Partition {
        Partition { file: Vec::new(), log: PartitionLog::open(&[]).unwrap() }
    }

    fn reopen(&self) -> Result<PartitionLog, StorageError> {
        PartitionLog::open(&self.file)
    }

    fn produce(&mut self, kvs: &[(&str, &str)]) -> i64 {
        let records: Vec<Record> = kvs
            .iter()
            .map(|(k, v)| Record { key: k.as_bytes().to_vec(), value: v.as_bytes().to_vec() })
            .collect();
        assert!(self.log.can_append(&records));
        let (base, bytes) = self.log.append(&records);
        self.file.extend_from_slice(&bytes);
        base
    }

    fn fetch(&self, offset: i64, max_bytes: u32) -> Vec<(i64, Record)> {
        match self.log.fetch_start(offset) {
            Some(pos) => self.log.fetch(offset, max_bytes, &self.file[pos as usize..]),
            None => Vec::new(),
        }
    }
}

fn kv(items: &[(i64, Record)]) -> Vec<(i64, String, String)> {
    items
        .iter()
        .map(|(o, r)| {
            (*o, String::from_utf8(r.key.clone()).unwrap(), String::from_utf8(r.value.clone()).unwrap())
        })
        .collect()
}

#[test]
fn produce_then_fetch() {
    let mut p = Partition::new();
    assert_eq!(p.produce(&[("k1", "v1"), ("k2", "v2")]), 0);
    let items = p.fetch(0, 1_048_576);
    assert_eq!(
        kv(&items),
        vec![(0, "k1".to_string(), "v1".to_string()), (1, "k2".to_string(), "v2".to_string())]
    );
}

#[test]
fn empty_key_record() {
    let mut p = Partition::new();
    assert_eq!(p.produce(&[("", "hello")]), 0);
    let items = p.fetch(0, 1_048_576);
    assert_eq!(items.len(), 1);
    assert_eq!(items[0].0, 0);
    assert!(items[0].1.key.is_empty());
    assert_eq!(items[0].1.value, b"hello".to_vec());
}

#[test]
fn fetch_past_end() {
    let p = Partition::new();
    assert_eq!(p.fetch(0, 1_048_576).len(), 0);
    assert_eq!(p.fetch(-3, 1_048_576).len(), 0);
    assert_eq!(p.log.fetch_start(0), None);
    let mut p = Partition::new();
    p.produce(&[("a", "b")]);
    assert_eq!(p.fetch(1, 1_048_576).len(), 0);
    assert_eq!(p.fetch(i64::MAX, 1_048_576).len(), 0);
}

#[test]
fn fetch_with_tight_budget() {
    let mut p = Partition::new();
    p.produce(&[("a", "b")]);
    assert_eq!(p.file.len(), 16);
    assert_eq!(p.fetch(0, 10).len(), 0);
    assert_eq!(p.fetch(0, 15).len(), 0);
    assert_eq!(p.fetch(0, 16).len(), 1);
}

#[test]
fn restart_keeps_records() {
    let mut p = Partition::new();
    p.produce(&[("a", "1")]);
    p.produce(&[("b", "2"), ("c", "3")]);
    let reopened = PartitionLog::open(&p.file).unwrap();
    assert_eq!(reopened.next_offset(), 3);
    assert_eq!(reopened.file_len(), p.log.file_len());
    let q = Partition { file: p.file.clone(), log: reopened };
    assert_eq!(
        kv(&q.fetch(0, 1_048_576)),
        vec![
            (0, "a".to_string(), "1".to_string()),
            (1, "b".to_string(), "2".to_string()),
            (2, "c".to_string(), "3".to_string())
        ]
    );
}

#[test]
fn offsets_are_dense() {
    let mut p = Partition::new();
    assert_eq!(p.produce(&[("a", "1"), ("b", "2")]), 0);
    assert_eq!(p.produce(&[]), 2);
    assert_eq!(p.produce(&[("c", "3")]), 2);
    assert_eq!(p.produce(&[("d", "4"), ("e", "5"), ("f", "6")]), 3);
    assert_eq!(p.log.next_offset(), 6);
    let offsets: Vec<i64> = p.fetch(0, u32::MAX).iter().map(|x| x.0).collect();
    assert_eq!(offsets, vec![0, 1, 2, 3, 4, 5]);
}

#[test]
fn index_points_at_records() {
    let mut p = Partition::new();
    p.produce(&[("a", "1"), ("bb", "22"), ("", "")]);
    // each record takes 14 bytes plus its key and value
    assert_eq!(p.log.fetch_start(0), Some(0));
    assert_eq!(p.log.fetch_start(1), Some(16));
    assert_eq!(p.log.fetch_start(2), Some(34));
    assert_eq!(p.log.fetch_start(-1), Some(0));
    assert_eq!(p.log.fetch_start(3), None);
    for o in 0..3i64 {
        let pos = p.log.fetch_start(o).unwrap() as usize;
        assert_eq!(i64::from_be_bytes(p.file[pos..pos + 8].try_into().unwrap()), o);
    }
}

#[test]
fn fetch_starts_at_offset_and_increases() {
    let mut p = Partition::new();
    p.produce(&[("a", "1"), ("b", "2"), ("c", "3"), ("d", "4")]);
    let items = p.fetch(2, u32::MAX);
    let offsets: Vec<i64> = items.iter().map(|x| x.0).collect();
    assert_eq!(offsets, vec![2, 3]);
    let items = p.fetch(-10, u32::MAX);
    assert_eq!(items.len(), 4);
    assert_eq!(items[0].0, 0);
}

#[test]
fn fetch_stays_within_budget() {
    let mut p = Partition::new();
    p.produce(&[("a", "1"), ("b", "2"), ("c", "3")]);
    // each record is 16 bytes
    assert_eq!(p.fetch(0, 47).len(), 2);
    assert_eq!(p.fetch(0, 48).len(), 3);
    assert_eq!(p.fetch(1, 32).len(), 2);
    for budget in 0..60u32 {
        let total: usize =
            p.fetch(0, budget).iter().map(|(_, r)| 14 + r.key.len() + r.value.len()).sum();
        assert!(total <= budget as usize);
    }
}

#[test]
fn truncated_tail_is_corrupted() {
    let mut p = Partition::new();
    p.produce(&[("a", "b"), ("c", "d")]);
    assert!(p.reopen().is_ok());
    let mut cut = p.file.clone();
    cut.pop();
    assert!(matches!(PartitionLog::open(&cut), Err(StorageError::Corrupted)));
    assert!(matches!(PartitionLog::open(&p.file[..5]), Err(StorageError::Corrupted)));
}

#[test]
fn out_of_order_offsets_are_corrupted() {
    let mut p = Partition::new();
    p.produce(&[("a", "b"), ("c", "d")]);
    let mut bad = p.file.clone();
    bad[16 + 7] = 5; // the second record claims offset 5
    assert!(matches!(PartitionLog::open(&bad), Err(StorageError::Corrupted)));
}

#[test]
fn empty_file_is_empty_log() {
    let log = PartitionLog::open(&[]).unwrap();
    assert_eq!(log.next_offset(), 0);
    assert_eq!(log.file_len(), 0);
}

#[test]
fn cannot_append_oversized_key() {
    let log = PartitionLog::open(&[]).unwrap();
    let records = vec![Record { key: vec![0; 65536], value: vec![] }];
    assert!(!log.can_append(&records));
    let records = vec![Record { key: vec![0; 65535], value: vec![] }];
    assert!(log.can_append(&records));
}

#[test]
fn append_bytes_follow_the_record_format() {
    let mut p = Partition::new();
    p.produce(&[("x", "y")]);
    let (base, bytes) =
        p.log.append(&[Record { key: b"ab".to_vec(), value: b"c".to_vec() }]);
    assert_eq!(base, 1);
    assert_eq!(bytes, vec![0, 0, 0, 0, 0, 0, 0, 1, 0, 2, b'a', b'b', 0, 0, 0, 1, b'c']);
}

#[test]
fn fetch_over_a_short_read_stops_at_the_cut() {
    let mut p = Partition::new();
    p.produce(&[("a", "1"), ("b", "2"), ("c", "3")]);
    let start = p.log.fetch_start(0).unwrap() as usize;
    // the read ends inside the third record
    let short = &p.file[start..40];
    let items = p.log.fetch(0, u32::MAX, short);
    assert_eq!(kv(&items), vec![(0, "a".to_string(), "1".to_string()), (1, "b".to_string(), "2".to_string())]);
    let items = p.log.fetch(0, u32::MAX, &p.file[start..3]);
    assert!(items.is_empty());
}
