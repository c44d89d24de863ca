use metricstore::db::MetricsDb;
use metricstore::metric::Metric;
use metricstore::serializable::BinarySerializable;
use metricstore::StoreError;

fn sample(timestamp: u64, name: &str, labels: &[(&str, &str)]) -> Metric {
    Metric {
        timestamp,
        name: name.to_string(),
        labels: labels.iter().map(|(k, v)| (k.to_string(), v.to_string())).collect(),
    }
}

fn timestamps(db: &MetricsDb, name: &str) -> Vec<u64> {
    db.query(name).unwrap().iter().map(|m| m.timestamp).collect()
}

#[test]
fn recovery_replays_every_series_in_order() {
    // one log file holding records for several distinct series, interleaved
    let records = vec![
        sample(1_622_547_801, "cpu", &[("host", "a")]),
        sample(1_622_547_802, "mem", &[("host", "a")]),
        sample(1_622_547_803, "cpu", &[("host", "b")]),
        sample(1_622_547_804, "disk", &[]),
        sample(1_622_547_805, "cpu", &[]),
        sample(1_622_547_806, "mem", &[]),
    ];
    let mut buffer: Vec<u8> = Vec::new();
    for record in &records {
        buffer.extend_from_slice(&record.serialize());
    }

    let mut db = MetricsDb::new();
    let segments = db.replay_file(&buffer);
    assert!(segments.is_empty());

    assert_eq!(timestamps(&db, "cpu"), vec![1_622_547_801, 1_622_547_803, 1_622_547_805]);
    assert_eq!(timestamps(&db, "mem"), vec![1_622_547_802, 1_622_547_806]);
    assert_eq!(timestamps(&db, "disk"), vec![1_622_547_804]);
    let cpu = db.query("cpu").unwrap();
    assert_eq!(cpu[0].labels, vec![("host".to_string(), "a".to_string())]);
    assert_eq!(cpu[1].labels, vec![("host".to_string(), "b".to_string())]);
    assert!(cpu[2].labels.is_empty());
}

#[test]
fn recovery_tolerates_a_truncated_tail() {
    let complete = vec![
        sample(1_622_547_801, "cpu", &[("host", "a")]),
        sample(1_622_547_802, "mem", &[("host", "a")]),
    ];
    let mut buffer: Vec<u8> = Vec::new();
    for record in &complete {
        buffer.extend_from_slice(&record.serialize());
    }
    // a final record truncated in the middle of its name field
    let tail = sample(1_622_547_803, "network_bytes_total", &[]).serialize();
    buffer.extend_from_slice(&tail[0..14]);

    let mut db = MetricsDb::new();
    db.replay_file(&buffer);

    // every preceding complete record is recovered; the broken tail is not
    assert_eq!(timestamps(&db, "cpu"), vec![1_622_547_801]);
    assert_eq!(timestamps(&db, "mem"), vec![1_622_547_802]);
    assert!(db.query("network_bytes_total").is_err());
}

#[test]
fn recovery_replays_files_in_order_across_files() {
    let mut db = MetricsDb::new();
    let first = sample(1_622_547_801, "cpu", &[]).serialize();
    let second = sample(1_622_547_802, "cpu", &[]).serialize();
    db.replay_file(&first);
    db.replay_file(&second);
    assert_eq!(timestamps(&db, "cpu"), vec![1_622_547_801, 1_622_547_802]);
}

#[test]
fn query_for_unknown_series_is_not_found() {
    let db = MetricsDb::new();
    assert_eq!(db.query("nothing").unwrap_err(), StoreError::NotFound);
}

#[test]
fn wal_flushes_every_tenth_write() {
    let mut db = MetricsDb::new();
    let mut expected: Vec<u8> = Vec::new();
    for i in 1..=9u64 {
        let metric = sample(i, "cpu", &[]);
        expected.extend_from_slice(&metric.serialize());
        let eff = db.record_write(metric);
        assert!(eff.wal_flush.is_none());
    }
    let tenth = sample(10, "cpu", &[]);
    expected.extend_from_slice(&tenth.serialize());
    let eff = db.record_write(tenth);
    // the tenth write hands back everything buffered so far, in order
    assert_eq!(eff.wal_flush.unwrap(), expected);

    // shutdown drains whatever is still buffered
    let eleventh = sample(11, "cpu", &[]);
    let expected_tail = eleventh.serialize();
    assert!(db.record_write(eleventh).wal_flush.is_none());
    assert_eq!(db.shutdown_flush(), expected_tail);
}

#[test]
fn error_variants_are_distinct() {
    assert_ne!(StoreError::Decode, StoreError::NotFound);
    assert_ne!(StoreError::Io, StoreError::Protocol);
    assert_eq!(StoreError::Io, StoreError::Io);
}
