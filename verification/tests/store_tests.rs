use metricstore::metric::Metric;
use metricstore::serializable::BinarySerializable;
use metricstore::store::InMemoryStore;

fn sample(timestamp: u64, name: &str, labels: &[(&str, &str)]) -> Metric {
    Metric {
        timestamp,
        name: name.to_string(),
        labels: labels.iter().map(|(k, v)| (k.to_string(), v.to_string())).collect(),
    }
}

#[test]
fn flush_threshold_crossed_on_thousandth_insert() {
    let mut store = InMemoryStore::new();
    let mut expected: Vec<u8> = Vec::new();
    for i in 1..=999u64 {
        let metric = sample(i, "cpu", &[("host", "a")]);
        expected.extend_from_slice(&metric.serialize());
        // 999 inserts into a fresh series perform zero segment writes
        assert!(store.insert(metric).is_none());
    }
    let thousandth = sample(1000, "cpu", &[("host", "a")]);
    expected.extend_from_slice(&thousandth.serialize());
    // the 1000th insert performs exactly one, holding all 1000 samples in
    // arrival order
    let segment = store.insert(thousandth).expect("the 1000th insert must flush");
    assert_eq!(segment.file_name, "cpu.metricdata");
    assert_eq!(segment.bytes, expected);
    // the in-memory sequence is not cleared by flushing
    assert_eq!(store.query("cpu").unwrap().len(), 1000);
    // the counter reset: the next insert does not flush again
    assert!(store.insert(sample(1001, "cpu", &[])).is_none());
}

#[test]
fn insert_keeps_series_separate() {
    let mut store = InMemoryStore::new();
    assert!(store.insert(sample(1, "cpu", &[])).is_none());
    assert!(store.insert(sample(2, "mem", &[])).is_none());
    assert!(store.insert(sample(3, "cpu", &[])).is_none());

    let cpu = store.query("cpu").unwrap();
    assert_eq!(cpu.iter().map(|m| m.timestamp).collect::<Vec<_>>(), vec![1, 3]);
    let mem = store.query("mem").unwrap();
    assert_eq!(mem.iter().map(|m| m.timestamp).collect::<Vec<_>>(), vec![2]);
    assert!(store.query("disk").is_none());
}

#[test]
fn flush_metric_writes_whole_series() {
    let mut store = InMemoryStore::new();
    let first = sample(10, "net", &[("if", "eth0")]);
    let second = sample(11, "net", &[]);
    let mut expected = first.serialize();
    expected.extend_from_slice(&second.serialize());
    store.insert(first);
    store.insert(second);

    let segment = store.flush_metric("net").unwrap();
    assert_eq!(segment.file_name, "net.metricdata");
    assert_eq!(segment.bytes, expected);
    assert!(store.flush_metric("absent").is_none());
}
