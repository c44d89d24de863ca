use metricstore::db::MetricsDb;
use metricstore::metric::Metric;
use metricstore::protocol::{
    build_read_request, build_write_request, handle_client, parse_request, ClientOutcome, Request,
};
use metricstore::serializable::BinarySerializable;
use metricstore::StoreError;

fn sample(timestamp: u64, name: &str, labels: &[(&str, &str)]) -> Metric {
    Metric {
        timestamp,
        name: name.to_string(),
        labels: labels.iter().map(|(k, v)| (k.to_string(), v.to_string())).collect(),
    }
}

#[test]
fn build_requests_have_expected_framing() {
    let metric = sample(42, "cpu", &[("host", "a")]);
    let write = build_write_request(&metric);
    assert_eq!(write[0], 1);
    assert_eq!(&write[1..], &metric.serialize()[..]);

    let read = build_read_request("cpu");
    assert_eq!(read[0], 0);
    assert_eq!(&read[1..5], &3u32.to_le_bytes());
    assert_eq!(&read[5..], b"cpu");
}

#[test]
fn parse_request_decodes_both_kinds() {
    let metric = sample(42, "cpu", &[("host", "a")]);
    match parse_request(&build_write_request(&metric)).unwrap() {
        Request::Write(m) => {
            assert_eq!(m.timestamp, 42);
            assert_eq!(m.name, "cpu");
            assert_eq!(m.labels, vec![("host".to_string(), "a".to_string())]);
        },
        Request::Read(_) => panic!("write request parsed as read"),
    }
    match parse_request(&build_read_request("mem")).unwrap() {
        Request::Read(name) => assert_eq!(name, "mem"),
        Request::Write(_) => panic!("read request parsed as write"),
    }
}

#[test]
fn unknown_control_byte_is_a_protocol_error() {
    let mut db = MetricsDb::new();
    // a request whose control byte is neither 0 nor 1 is rejected with a
    // protocol error, and the task serving it carries on: the same
    // database keeps serving later requests
    for control in [2u8, 7, 0xff] {
        let request = vec![control, 1, 2, 3];
        assert_eq!(parse_request(&request).unwrap_err(), StoreError::Protocol);
        assert_eq!(handle_client(&request, &mut db).unwrap_err(), StoreError::Protocol);
    }
    assert_eq!(handle_client(&[], &mut db).unwrap_err(), StoreError::Protocol);

    let write = build_write_request(&sample(1, "cpu", &[]));
    assert!(handle_client(&write, &mut db).is_ok());
    assert_eq!(db.query("cpu").unwrap().len(), 1);
}

#[test]
fn malformed_write_payload_is_a_decode_error() {
    let mut db = MetricsDb::new();
    let mut request = vec![1u8];
    request.extend_from_slice(&0u64.to_le_bytes());
    assert_eq!(handle_client(&request, &mut db).unwrap_err(), StoreError::Decode);
    assert!(db.query("cpu").is_err());
}

#[test]
fn read_response_carries_series_or_not_found_marker() {
    let mut db = MetricsDb::new();
    let first = sample(5, "cpu", &[("host", "a")]);
    let second = sample(6, "cpu", &[]);
    let mut expected_body = first.serialize();
    expected_body.extend_from_slice(&second.serialize());
    handle_client(&build_write_request(&first), &mut db).unwrap();
    handle_client(&build_write_request(&second), &mut db).unwrap();

    match handle_client(&build_read_request("cpu"), &mut db).unwrap() {
        ClientOutcome::ReadResponse(resp) => {
            assert_eq!(resp[0], 0);
            assert_eq!(&resp[1..], &expected_body[..]);
        },
        ClientOutcome::WriteDone(_) => panic!("read produced a write outcome"),
    }

    match handle_client(&build_read_request("absent"), &mut db).unwrap() {
        ClientOutcome::ReadResponse(resp) => assert_eq!(resp, vec![1u8]),
        ClientOutcome::WriteDone(_) => panic!("read produced a write outcome"),
    }
}

#[test]
fn many_writes_to_one_series_lose_nothing() {
    // write requests for the same series, each with a unique timestamp:
    // the series ends with exactly one sample per request, none lost and
    // none duplicated, whatever order the serving task handled them in
    let mut db = MetricsDb::new();
    let count = 200u64;
    for ts in 1..=count {
        let request = build_write_request(&sample(ts, "cpu", &[("host", "a")]));
        handle_client(&request, &mut db).unwrap();
    }
    let got: Vec<u64> = db.query("cpu").unwrap().iter().map(|m| m.timestamp).collect();
    assert_eq!(got.len() as u64, count);
    let expected: Vec<u64> = (1..=count).collect();
    assert_eq!(got, expected);
}
