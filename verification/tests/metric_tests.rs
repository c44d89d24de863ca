use metricstore::codec::{
    decode_bool, decode_bytes, decode_text, decode_u32, decode_u64, encode_bool, encode_bytes,
    encode_text, encode_u32, encode_u64,
};
use metricstore::metric::Metric;
use metricstore::serializable::BinarySerializable;

fn sample(timestamp: u64, name: &str, labels: &[(&str, &str)]) -> Metric {
    Metric {
        timestamp,
        name: name.to_string(),
        labels: labels.iter().map(|(k, v)| (k.to_string(), v.to_string())).collect(),
    }
}

#[test]
fn test_metric_serialization() {
    let metric = Metric {
        timestamp: 1622547800,
        name: "test_metric".to_string(),
        labels: vec![
            ("label1".to_string(), "value1".to_string()),
            ("label2".to_string(), "value2".to_string()),
        ],
    };

    let serialized = metric.serialize();
    let mut byte_offset: usize = 0;
    let deserialized = Metric::deserialize(&serialized, &mut byte_offset).unwrap();
    assert_eq!(deserialized.timestamp, metric.timestamp);
    assert_eq!(deserialized.name, metric.name);
    assert_eq!(deserialized.labels.len(), metric.labels.len());
    for (i, (key, value)) in deserialized.labels.iter().enumerate() {
        assert_eq!(key, &metric.labels[i].0);
        assert_eq!(value, &metric.labels[i].1);
    }
}

#[test]
fn encoded_example_layout_and_round_trip() {
    let metric = sample(1622547800, "cpu", &[("host", "a")]);
    let bytes = metric.serialize();
    // 8 (timestamp) + (4+3) (name "cpu") + (4+4) (key "host") + (4+1) (value "a")
    assert_eq!(bytes.len(), 8 + (4 + 3) + (4 + 4) + (4 + 1));
    assert_eq!(&bytes[0..8], &1622547800u64.to_le_bytes());
    assert_eq!(&bytes[8..12], &3u32.to_le_bytes());
    assert_eq!(&bytes[12..15], b"cpu");
    assert_eq!(&bytes[15..19], &4u32.to_le_bytes());
    assert_eq!(&bytes[19..23], b"host");
    assert_eq!(&bytes[23..27], &1u32.to_le_bytes());
    assert_eq!(&bytes[27..28], b"a");

    let mut off: usize = 0;
    let back = Metric::deserialize(&bytes, &mut off).unwrap();
    assert_eq!(off, bytes.len());
    assert_eq!(back.timestamp, 1622547800);
    assert_eq!(back.name, "cpu");
    assert_eq!(back.labels, vec![("host".to_string(), "a".to_string())]);
}

#[test]
fn round_trips_non_ascii_text() {
    let metric = sample(7, "temp\u{00e9}rature", &[("lieu", "gen\u{00e8}ve"), ("unit\u{00e9}", "\u{00b0}C")]);
    let bytes = metric.serialize();
    let mut off: usize = 0;
    let back = Metric::deserialize(&bytes, &mut off).unwrap();
    assert_eq!(off, bytes.len());
    assert_eq!(back.timestamp, metric.timestamp);
    assert_eq!(back.name, metric.name);
    assert_eq!(back.labels, metric.labels);
}

#[test]
fn zero_timestamp_is_a_decode_error() {
    let metric = sample(1, "cpu", &[]);
    let mut bytes = metric.serialize();
    for byte in bytes.iter_mut().take(8) {
        *byte = 0;
    }
    let mut off: usize = 0;
    assert!(Metric::deserialize(&bytes, &mut off).is_err());
    assert_eq!(off, 0);
}

#[test]
fn empty_name_is_a_decode_error() {
    let mut bytes = Vec::new();
    bytes.extend_from_slice(&5u64.to_le_bytes());
    bytes.extend_from_slice(&0u32.to_le_bytes());
    let mut off: usize = 0;
    assert!(Metric::deserialize(&bytes, &mut off).is_err());
}

#[test]
fn truncated_name_is_a_decode_error() {
    let metric = sample(5, "memory", &[]);
    let bytes = metric.serialize();
    let cut = &bytes[0..10];
    let mut off: usize = 0;
    assert!(Metric::deserialize(cut, &mut off).is_err());
}

#[test]
fn invalid_utf8_name_is_a_decode_error() {
    let mut bytes = Vec::new();
    bytes.extend_from_slice(&5u64.to_le_bytes());
    bytes.extend_from_slice(&2u32.to_le_bytes());
    bytes.extend_from_slice(&[0xff, 0xfe]);
    let mut off: usize = 0;
    assert!(Metric::deserialize(&bytes, &mut off).is_err());
}

#[test]
fn truncated_label_pair_keeps_earlier_labels() {
    let metric = sample(9, "disk", &[("a", "b"), ("c", "d")]);
    let bytes = metric.serialize();
    // cut into the middle of the second pair's value field
    let cut = &bytes[0..bytes.len() - 1];
    let mut off: usize = 0;
    let back = Metric::deserialize(cut, &mut off).unwrap();
    assert_eq!(back.labels, vec![("a".to_string(), "b".to_string())]);
    // the cursor stops where the broken pair begins
    assert_eq!(off, 8 + 4 + 4 + (4 + 1) * 2);
}

#[test]
fn primitive_codec_round_trips() {
    let mut buf: Vec<u8> = Vec::new();
    encode_u32(&mut buf, 0xdeadbeef);
    encode_u64(&mut buf, 0x1122334455667788);
    encode_bool(&mut buf, true);
    encode_bool(&mut buf, false);
    encode_bytes(&mut buf, &[9, 8, 7]);
    encode_text(&mut buf, "hello");

    let mut off: usize = 0;
    assert_eq!(decode_u32(&buf, &mut off).unwrap(), 0xdeadbeef);
    assert_eq!(decode_u64(&buf, &mut off).unwrap(), 0x1122334455667788);
    assert_eq!(decode_bool(&buf, &mut off).unwrap(), true);
    assert_eq!(decode_bool(&buf, &mut off).unwrap(), false);
    assert_eq!(decode_bytes(&buf, &mut off).unwrap(), vec![9, 8, 7]);
    assert_eq!(decode_text(&buf, &mut off).unwrap(), "hello");
    assert_eq!(off, buf.len());

    // a boolean byte other than 0 or 1 does not decode
    let two = [2u8];
    let mut boff: usize = 0;
    assert!(decode_bool(&two, &mut boff).is_err());

    // a zero-length text field does not decode, though a zero-length blob does
    let empty_prefix = 0u32.to_le_bytes();
    let mut toff: usize = 0;
    assert!(decode_text(&empty_prefix, &mut toff).is_err());
    let mut boff2: usize = 0;
    assert_eq!(decode_bytes(&empty_prefix, &mut boff2).unwrap(), Vec::<u8>::new());
}
