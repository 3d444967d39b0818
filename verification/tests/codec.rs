use gorilla::DataPoint;
use gorilla::Decoder;
use gorilla::Encoder;

fn point(timestamp: u64, value: f64) -> DataPoint {
    DataPoint::new(timestamp, value.to_bits())
}

#[test]
fn test_roundtrip_basic() {
    let input = vec![
        point(1609459200, 12.0),
        point(1609459260, 12.5),
        point(1609459320, 13.0),
        point(1609459380, 11.5),
        point(1609459440, 12.0),
    ];

    let mut enc = Encoder::new();
    for dp in &input {
        enc.encode(*dp).unwrap();
    }
    enc.finish().unwrap();
    let block = enc.into_compressed();

    let output = Decoder::decode(&block).unwrap();
    assert_eq!(input, output);
}

#[test]
fn test_roundtrip_identical_values() {
    let input: Vec<DataPoint> = (0..100).map(|i| point(1000 + i * 60, 42.0)).collect();

    let mut enc = Encoder::new();
    for dp in &input {
        enc.encode(*dp).unwrap();
    }
    enc.finish().unwrap();
    let block = enc.into_compressed();

    let output = Decoder::decode(&block).unwrap();
    assert_eq!(input, output);
}

#[test]
fn test_roundtrip_single() {
    let input = vec![point(12345, 99.99)];
    let mut enc = Encoder::new();
    enc.encode(input[0]).unwrap();
    enc.finish().unwrap();
    let block = enc.into_compressed();
    let output = Decoder::decode(&block).unwrap();
    assert_eq!(input, output);
}

#[test]
fn test_iterator() {
    let input = vec![point(100, 1.0), point(160, 2.0), point(220, 3.0)];

    let mut enc = Encoder::new();
    for dp in &input {
        enc.encode(*dp).unwrap();
    }
    enc.finish().unwrap();
    let block = enc.into_compressed();

    let mut output: Vec<DataPoint> = Vec::new();
    let mut iter = Decoder::iter(&block);
    while let Some(r) = iter.next() {
        output.push(r.unwrap());
    }
    assert_eq!(input, output);
}

#[test]
fn test_encode_single_point() {
    let mut enc = Encoder::new();
    enc.encode(point(1609459200, 42.0)).unwrap();
    enc.finish().unwrap();
    assert_eq!(enc.count(), 1);
    assert!(enc.buffer().len_bits() > 0);
}

#[test]
fn test_encode_identical_values() {
    let mut enc = Encoder::new();
    for i in 0..10 {
        enc.encode(point(1609459200 + i * 60, 42.0)).unwrap();
    }
    enc.finish().unwrap();
    assert_eq!(enc.count(), 10);
    // Identical values should compress very efficiently.
}

#[test]
fn test_encode_varying_deltas() {
    let mut enc = Encoder::new();
    enc.encode(point(100, 1.0)).unwrap();
    enc.encode(point(160, 2.0)).unwrap(); // delta=60
    enc.encode(point(220, 3.0)).unwrap(); // delta=60, dod=0
    enc.encode(point(290, 4.0)).unwrap(); // delta=70, dod=10
    enc.encode(point(500, 5.0)).unwrap(); // delta=210, dod=140
    enc.finish().unwrap();
    assert_eq!(enc.count(), 5);
}

#[test]
fn test_encode_with_limit_ok() {
    // 256 bytes is plenty for a few points with constant values.
    let mut enc = Encoder::with_limit(256);
    enc.encode(point(1609459200, 42.0)).unwrap();
    enc.encode(point(1609459260, 42.0)).unwrap();
    enc.encode(point(1609459320, 42.0)).unwrap();
    enc.finish().unwrap();
    assert_eq!(enc.count(), 3);
}

#[test]
fn test_encode_with_limit_exceeded() {
    // 1 byte can't even fit the first 64-bit timestamp.
    let mut enc = Encoder::with_limit(1);
    let result = enc.encode(point(1609459200, 42.0));
    assert!(result.is_err());
}
