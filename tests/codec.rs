use sensor_log::{decode, decode_log, encode, DataItem, SensorError, UTC_PLUS_8};

fn sample() -> DataItem {
    DataItem {
        time: 1704074400,
        offset: UTC_PLUS_8,
        max_temperature: 2650,
        min_temperature: -150,
        max_humidity: 60,
        min_humidity: 40,
    }
}

#[test]
fn record_layout_is_interleaved() {
    let bytes = encode(&sample());
    let t = 1704074400u32.to_le_bytes();
    let hi = 2650i16.to_le_bytes();
    let lo = (-150i16).to_le_bytes();
    assert_eq!(bytes, vec![t[0], t[1], t[2], t[3], hi[0], hi[1], 60, lo[0], lo[1], 40]);
}

#[test]
fn round_trip_keeps_every_field() {
    let items = [
        sample(),
        DataItem { time: 0, offset: 0, max_temperature: i16::MIN, min_temperature: i16::MAX, max_humidity: 0, min_humidity: 255 },
        DataItem { time: u32::MAX, offset: -3600, max_temperature: -1, min_temperature: 0, max_humidity: 255, min_humidity: 0 },
    ];
    for item in items {
        assert_eq!(decode(&encode(&item), item.offset), Ok(item));
    }
}

#[test]
fn decode_reads_each_field() {
    let bytes = [0x01, 0x02, 0x03, 0x04, 0x0a, 0x0b, 0x3c, 0xfe, 0xff, 0x28];
    let d = decode(&bytes, 0).unwrap();
    assert_eq!(d.time, 0x04030201);
    assert_eq!(d.max_temperature, 0x0b0a);
    assert_eq!(d.max_humidity, 60);
    assert_eq!(d.min_temperature, -2);
    assert_eq!(d.min_humidity, 40);
}

#[test]
fn decode_rejects_wrong_length() {
    assert_eq!(decode(&[0u8; 9], UTC_PLUS_8), Err(SensorError::MalformedRecord));
    assert_eq!(decode(&[0u8; 11], UTC_PLUS_8), Err(SensorError::MalformedRecord));
    assert_eq!(decode(&[], UTC_PLUS_8), Err(SensorError::MalformedRecord));
}

#[test]
fn decode_log_of_nothing_is_empty() {
    assert_eq!(decode_log(&[], UTC_PLUS_8), Ok(vec![]));
}

#[test]
fn decode_log_rejects_trailing_fragment() {
    let mut log = encode(&sample());
    log.extend_from_slice(&encode(&sample())[..9]);
    assert_eq!(log.len(), 19);
    assert_eq!(decode_log(&log, UTC_PLUS_8), Err(SensorError::MalformedRecord));
}

#[test]
fn decode_log_keeps_order() {
    let a = sample();
    let b = DataItem { time: a.time + 600, ..a };
    let mut log = encode(&a);
    log.extend(encode(&b));
    assert_eq!(decode_log(&log, UTC_PLUS_8), Ok(vec![a, b]));
}
