use sensor_log::{
    accept_notification, collect_records, discovery_step, find_characteristics, name_matches,
    record_count, resume_threshold, CharacteristicInfo, Endpoint, ScanAction, ScanEvent,
    SensorError, DATA_CHAR_UUID, DATA_COUNT_CHAR_UUID, PROP_NOTIFY, PROP_READ, SENSOR_NAME,
};

fn notification(index: u32, time: u32, fill: u8) -> Vec<u8> {
    let mut p = index.to_le_bytes().to_vec();
    p.extend_from_slice(&time.to_le_bytes());
    p.extend_from_slice(&[fill; 6]);
    p
}

#[test]
fn sensor_name_marker() {
    assert!(name_matches("LYWSD02", SENSOR_NAME));
    assert!(name_matches("Mi LYWSD02 clock", SENSOR_NAME));
    assert!(!name_matches("LYWSD0", SENSOR_NAME));
    assert!(!name_matches("lywsd02", SENSOR_NAME));
    assert!(!name_matches("", SENSOR_NAME));
    assert!(name_matches("anything", ""));
}

#[test]
fn characteristics_found_by_uuid_and_property() {
    let chars = vec![
        CharacteristicInfo { uuid: DATA_CHAR_UUID, properties: PROP_READ },
        CharacteristicInfo { uuid: DATA_COUNT_CHAR_UUID, properties: PROP_READ | PROP_NOTIFY },
        CharacteristicInfo { uuid: 7, properties: 0xff },
        CharacteristicInfo { uuid: DATA_CHAR_UUID, properties: PROP_NOTIFY },
    ];
    assert_eq!(find_characteristics(&chars), Ok((1, 3)));
}

#[test]
fn missing_characteristics_are_named() {
    let only_data = vec![CharacteristicInfo { uuid: DATA_CHAR_UUID, properties: PROP_NOTIFY }];
    assert_eq!(find_characteristics(&only_data), Err(SensorError::CharacteristicMissing(Endpoint::Count)));
    let only_count = vec![CharacteristicInfo { uuid: DATA_COUNT_CHAR_UUID, properties: PROP_READ }];
    assert_eq!(find_characteristics(&only_count), Err(SensorError::CharacteristicMissing(Endpoint::Data)));
    let wrong_props = vec![
        CharacteristicInfo { uuid: DATA_COUNT_CHAR_UUID, properties: PROP_NOTIFY },
        CharacteristicInfo { uuid: DATA_CHAR_UUID, properties: PROP_NOTIFY },
    ];
    assert_eq!(find_characteristics(&wrong_props), Err(SensorError::CharacteristicMissing(Endpoint::Count)));
    assert_eq!(find_characteristics(&vec![]), Err(SensorError::CharacteristicMissing(Endpoint::Count)));
}

#[test]
fn count_is_read_from_bytes_four_to_eight() {
    assert_eq!(record_count(&[9, 9, 9, 9, 0x10, 0x27, 0, 0]), Ok(10000));
    assert_eq!(record_count(&[0, 0, 0, 0, 1, 2, 3, 4, 5]), Ok(0x04030201));
    assert_eq!(record_count(&[0; 7]), Err(SensorError::MalformedRecord));
}

#[test]
fn resume_keeps_only_newer_records_in_order() {
    let ps = vec![
        notification(0, 100, 1),
        notification(1, 300, 2),
        notification(2, 200, 3),
        notification(3, 400, 4),
    ];
    let got = collect_records(&ps, Some(200)).unwrap();
    let mut want = ps[1][4..].to_vec();
    want.extend_from_slice(&ps[3][4..]);
    assert_eq!(got, want);
}

#[test]
fn no_threshold_fetches_everything() {
    let ps = vec![notification(0, 100, 1), notification(1, 50, 2)];
    let got = collect_records(&ps, None).unwrap();
    let mut want = ps[0][4..].to_vec();
    want.extend_from_slice(&ps[1][4..]);
    assert_eq!(got, want);
    assert_eq!(got.len(), 20);
}

#[test]
fn nothing_new_appends_nothing() {
    let ps = vec![notification(0, 100, 1), notification(1, 200, 2)];
    assert_eq!(collect_records(&ps, Some(200)).unwrap(), Vec::<u8>::new());
    assert_eq!(collect_records(&vec![], Some(0)).unwrap(), Vec::<u8>::new());
}

#[test]
fn wrong_sized_notification_is_malformed() {
    let mut short = notification(0, 500, 1);
    short.pop();
    let ps = vec![notification(0, 500, 1), short];
    assert_eq!(collect_records(&ps, None), Err(SensorError::MalformedRecord));
    let mut buffer = vec![7u8];
    assert_eq!(accept_notification(&mut buffer, &[0; 15], None), Err(SensorError::MalformedRecord));
    assert_eq!(buffer, vec![7u8]);
}

#[test]
fn accept_appends_record_after_prefix() {
    let mut buffer = vec![1u8];
    let p = notification(9, 1000, 5);
    assert_eq!(accept_notification(&mut buffer, &p, Some(999)), Ok(()));
    assert_eq!(buffer.len(), 11);
    assert_eq!(&buffer[1..], &p[4..]);
    assert_eq!(accept_notification(&mut buffer, &p, Some(1000)), Ok(()));
    assert_eq!(buffer.len(), 11);
}

#[test]
fn threshold_from_last_record() {
    assert_eq!(resume_threshold(&[]), Ok(None));
    let mut log = vec![0u8; 10];
    log.extend_from_slice(&[0x78, 0x56, 0x34, 0x12, 0, 0, 0, 0, 0, 0]);
    assert_eq!(resume_threshold(&log), Ok(Some(0x12345678)));
    assert_eq!(resume_threshold(&log[..19]), Err(SensorError::MalformedRecord));
}

#[test]
fn discovery_decisions() {
    assert_eq!(discovery_step(ScanEvent::ProbeMatched(3)), ScanAction::Accept(3));
    assert_eq!(discovery_step(ScanEvent::DeviceDiscovered(4)), ScanAction::Probe(4));
    assert_eq!(discovery_step(ScanEvent::ScanEnded), ScanAction::Fail(SensorError::SensorNotFound));
}
