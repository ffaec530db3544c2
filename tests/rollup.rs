use sensor_log::{bucket_key, encode, get_summary, roll_up, DataItem, Period, SensorError, UTC_PLUS_8};

// 2024-01-01T00:00:00Z
const NEW_YEAR_2024: u32 = 1704067200;

fn reading(time: u32, max_t: i16, min_t: i16, max_h: u8, min_h: u8) -> DataItem {
    DataItem {
        time,
        offset: UTC_PLUS_8,
        max_temperature: max_t,
        min_temperature: min_t,
        max_humidity: max_h,
        min_humidity: min_h,
    }
}

fn example() -> Vec<DataItem> {
    vec![
        // 2024-01-01T10:00+08:00
        reading(NEW_YEAR_2024 + 2 * 3600, 2650, 2400, 60, 40),
        // 2024-01-01T18:00+08:00
        reading(NEW_YEAR_2024 + 10 * 3600, 2700, 2500, 65, 45),
        // 2024-01-02T09:00+08:00
        reading(NEW_YEAR_2024 + 25 * 3600, 2300, 2100, 70, 50),
    ]
}

fn log_of(items: &[DataItem]) -> Vec<u8> {
    let mut log = Vec::new();
    for item in items {
        log.extend(encode(item));
    }
    log
}

#[test]
fn day_and_month_rollup_of_example() {
    let input = example();
    let days = roll_up(input.clone(), Period::Day, UTC_PLUS_8);
    assert_eq!(days.len(), 2);
    assert_eq!(days[0].details, vec![input[0], input[1]]);
    assert_eq!(days[0].summary, reading(input[0].time, 2700, 2400, 65, 40));
    assert_eq!(days[1].details, vec![input[2]]);
    assert_eq!(days[1].summary, reading(input[2].time, 2300, 2100, 70, 50));

    let months = roll_up(days, Period::Month, UTC_PLUS_8);
    assert_eq!(months.len(), 1);
    assert_eq!(months[0].details.len(), 2);
    assert_eq!(months[0].summary, reading(input[0].time, 2700, 2100, 70, 40));
}

#[test]
fn full_summary_of_example() {
    let input = example();
    let years = get_summary(&log_of(&input), UTC_PLUS_8).unwrap();
    assert_eq!(years.len(), 1);
    assert_eq!(years[0].summary, reading(input[0].time, 2700, 2100, 70, 40));
    assert_eq!(years[0].details.len(), 1);
    let month = &years[0].details[0];
    assert_eq!(month.details.len(), 2);
    let leaves: Vec<DataItem> = month.details.iter().flat_map(|d| d.details.iter().copied()).collect();
    assert_eq!(leaves, input);
}

#[test]
fn empty_log_gives_empty_forest() {
    assert_eq!(get_summary(&[], UTC_PLUS_8).unwrap().len(), 0);
    assert_eq!(roll_up(Vec::<DataItem>::new(), Period::Day, UTC_PLUS_8).len(), 0);
}

#[test]
fn malformed_tail_is_an_error() {
    let mut log = log_of(&example());
    log.truncate(log.len() - 1);
    assert_eq!(get_summary(&log, UTC_PLUS_8).err(), Some(SensorError::MalformedRecord));
}

#[test]
fn single_item_is_a_singleton_group() {
    let r = reading(NEW_YEAR_2024, 100, -100, 10, 5);
    let days = roll_up(vec![r], Period::Day, UTC_PLUS_8);
    assert_eq!(days.len(), 1);
    assert_eq!(days[0].summary, r);
    assert_eq!(days[0].details, vec![r]);
}

#[test]
fn buckets_use_the_given_zone() {
    // 2023-12-31T20:00Z is 2024-01-01T04:00+08:00.
    let t = NEW_YEAR_2024 - 4 * 3600;
    assert_eq!(bucket_key(Period::Day, t, 0), 19722);
    assert_eq!(bucket_key(Period::Day, t, UTC_PLUS_8), 19723);
    assert_eq!(bucket_key(Period::Year, t, 0), 2023);
    assert_eq!(bucket_key(Period::Year, t, UTC_PLUS_8), 2024);
    assert_eq!(bucket_key(Period::Month, t, 0), 2023 * 12 + 11);
    assert_eq!(bucket_key(Period::Month, t, UTC_PLUS_8), 2024 * 12);
    // Before the epoch in a zone west of UTC.
    assert_eq!(bucket_key(Period::Day, 0, -3600), -1);
    assert_eq!(bucket_key(Period::Year, 0, -3600), 1969);
}

#[test]
fn years_months_and_days_split_at_boundaries() {
    // 2023-12-31T23:30+08:00 and 2024-01-01T00:30+08:00
    let a = reading(NEW_YEAR_2024 - 8 * 3600 - 1800, 10, 0, 1, 1);
    let b = reading(NEW_YEAR_2024 - 8 * 3600 + 1800, 20, -5, 2, 0);
    let years = get_summary(&log_of(&[a, b]), UTC_PLUS_8).unwrap();
    assert_eq!(years.len(), 2);
    assert_eq!(years[0].summary, a);
    assert_eq!(years[1].summary, b);
    // The same instants in UTC fall on one day.
    let years = get_summary(&log_of(&[a, b]), 0).unwrap();
    assert_eq!(years.len(), 1);
    assert_eq!(years[0].details[0].details.len(), 1);
    assert_eq!(years[0].summary, DataItem { offset: 0, ..reading(a.time, 20, -5, 2, 0) });
}

#[test]
fn extrema_compose_across_levels() {
    let mut input = Vec::new();
    for day in 0..40u32 {
        let t = NEW_YEAR_2024 + day * 86400;
        input.push(reading(t, (day as i16) * 10, -(day as i16), (day % 7) as u8, 50 - (day % 5) as u8));
    }
    let years = get_summary(&log_of(&input), UTC_PLUS_8).unwrap();
    assert_eq!(years.len(), 1);
    assert_eq!(years[0].details.len(), 2);
    assert_eq!(years[0].details[0].details.len(), 31);
    assert_eq!(years[0].summary.max_temperature, 390);
    assert_eq!(years[0].summary.min_temperature, -39);
    assert_eq!(years[0].summary.max_humidity, 6);
    assert_eq!(years[0].summary.min_humidity, 46);
    assert_eq!(years[0].details[1].summary.max_temperature, 390);
    assert_eq!(years[0].details[0].summary.max_temperature, 300);
}
