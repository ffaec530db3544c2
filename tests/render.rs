use sensor_log::get_temp;

#[test]
fn temperatures_as_text() {
    assert_eq!(get_temp(2650), "26.50");
    assert_eq!(get_temp(2605), "26.5");
    assert_eq!(get_temp(0), "0.0");
    assert_eq!(get_temp(-150), "-1.-50");
    assert_eq!(get_temp(-50), "0.-50");
    assert_eq!(get_temp(i16::MIN), "-327.-68");
    assert_eq!(get_temp(i16::MAX), "327.67");
}

use sensor_log::{encode, gen_html_string, get_summary, DataItem, UTC_PLUS_8};

#[test]
fn document_of_one_reading() {
    // 2024-01-01T10:00:00+08:00
    let item = DataItem {
        time: 1704074400,
        offset: UTC_PLUS_8,
        max_temperature: 2650,
        min_temperature: 2400,
        max_humidity: 60,
        min_humidity: 40,
    };
    let years = get_summary(&encode(&item), UTC_PLUS_8).unwrap();
    let html = gen_html_string(&years, UTC_PLUS_8);
    let line = "<div>2024-01-01 10:00:00 +08:00,26.50℃,24.0℃,60%,40%</div>";
    let node = |inner: &str| format!("<details><summary>{line}</summary>{inner}</details>");
    let body = node(&node(&node(line)));
    assert!(html.starts_with("<!DOCTYPE html><html lang=\"en\">"));
    assert!(html.ends_with(&format!("<body>{body}</body></html>")));
}

#[test]
fn document_of_empty_forest() {
    let html = gen_html_string(&[], UTC_PLUS_8);
    assert!(html.ends_with("</style></head><body></body></html>"));
}

#[test]
fn times_follow_the_given_zone() {
    let item = DataItem { time: 0, offset: 0, max_temperature: 5, min_temperature: -5, max_humidity: 1, min_humidity: 0 };
    let years = get_summary(&encode(&item), -3600).unwrap();
    let html = gen_html_string(&years, -3600);
    assert!(html.contains("<div>1969-12-31 23:00:00 -01:00,0.5℃,0.-5℃,1%,0%</div>"));
}
