//! Ingest, storage and roll-up of temperature / humidity samples from a wireless
//! environmental sensor.
//!
//! - [`codec`]: the fixed 10-byte record format of one sample.
//! - [`rollup`]: the day / month / year summary trees built from a decoded log.
//! - [`link`]: the decisions of the device session (discovery, endpoint selection,
//!   resumable collection) and the log's resume threshold.
//! - [`render`]: text rendering of temperatures and of the summary forest.
mod error;
pub mod codec;
pub mod rollup;
pub mod link;
pub mod render;

pub use error::{Endpoint, SensorError};
pub use codec::{decode, decode_log, encode, DataItem, BYTES_PER_DATUM, UTC_PLUS_8};
pub use rollup::{bucket_key, get_summary, roll_up, Day, Item, Month, Period, Summary, Year};
pub use link::{
    accept_notification, collect_records, discovery_step, find_characteristics, name_matches,
    record_count, resume_threshold, CharacteristicInfo, ScanAction, ScanEvent,
    DATA_CHAR_UUID, DATA_COUNT_CHAR_UUID, NOTIFICATION_PREFIX, PROP_NOTIFY, PROP_READ,
    SENSOR_NAME,
};
pub use render::{gen_html_string, get_temp, WriteHtml};
