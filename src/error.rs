use vstd::prelude::*;

verus! {

/// Which of the two device endpoints is meant.
#[derive(Clone, Copy, Debug, PartialEq, Eq, Structural)]
pub enum Endpoint {
    /// The readable endpoint that reports how many records the device holds.
    Count,
    /// The notifying endpoint that streams one record per notification.
    Data,
}

/// The failures of a sync or of decoding the log.
#[derive(Clone, Copy, Debug, PartialEq, Eq, Structural)]
pub enum SensorError {
    AdapterUnavailable,
    SensorNotFound,
    CharacteristicMissing(Endpoint),
    TransportError,
    MalformedRecord,
    LogIoError,
}

impl SensorError {
    /// A short description of the error.
    pub fn describe(&self) -> (r: &'static str) {
        match self {
            SensorError::AdapterUnavailable => "no Bluetooth adapter found",
            SensorError::SensorNotFound => "sensor not found",
            SensorError::CharacteristicMissing(Endpoint::Count) => "`data count` characteristic missing",
            SensorError::CharacteristicMissing(Endpoint::Data) => "`data` characteristic missing",
            SensorError::TransportError => "transport error",
            SensorError::MalformedRecord => "malformed record",
            SensorError::LogIoError => "log file error",
        }
    }
}

} // verus!
