use vstd::prelude::*;

use crate::error::SensorError;

verus! {

/// Size in bytes of one encoded record.
pub const BYTES_PER_DATUM: usize = 10;

/// The fixed offset of the sensor's home time zone, UTC+8, in seconds east of UTC.
pub const UTC_PLUS_8: i32 = 28800;

/// One decoded sample.
///
/// `time` is the instant in unix seconds; `offset` the seconds east of UTC of the
/// zone it is shown in. Temperatures are in hundredths of a degree, humidities in
/// percent.
#[derive(Clone, Copy, Debug, PartialEq, Eq, Structural)]
pub struct DataItem {
    pub time: u32,
    pub offset: i32,
    pub max_temperature: i16,
    pub min_temperature: i16,
    pub max_humidity: u8,
    pub min_humidity: u8,
}

/// An offset that a fixed time zone can have: less than a day either way.
pub open spec fn valid_offset(offset: i32) -> bool {
    -86400 < offset < 86400
}

/// The little-endian unsigned 16-bit value at `b[i..i + 2]`.
pub open spec fn le_u16(b: Seq<u8>, i: int) -> int {
    b[i] + 256 * b[i + 1]
}

/// The little-endian two's-complement 16-bit value at `b[i..i + 2]`.
pub open spec fn le_i16(b: Seq<u8>, i: int) -> int {
    if le_u16(b, i) >= 32768 {
        le_u16(b, i) - 65536
    } else {
        le_u16(b, i)
    }
}

/// The little-endian unsigned 32-bit value at `b[i..i + 4]`.
pub open spec fn le_u32(b: Seq<u8>, i: int) -> int {
    le_u16(b, i) + 65536 * le_u16(b, i + 2)
}

/// The sample that a 10-byte record holds: the time at 0..4, the maximum
/// temperature at 4..6, the maximum humidity at 6, the minimum temperature at 7..9
/// and the minimum humidity at 9.
pub open spec fn record_item(b: Seq<u8>, offset: i32) -> DataItem {
    DataItem {
        time: le_u32(b, 0) as u32,
        offset,
        max_temperature: le_i16(b, 4) as i16,
        min_temperature: le_i16(b, 7) as i16,
        max_humidity: b[6],
        min_humidity: b[9],
    }
}

/// The two bytes, low first, of a 16-bit value given as its unsigned reading.
pub open spec fn u16_bytes(v: int) -> Seq<u8> {
    seq![(v % 256) as u8, (v / 256) as u8]
}

/// The unsigned reading of a signed 16-bit value.
pub open spec fn i16_bits(v: i16) -> int {
    if v < 0 {
        v + 65536
    } else {
        v as int
    }
}

/// The 10-byte record of a sample.
pub open spec fn item_record(d: DataItem) -> Seq<u8> {
    u16_bytes(d.time as int % 65536) + u16_bytes(d.time as int / 65536) + u16_bytes(i16_bits(d.max_temperature))
        + seq![d.max_humidity] + u16_bytes(i16_bits(d.min_temperature)) + seq![d.min_humidity]
}

fn read_u16(b: &[u8], i: usize) -> (r: u16)
    requires
        i + 2 <= b@.len(),
    ensures
        r == le_u16(b@, i as int),
{
    b[i] as u16 + 256 * (b[i + 1] as u16)
}

fn read_i16(b: &[u8], i: usize) -> (r: i16)
    requires
        i + 2 <= b@.len(),
    ensures
        r == le_i16(b@, i as int),
{
    let u = read_u16(b, i);
    if u >= 32768 {
        (u as i32 - 65536) as i16
    } else {
        u as i16
    }
}

/// The samples of a log: one per whole record, in order.
pub open spec fn log_items(b: Seq<u8>, offset: i32) -> Seq<DataItem> {
    Seq::new((b.len() / 10) as nat, |i: int| record_item(b.subrange(10 * i, 10 * i + 10), offset))
}

fn record_at(b: &[u8], base: usize, offset: i32) -> (r: DataItem)
    requires
        base + 10 <= b@.len(),
    ensures
        r == record_item(b@.subrange(base as int, base + 10), offset),
{
    let ghost sub = b@.subrange(base as int, base + 10);
    let _len = b.len();
    let low = read_u16(b, base);
    let high = read_u16(b, base + 2);
    let max_temperature = read_i16(b, base + 4);
    let min_temperature = read_i16(b, base + 7);
    assert(le_u16(sub, 0) == low && le_u16(sub, 2) == high);
    assert(le_i16(sub, 4) == max_temperature && le_i16(sub, 7) == min_temperature);
    DataItem {
        time: low as u32 + 65536 * (high as u32),
        offset,
        max_temperature,
        min_temperature,
        max_humidity: b[base + 6],
        min_humidity: b[base + 9],
    }
}

/// Decodes one record into a sample shown at `offset`.
///
/// Anything but exactly ten bytes is a `MalformedRecord`.
pub fn decode(bytes: &[u8], offset: i32) -> (r: Result<DataItem, SensorError>)
    ensures
        bytes@.len() == BYTES_PER_DATUM ==> r == Ok::<DataItem, SensorError>(record_item(bytes@, offset)),
        bytes@.len() != BYTES_PER_DATUM ==> r == Err::<DataItem, SensorError>(SensorError::MalformedRecord),
{
    if bytes.len() != BYTES_PER_DATUM {
        return Err(SensorError::MalformedRecord);
    }
    assert(bytes@.subrange(0, 10) =~= bytes@);
    Ok(record_at(bytes, 0, offset))
}

/// Decodes a whole log, shown at `offset`.
///
/// A log whose length is not a multiple of ten ends in a fragment of a record and
/// is a `MalformedRecord`; an empty log has no samples.
pub fn decode_log(data: &[u8], offset: i32) -> (r: Result<Vec<DataItem>, SensorError>)
    ensures
        data@.len() % 10 == 0 ==> r is Ok && r->Ok_0@ == log_items(data@, offset),
        data@.len() % 10 != 0 ==> r == Err::<Vec<DataItem>, SensorError>(SensorError::MalformedRecord),
{
    if data.len() % BYTES_PER_DATUM != 0 {
        return Err(SensorError::MalformedRecord);
    }
    let len = data.len();
    let count = len / BYTES_PER_DATUM;
    let mut items: Vec<DataItem> = Vec::with_capacity(count);
    let mut i: usize = 0;
    while i < count
        invariant
            len == data@.len(),
            count == data@.len() / 10,
            data@.len() % 10 == 0,
            i <= count,
            items@ == log_items(data@, offset).subrange(0, i as int),
        decreases count - i,
    {
        assert(i * 10 + 10 <= data@.len()) by (nonlinear_arith)
            requires
                i < count,
                count == data@.len() / 10,
        ;
        let item = record_at(data, i * BYTES_PER_DATUM, offset);
        items.push(item);
        i += 1;
        assert(items@ =~= log_items(data@, offset).subrange(0, i as int));
    }
    assert(items@ =~= log_items(data@, offset));
    Ok(items)
}

fn push_u16(out: &mut Vec<u8>, v: u32)
    requires
        v < 65536,
    ensures
        final(out)@ == old(out)@ + u16_bytes(v as int),
{
    out.push((v % 256) as u8);
    out.push((v / 256) as u8);
}

fn i16_to_bits(v: i16) -> (r: u32)
    ensures
        r == i16_bits(v),
        r < 65536,
{
    if v < 0 {
        (v as i32 + 65536) as u32
    } else {
        v as u32
    }
}

/// Encodes a sample as its 10-byte record. The offset is not stored.
pub fn encode(item: &DataItem) -> (r: Vec<u8>)
    ensures
        r@ == item_record(*item),
        r@.len() == BYTES_PER_DATUM,
{
    let mut out: Vec<u8> = Vec::with_capacity(BYTES_PER_DATUM);
    push_u16(&mut out, item.time % 65536);
    push_u16(&mut out, item.time / 65536);
    push_u16(&mut out, i16_to_bits(item.max_temperature));
    out.push(item.max_humidity);
    push_u16(&mut out, i16_to_bits(item.min_temperature));
    out.push(item.min_humidity);
    assert(out@ =~= item_record(*item));
    out
}

/// Decoding the record of a sample at the sample's own offset gives the sample back.
pub proof fn lemma_round_trip(d: DataItem)
    ensures
        item_record(d).len() == BYTES_PER_DATUM,
        record_item(item_record(d), d.offset) == d,
{
    let b = item_record(d);
    assert(le_u16(b, 0) == d.time % 65536);
    assert(le_u16(b, 2) == d.time / 65536);
    assert(le_u16(b, 4) == i16_bits(d.max_temperature));
    assert(le_u16(b, 7) == i16_bits(d.min_temperature));
}

} // verus!
