use vstd::prelude::*;

use crate::codec::{le_u32, BYTES_PER_DATUM};
use crate::error::{Endpoint, SensorError};
use crate::rollup::{concat_all, lemma_concat_push};

verus! {

/// The text that the sensor's advertised name contains.
pub const SENSOR_NAME: &'static str = "LYWSD02";

/// UUID of the readable endpoint that reports the number of stored records.
pub const DATA_COUNT_CHAR_UUID: u128 = 0xebe0ccb9_7a0a_4b0c_8a1a_6ff2997da3a6;

/// UUID of the notifying endpoint that streams the records.
pub const DATA_CHAR_UUID: u128 = 0xebe0ccbc_7a0a_4b0c_8a1a_6ff2997da3a6;

/// Property bit of an endpoint that can be read.
pub const PROP_READ: u8 = 0x02;

/// Property bit of an endpoint that can notify.
pub const PROP_NOTIFY: u8 = 0x10;

/// Bytes before the record in each notification.
pub const NOTIFICATION_PREFIX: usize = 4;

/// An endpoint that a device offers: its UUID and its property bits.
#[derive(Clone, Copy, Debug, PartialEq, Eq, Structural)]
pub struct CharacteristicInfo {
    pub uuid: u128,
    pub properties: u8,
}

/// `m` occurs in `s` as a contiguous run.
pub open spec fn occurs_in(m: Seq<char>, s: Seq<char>) -> bool {
    exists|i: int| 0 <= i && i + m.len() <= s.len() && #[trigger] s.subrange(i, i + m.len()) == m
}

/// Whether the advertised `name` contains `marker`.
pub fn name_matches(name: &str, marker: &str) -> (r: bool)
    ensures
        r == occurs_in(marker@, name@),
{
    let n = name.unicode_len();
    let m = marker.unicode_len();
    if m > n {
        return false;
    }
    let mut i: usize = 0;
    while i <= n - m
        invariant
            n == name@.len(),
            m == marker@.len(),
            m <= n,
            i <= n - m + 1,
            forall|p: int| 0 <= p < i ==> #[trigger] name@.subrange(p, p + m) != marker@,
        decreases n - m + 1 - i,
    {
        let mut j: usize = 0;
        while j < m && name.get_char(i + j) == marker.get_char(j)
            invariant
                n == name@.len(),
                m == marker@.len(),
                i + m <= n,
                j <= m,
                forall|q: int| 0 <= q < j ==> name@[i + q] == marker@[q],
            decreases m - j,
        {
            j += 1;
        }
        if j == m {
            assert(name@.subrange(i as int, i + m) =~= marker@);
            return true;
        }
        assert(name@.subrange(i as int, i + m)[j as int] != marker@[j as int]);
        i += 1;
    }
    assert forall|p: int| 0 <= p && p + m <= name@.len() implies #[trigger] name@.subrange(p, p + m)
        != marker@ by {
        assert(p < i);
    }
    false
}

/// An endpoint that reports the record count: the count UUID, readable.
pub open spec fn is_count_char(c: CharacteristicInfo) -> bool {
    c.uuid == DATA_COUNT_CHAR_UUID && c.properties & PROP_READ != 0
}

/// An endpoint that streams the records: the data UUID, notifying.
pub open spec fn is_data_char(c: CharacteristicInfo) -> bool {
    c.uuid == DATA_CHAR_UUID && c.properties & PROP_NOTIFY != 0
}

/// The last index of `s` whose endpoint meets `p`, if any.
pub open spec fn last_match(s: Seq<CharacteristicInfo>, p: spec_fn(CharacteristicInfo) -> bool) -> Option<int>
    decreases s.len(),
{
    if s.len() == 0 {
        None
    } else if p(s.last()) {
        Some(s.len() - 1)
    } else {
        last_match(s.drop_last(), p)
    }
}

spec fn index_of(o: Option<usize>) -> Option<int> {
    match o {
        Some(x) => Some(x as int),
        None => None,
    }
}

/// Picks the count endpoint and the data endpoint among those a device offers,
/// and returns their indices, in that order. Where an endpoint occurs twice the
/// last one is taken.
///
/// A missing endpoint is a `CharacteristicMissing` naming it; the count endpoint
/// is looked for first.
pub fn find_characteristics(chars: &Vec<CharacteristicInfo>) -> (r: Result<(usize, usize), SensorError>)
    ensures
        match (last_match(chars@, |c| is_count_char(c)), last_match(chars@, |c| is_data_char(c))) {
            (Some(c), Some(d)) => r == Ok::<(usize, usize), SensorError>((c as usize, d as usize)),
            (None, _) => r == Err::<(usize, usize), SensorError>(
                SensorError::CharacteristicMissing(Endpoint::Count),
            ),
            (Some(_), None) => r == Err::<(usize, usize), SensorError>(
                SensorError::CharacteristicMissing(Endpoint::Data),
            ),
        },
{
    let mut count: Option<usize> = None;
    let mut data: Option<usize> = None;
    let mut i: usize = 0;
    while i < chars.len()
        invariant
            i <= chars@.len(),
            index_of(count) == last_match(chars@.subrange(0, i as int), |c| is_count_char(c)),
            index_of(data) == last_match(chars@.subrange(0, i as int), |c| is_data_char(c)),
            forall|x: int| last_match(chars@.subrange(0, i as int), |c| is_count_char(c)) == Some(x) ==> 0 <= x < i,
            forall|x: int| last_match(chars@.subrange(0, i as int), |c| is_data_char(c)) == Some(x) ==> 0 <= x < i,
        decreases chars@.len() - i,
    {
        let c = chars[i];
        let ghost before = chars@.subrange(0, i as int);
        proof {
            let after = chars@.subrange(0, i + 1);
            assert(after.drop_last() =~= before);
            assert(after.last() == c);
            lemma_last_match_bound(before, |c| is_count_char(c));
            lemma_last_match_bound(before, |c| is_data_char(c));
        }
        if c.uuid == DATA_CHAR_UUID && c.properties & PROP_NOTIFY != 0 {
            data = Some(i);
        }
        if c.uuid == DATA_COUNT_CHAR_UUID && c.properties & PROP_READ != 0 {
            count = Some(i);
        }
        i += 1;
    }
    assert(chars@.subrange(0, chars@.len() as int) =~= chars@);
    match (count, data) {
        (Some(c), Some(d)) => Ok((c, d)),
        (None, _) => Err(SensorError::CharacteristicMissing(Endpoint::Count)),
        (Some(_), None) => Err(SensorError::CharacteristicMissing(Endpoint::Data)),
    }
}

proof fn lemma_last_match_bound(s: Seq<CharacteristicInfo>, p: spec_fn(CharacteristicInfo) -> bool)
    ensures
        forall|x: int| last_match(s, p) == Some(x) ==> 0 <= x < s.len(),
    decreases s.len(),
{
    if s.len() > 0 {
        lemma_last_match_bound(s.drop_last(), p);
    }
}

/// The number of records that the count endpoint reports: the little-endian
/// 32-bit value at bytes 4..8 of what it reads. A shorter value is a
/// `MalformedRecord`.
pub fn record_count(value: &[u8]) -> (r: Result<u32, SensorError>)
    ensures
        value@.len() >= 8 ==> r == Ok::<u32, SensorError>(le_u32(value@, 4) as u32),
        value@.len() < 8 ==> r == Err::<u32, SensorError>(SensorError::MalformedRecord),
{
    if value.len() < 8 {
        return Err(SensorError::MalformedRecord);
    }
    Ok(read_u32(value, 4))
}

fn read_u32(b: &[u8], i: usize) -> (r: u32)
    requires
        i + 4 <= b@.len(),
    ensures
        r == le_u32(b@, i as int),
{
    let _len = b.len();
    b[i] as u32 + 256 * (b[i + 1] as u32) + 65536 * (b[i + 2] as u32 + 256 * (b[i + 3] as u32))
}

/// The timestamp that a notification carries: that of its record, after the
/// prefix.
pub open spec fn notification_time(p: Seq<u8>) -> int {
    le_u32(p, 4)
}

/// The record that a notification carries.
pub open spec fn notification_record(p: Seq<u8>) -> Seq<u8> {
    p.subrange(4, 14)
}

/// A notification of the right size: the prefix and one record.
pub open spec fn well_sized(p: Seq<u8>) -> bool {
    p.len() == NOTIFICATION_PREFIX + BYTES_PER_DATUM
}

/// A record is kept when there is no threshold, or it is strictly newer than it.
pub open spec fn is_newer(p: Seq<u8>, since: Option<u32>) -> bool {
    match since {
        Some(t) => notification_time(p) > t,
        None => true,
    }
}

/// The bytes to append for a stream of notifications: the records of those newer
/// than `since`, in arrival order.
pub open spec fn new_records(ps: Seq<Seq<u8>>, since: Option<u32>) -> Seq<u8> {
    concat_all(ps.filter(|p: Seq<u8>| is_newer(p, since)).map_values(|p: Seq<u8>| notification_record(p)))
}

/// Takes one notification into the fetch buffer: its record is appended when it
/// is newer than `since`, and dropped otherwise. A notification that is not one
/// prefix and one record long is a `MalformedRecord` and leaves the buffer as it
/// was.
pub fn accept_notification(buffer: &mut Vec<u8>, payload: &[u8], since: Option<u32>) -> (r: Result<(), SensorError>)
    ensures
        well_sized(payload@) ==> r is Ok,
        !well_sized(payload@) ==> r == Err::<(), SensorError>(SensorError::MalformedRecord),
        r is Ok && is_newer(payload@, since) ==> final(buffer)@ == old(buffer)@ + notification_record(payload@),
        !(r is Ok && is_newer(payload@, since)) ==> final(buffer)@ == old(buffer)@,
{
    if payload.len() != NOTIFICATION_PREFIX + BYTES_PER_DATUM {
        return Err(SensorError::MalformedRecord);
    }
    let keep = match since {
        Some(t) => read_u32(payload, 4) > t,
        None => true,
    };
    if keep {
        let mut i: usize = NOTIFICATION_PREFIX;
        let ghost start = buffer@;
        while i < payload.len()
            invariant
                payload@.len() == 14,
                4 <= i <= 14,
                buffer@ == start + payload@.subrange(4, i as int),
            decreases 14 - i,
        {
            buffer.push(payload[i]);
            i += 1;
            assert(buffer@ =~= start + payload@.subrange(4, i as int));
        }
    }
    Ok(())
}

/// Collects a whole stream of notifications: the records newer than `since`, in
/// arrival order. Any notification of the wrong size is a `MalformedRecord`.
pub fn collect_records(payloads: &Vec<Vec<u8>>, since: Option<u32>) -> (r: Result<Vec<u8>, SensorError>)
    ensures
        (forall|i: int| 0 <= i < payloads@.len() ==> well_sized(#[trigger] payloads@[i]@)) ==> r is Ok
            && r->Ok_0@ == new_records(payloads@.map_values(|p: Vec<u8>| p@), since),
        !(forall|i: int| 0 <= i < payloads@.len() ==> well_sized(#[trigger] payloads@[i]@)) ==> r
            == Err::<Vec<u8>, SensorError>(SensorError::MalformedRecord),
{
    let ghost views = payloads@.map_values(|p: Vec<u8>| p@);
    let mut buffer: Vec<u8> = Vec::new();
    let mut i: usize = 0;
    proof {
        reveal(Seq::filter);
    }
    assert(views.subrange(0, 0).filter(|p: Seq<u8>| is_newer(p, since)) =~= Seq::<Seq<u8>>::empty());
    assert(new_records(views.subrange(0, 0), since) =~= Seq::<u8>::empty());
    while i < payloads.len()
        invariant
            views == payloads@.map_values(|p: Vec<u8>| p@),
            i <= payloads@.len(),
            forall|j: int| 0 <= j < i ==> well_sized(#[trigger] payloads@[j]@),
            buffer@ == new_records(views.subrange(0, i as int), since),
        decreases payloads@.len() - i,
    {
        let ghost before = buffer@;
        match accept_notification(&mut buffer, payloads[i].as_slice(), since) {
            Ok(()) => {},
            Err(e) => return Err(e),
        }
        proof {
            let pre = views.subrange(0, i as int);
            let post = views.subrange(0, i + 1);
            let keep = |p: Seq<u8>| is_newer(p, since);
            let rec = |p: Seq<u8>| notification_record(p);
            reveal(Seq::filter);
            assert(post.drop_last() =~= pre);
            assert(post.last() == payloads@[i as int]@);
            if is_newer(payloads@[i as int]@, since) {
                assert(post.filter(keep) == pre.filter(keep).push(post.last()));
                assert(post.filter(keep).map_values(rec) =~= pre.filter(keep).map_values(rec).push(
                    rec(post.last()),
                ));
                lemma_concat_push(pre.filter(keep).map_values(rec), rec(post.last()));
            } else {
                assert(post.filter(keep) == pre.filter(keep));
            }
        }
        i += 1;
    }
    assert(views.subrange(0, i as int) =~= views);
    Ok(buffer)
}

/// The resume threshold of a log: none for an empty log, else the timestamp of its
/// last record. A log that ends in a fragment of a record is a `MalformedRecord`.
pub fn resume_threshold(log: &[u8]) -> (r: Result<Option<u32>, SensorError>)
    ensures
        log@.len() == 0 ==> r == Ok::<Option<u32>, SensorError>(None),
        log@.len() > 0 && log@.len() % 10 == 0 ==> r == Ok::<Option<u32>, SensorError>(
            Some(le_u32(log@, log@.len() - 10) as u32),
        ),
        log@.len() % 10 != 0 ==> r == Err::<Option<u32>, SensorError>(SensorError::MalformedRecord),
{
    let len = log.len();
    if len == 0 {
        return Ok(None);
    }
    if len % BYTES_PER_DATUM != 0 {
        return Err(SensorError::MalformedRecord);
    }
    Ok(Some(read_u32(log, len - BYTES_PER_DATUM)))
}

/// What the discovery loop learns next, in order of priority: a probe's report
/// that a device is the sensor, a newly discovered device, or the end of the scan.
#[derive(Clone, Copy, Debug, PartialEq, Eq, Structural)]
pub enum ScanEvent {
    ProbeMatched(usize),
    DeviceDiscovered(usize),
    ScanEnded,
}

/// What the discovery loop does next: stop scanning and use a device, probe a
/// device, or give up.
#[derive(Clone, Copy, Debug, PartialEq, Eq, Structural)]
pub enum ScanAction {
    Accept(usize),
    Probe(usize),
    Fail(SensorError),
}

/// One decision of device discovery: the first confirmed match is taken, each
/// newly discovered device is probed, and a scan that ends without a match fails
/// with `SensorNotFound`.
pub fn discovery_step(event: ScanEvent) -> (r: ScanAction)
    ensures
        r == match event {
            ScanEvent::ProbeMatched(d) => ScanAction::Accept(d),
            ScanEvent::DeviceDiscovered(d) => ScanAction::Probe(d),
            ScanEvent::ScanEnded => ScanAction::Fail(SensorError::SensorNotFound),
        },
{
    match event {
        ScanEvent::ProbeMatched(d) => ScanAction::Accept(d),
        ScanEvent::DeviceDiscovered(d) => ScanAction::Probe(d),
        ScanEvent::ScanEnded => ScanAction::Fail(SensorError::SensorNotFound),
    }
}

/// With no threshold, the whole history is fetched: every record, in arrival
/// order.
pub proof fn lemma_full_history(ps: Seq<Seq<u8>>)
    ensures
        new_records(ps, None) == concat_all(ps.map_values(|p: Seq<u8>| notification_record(p))),
{
    lemma_keep_all(ps);
    assert(ps.filter(|p: Seq<u8>| is_newer(p, None)) == ps);
}

proof fn lemma_keep_all(ps: Seq<Seq<u8>>)
    ensures
        ps.filter(|p: Seq<u8>| is_newer(p, None)) == ps,
    decreases ps.len(),
{
    reveal(Seq::filter);
    if ps.len() > 0 {
        lemma_keep_all(ps.drop_last());
        assert(ps.drop_last().push(ps.last()) =~= ps);
    }
}

/// With a threshold, exactly the records stamped strictly after it are fetched,
/// in arrival order.
pub proof fn lemma_resumable_fetch(ps: Seq<Seq<u8>>, t: u32)
    ensures
        new_records(ps, Some(t)) == concat_all(
            ps.filter(|p: Seq<u8>| notification_time(p) > t).map_values(
                |p: Seq<u8>| notification_record(p),
            ),
        ),
{
    assert((|p: Seq<u8>| is_newer(p, Some(t))) =~= (|p: Seq<u8>| notification_time(p) > t));
}

/// Where no record is stamped after the threshold, nothing is appended.
pub proof fn lemma_no_op_sync(ps: Seq<Seq<u8>>, t: u32)
    requires
        forall|i: int| 0 <= i < ps.len() ==> notification_time(#[trigger] ps[i]) <= t,
    ensures
        new_records(ps, Some(t)).len() == 0,
{
    lemma_keep_none(ps, t);
    assert(ps.filter(|p: Seq<u8>| is_newer(p, Some(t))).map_values(|p: Seq<u8>| notification_record(p))
        =~= Seq::<Seq<u8>>::empty());
}

proof fn lemma_keep_none(ps: Seq<Seq<u8>>, t: u32)
    requires
        forall|i: int| 0 <= i < ps.len() ==> notification_time(#[trigger] ps[i]) <= t,
    ensures
        ps.filter(|p: Seq<u8>| is_newer(p, Some(t))).len() == 0,
    decreases ps.len(),
{
    reveal(Seq::filter);
    if ps.len() > 0 {
        assert(notification_time(ps[ps.len() - 1]) <= t);
        assert forall|i: int| 0 <= i < ps.drop_last().len() implies notification_time(
            #[trigger] ps.drop_last()[i],
        ) <= t by {
            assert(ps.drop_last()[i] == ps[i]);
        }
        lemma_keep_none(ps.drop_last(), t);
    }
}

} // verus!
