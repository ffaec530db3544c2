use vstd::prelude::*;

use chrono::Datelike;

use crate::codec::{decode_log, log_items, valid_offset, DataItem};
use crate::error::SensorError;

verus! {

/// A value with a representative sample: a raw sample is its own, a summary node
/// has its aggregate.
pub trait Item {
    spec fn data(&self) -> DataItem;

    fn get_item_data(&self) -> (r: &DataItem)
        ensures
            *r == self.data(),
    ;
}

impl Item for DataItem {
    open spec fn data(&self) -> DataItem {
        *self
    }

    fn get_item_data(&self) -> (r: &DataItem) {
        self
    }
}

/// An aggregate over a run of children that fall in one calendar bucket.
#[derive(Debug)]
pub struct Summary<T> {
    /// Time and offset of the first child; extrema over all children.
    pub summary: DataItem,
    pub details: Vec<T>,
}

impl<T> Item for Summary<T> {
    open spec fn data(&self) -> DataItem {
        self.summary
    }

    fn get_item_data(&self) -> (r: &DataItem) {
        &self.summary
    }
}

pub type Day = Summary<DataItem>;

pub type Month = Summary<Day>;

pub type Year = Summary<Month>;

/// The calendar unit that a roll-up groups by.
#[derive(Clone, Copy, Debug, PartialEq, Eq, Structural)]
pub enum Period {
    Day,
    Month,
    Year,
}

/// The day, counted from 1970-01-01, on which an instant falls in the zone `offset`.
pub open spec fn epoch_day(time: u32, offset: i32) -> int {
    (time + offset) / 86400
}

/// Year and month (1 to 12) of the proleptic Gregorian date of a day counted from
/// 1970-01-01.
pub uninterp spec fn civil_date_of(epoch_day: int) -> (int, int);

/// Relies on chrono's `NaiveDate::from_epoch_days` with `Datelike::year` and
/// `Datelike::month`: the year and month of a day counted from 1970-01-01. Within a
/// million days of that date the year lies well inside chrono's range, so a date
/// comes back, and its month is 1 to 12.
#[verifier::external_body]
fn civil_date(epoch_day: i32) -> (r: Option<(i32, u32)>)
    requires
        -1_000_000 <= epoch_day <= 1_000_000,
    ensures
        r is Some,
        civil_date_of(epoch_day as int) == (r.unwrap().0 as int, r.unwrap().1 as int),
        1 <= r.unwrap().1 <= 12,
{
    match chrono::NaiveDate::from_epoch_days(epoch_day) {
        Some(date) => Some((date.year(), date.month())),
        None => None,
    }
}

/// The key of the bucket of `period` that an instant falls in, in the zone `offset`:
/// the day number, the month number (twelve per year) or the year.
pub open spec fn bucket_of(period: Period, time: u32, offset: i32) -> int {
    let date = civil_date_of(epoch_day(time, offset));
    match period {
        Period::Day => epoch_day(time, offset),
        Period::Month => date.0 * 12 + date.1 - 1,
        Period::Year => date.0,
    }
}

/// Computes [`bucket_of`].
pub fn bucket_key(period: Period, time: u32, offset: i32) -> (r: i64)
    requires
        valid_offset(offset),
    ensures
        r == bucket_of(period, time, offset),
{
    let shifted: i64 = time as i64 + offset as i64 + 86400;
    let day: i64 = shifted / 86400 - 1;
    assert(day == epoch_day(time, offset));
    match period {
        Period::Day => day,
        Period::Month => {
            let (year, month) = civil_date(day as i32).unwrap();
            year as i64 * 12 + month as i64 - 1
        },
        Period::Year => {
            let (year, _) = civil_date(day as i32).unwrap();
            year as i64
        },
    }
}

/// The representative samples of a sequence of items.
pub open spec fn data_of<T: Item>(s: Seq<T>) -> Seq<DataItem> {
    s.map_values(|x: T| x.data())
}

/// The children lists of a sequence of nodes.
pub open spec fn details_of<T>(s: Seq<Summary<T>>) -> Seq<Seq<T>> {
    s.map_values(|n: Summary<T>| n.details@)
}

/// The concatenation of a sequence of sequences, in order.
pub open spec fn concat_all<A>(s: Seq<Seq<A>>) -> Seq<A>
    decreases s.len(),
{
    if s.len() == 0 {
        Seq::empty()
    } else {
        concat_all(s.drop_last()) + s.last()
    }
}

/// The four extrema of a sample, each as a quantity to be maximised: `k == 0` the
/// maximum temperature, `1` the negated minimum temperature, `2` the maximum
/// humidity, `3` the negated minimum humidity.
pub open spec fn measure(d: DataItem, k: int) -> int {
    if k == 0 {
        d.max_temperature as int
    } else if k == 1 {
        -(d.min_temperature as int)
    } else if k == 2 {
        d.max_humidity as int
    } else {
        -(d.min_humidity as int)
    }
}

/// The largest `measure(_, k)` over a non-empty sequence of samples.
pub open spec fn peak(s: Seq<DataItem>, k: int) -> int
    decreases s.len(),
{
    if s.len() <= 1 {
        measure(s[0], k)
    } else {
        vstd::math::max(peak(s.drop_last(), k), measure(s.last(), k))
    }
}

/// `d` holds the true extrema of the non-empty sequence `s`: the largest maximum
/// temperature and humidity, and the smallest minimum temperature and humidity.
pub open spec fn aggregates(d: DataItem, s: Seq<DataItem>) -> bool {
    &&& s.len() > 0
    &&& forall|k: int| 0 <= k < 4 ==> #[trigger] measure(d, k) == peak(s, k)
}

/// The items of `s` come in order of their representative time.
pub open spec fn times_ascending<T: Item>(s: Seq<T>) -> bool {
    forall|i: int, j: int|
        0 <= i <= j < s.len() ==> (#[trigger] s[i].data()).time <= (#[trigger] s[j].data()).time
}

/// The key of the bucket a node stands for.
pub open spec fn node_key<T>(n: Summary<T>, period: Period, offset: i32) -> int {
    bucket_of(period, n.summary.time, offset)
}

/// A node made by [`roll_up`]: non-empty, with the time and offset of its first
/// child, the extrema of its children, and all children in one bucket.
pub open spec fn is_group<T: Item>(n: Summary<T>, period: Period, offset: i32) -> bool {
    &&& n.details@.len() > 0
    &&& n.summary.time == n.details@[0].data().time
    &&& n.summary.offset == n.details@[0].data().offset
    &&& aggregates(n.summary, data_of(n.details@))
    &&& forall|j: int|
        0 <= j < n.details@.len() ==> bucket_of(period, #[trigger] n.details@[j].data().time, offset)
            == node_key(n, period, offset)
}

/// Every node of `s` is a group, and neighbours stand for different buckets.
pub open spec fn is_rollup<T: Item>(s: Seq<Summary<T>>, period: Period, offset: i32) -> bool {
    &&& forall|i: int| 0 <= i < s.len() ==> is_group(#[trigger] s[i], period, offset)
    &&& forall|i: int|
        0 < i < s.len() ==> node_key(#[trigger] s[i - 1], period, offset) != node_key(
            s[i],
            period,
            offset,
        )
}

pub(crate) proof fn lemma_concat_push<A>(s: Seq<Seq<A>>, x: Seq<A>)
    ensures
        concat_all(s.push(x)) == concat_all(s) + x,
{
    assert(s.push(x).drop_last() =~= s);
}

proof fn lemma_peak_push(s: Seq<DataItem>, d: DataItem, k: int)
    requires
        s.len() > 0,
    ensures
        peak(s.push(d), k) == vstd::math::max(peak(s, k), measure(d, k)),
{
    assert(s.push(d).drop_last() =~= s);
}

/// Groups a sequence of items, in order, into runs that fall in one bucket of
/// `period`: each run becomes a node with the extrema of its items.
///
/// The nodes hold the items in their order; neighbouring nodes stand for different
/// buckets. Where the input is ordered by time, so are the nodes.
pub fn roll_up<T: Item>(items: Vec<T>, period: Period, offset: i32) -> (r: Vec<Summary<T>>)
    requires
        valid_offset(offset),
    ensures
        concat_all(details_of(r@)) == items@,
        is_rollup(r@, period, offset),
        times_ascending(items@) ==> times_ascending(r@),
        r@.len() == 0 <==> items@.len() == 0,
{
    let ghost input = items@;
    let ghost n = input.len();
    let mut items = items;
    let mut rest: Vec<T> = Vec::new();
    while items.len() > 0
        invariant
            n == input.len(),
            items@.len() + rest@.len() == n,
            items@ == input.subrange(0, items@.len() as int),
            forall|j: int| 0 <= j < rest@.len() ==> rest@[j] == input[n - 1 - j],
        decreases items@.len(),
    {
        let x = items.pop().unwrap();
        rest.push(x);
        assert(items@ =~= input.subrange(0, items@.len() as int));
    }
    let mut out: Vec<Summary<T>> = Vec::new();
    assert(concat_all(details_of(out@)) =~= input.subrange(0, 0));
    while rest.len() > 0
        invariant
            n == input.len(),
            valid_offset(offset),
            rest@.len() <= n,
            out@.len() == 0 <==> rest@.len() == n,
            forall|j: int| 0 <= j < rest@.len() ==> rest@[j] == input[n - 1 - j],
            concat_all(details_of(out@)) == input.subrange(0, n - rest@.len()),
            is_rollup(out@, period, offset),
            out@.len() > 0 && rest@.len() > 0 ==> node_key(out@.last(), period, offset)
                != bucket_of(period, rest@.last().data().time, offset),
            times_ascending(input) ==> times_ascending(out@),
            times_ascending(input) && out@.len() > 0 && rest@.len() > 0 ==> out@.last().summary.time
                <= rest@.last().data().time,
        decreases rest@.len(),
    {
        let ghost pos = n - rest@.len();
        let start = rest.pop().unwrap();
        let first: DataItem = *start.get_item_data();
        let key = bucket_key(period, first.time, offset);
        let mut max_temperature = first.max_temperature;
        let mut min_temperature = first.min_temperature;
        let mut max_humidity = first.max_humidity;
        let mut min_humidity = first.min_humidity;
        let mut group: Vec<T> = Vec::new();
        group.push(start);
        assert(group@ =~= input.subrange(pos, pos + 1));
        loop
            invariant
                n == input.len(),
                valid_offset(offset),
                0 <= pos,
                pos + group@.len() + rest@.len() == n,
                group@.len() >= 1,
                group@[0].data() == first,
                forall|j: int| 0 <= j < rest@.len() ==> rest@[j] == input[n - 1 - j],
                group@ == input.subrange(pos, pos + group@.len()),
                forall|j: int|
                    0 <= j < group@.len() ==> bucket_of(period, #[trigger] group@[j].data().time, offset)
                        == key,
                aggregates(
                    DataItem {
                        time: first.time,
                        offset: first.offset,
                        max_temperature,
                        min_temperature,
                        max_humidity,
                        min_humidity,
                    },
                    data_of(group@),
                ),
            ensures
                rest@.len() == 0 || bucket_of(period, rest@.last().data().time, offset) != key,
            decreases rest@.len(),
        {
            if rest.len() == 0 {
                break;
            }
            let next: DataItem = *rest[rest.len() - 1].get_item_data();
            if bucket_key(period, next.time, offset) != key {
                break;
            }
            let ghost before = group@;
            let ghost acc = DataItem {
                time: first.time,
                offset: first.offset,
                max_temperature,
                min_temperature,
                max_humidity,
                min_humidity,
            };
            let item = rest.pop().unwrap();
            if next.max_temperature > max_temperature {
                max_temperature = next.max_temperature;
            }
            if next.min_temperature < min_temperature {
                min_temperature = next.min_temperature;
            }
            if next.max_humidity > max_humidity {
                max_humidity = next.max_humidity;
            }
            if next.min_humidity < min_humidity {
                min_humidity = next.min_humidity;
            }
            group.push(item);
            proof {
                assert(data_of(group@) =~= data_of(before).push(next));
                let now = DataItem {
                    time: first.time,
                    offset: first.offset,
                    max_temperature,
                    min_temperature,
                    max_humidity,
                    min_humidity,
                };
                assert forall|k: int| 0 <= k < 4 implies #[trigger] measure(now, k) == peak(
                    data_of(group@),
                    k,
                ) by {
                    lemma_peak_push(data_of(before), next, k);
                    assert(measure(acc, k) == peak(data_of(before), k));
                }
                assert(group@ =~= input.subrange(pos, pos + group@.len()));
            }
        }
        let ghost prev = out@;
        let node = Summary {
            summary: DataItem {
                time: first.time,
                offset: first.offset,
                max_temperature,
                min_temperature,
                max_humidity,
                min_humidity,
            },
            details: group,
        };
        out.push(node);
        proof {
            assert(details_of(out@) =~= details_of(prev).push(node.details@));
            lemma_concat_push(details_of(prev), node.details@);
            assert(input.subrange(0, pos) + node.details@ =~= input.subrange(0, n - rest@.len()));
            assert(is_group(node, period, offset));
            assert forall|i: int| 0 <= i < out@.len() implies is_group(#[trigger] out@[i], period, offset) by {
                if i < prev.len() {
                    assert(out@[i] == prev[i]);
                }
            }
            if times_ascending(input) {
                assert(first == input[pos].data());
                if rest@.len() > 0 {
                    assert(rest@.last() == input[pos + node.details@.len()]);
                }
                assert forall|i: int, j: int| 0 <= i <= j < out@.len() implies (
                #[trigger] out@[i].data()).time <= (#[trigger] out@[j].data()).time by {
                    if j < prev.len() {
                        assert(out@[i] == prev[i] && out@[j] == prev[j]);
                    } else if i < prev.len() {
                        assert(out@[i] == prev[i]);
                        assert(prev[i].data().time <= prev.last().data().time);
                    }
                }
            }
            assert forall|i: int| 0 < i < out@.len() implies node_key(#[trigger] out@[i - 1], period, offset)
                != node_key(out@[i], period, offset) by {
                if i < prev.len() {
                    assert(out@[i] == prev[i] && out@[i - 1] == prev[i - 1]);
                }
            }
        }
    }
    assert(input.subrange(0, n as int) =~= input);
    out
}

/// The months of a forest of years, in order.
pub open spec fn months_of(years: Seq<Year>) -> Seq<Month> {
    concat_all(details_of(years))
}

/// The days of a forest of years, in order.
pub open spec fn days_of(years: Seq<Year>) -> Seq<Day> {
    concat_all(details_of(months_of(years)))
}

/// The samples of a forest of years, in order.
pub open spec fn readings_of(years: Seq<Year>) -> Seq<DataItem> {
    concat_all(details_of(days_of(years)))
}

/// A forest built by rolling samples up into days, days into months and months
/// into years.
pub open spec fn is_forest(years: Seq<Year>, offset: i32) -> bool {
    &&& is_rollup(days_of(years), Period::Day, offset)
    &&& is_rollup(months_of(years), Period::Month, offset)
    &&& is_rollup(years, Period::Year, offset)
}

/// Decodes a log and rolls its samples up into years, months and days, grouped by
/// the calendar of the zone `offset`.
///
/// The forest holds the log's samples in their order; every node holds the extrema
/// of its children; neighbouring nodes of a level stand for different buckets.
/// Where the log is in order of time, so is each level.
pub fn get_summary(data: &[u8], offset: i32) -> (r: Result<Vec<Year>, SensorError>)
    requires
        valid_offset(offset),
    ensures
        data@.len() % 10 != 0 ==> r == Err::<Vec<Year>, SensorError>(SensorError::MalformedRecord),
        data@.len() % 10 == 0 ==> {
            &&& r is Ok
            &&& readings_of(r->Ok_0@) == log_items(data@, offset)
            &&& is_forest(r->Ok_0@, offset)
            &&& data@.len() == 0 ==> r->Ok_0@.len() == 0
            &&& times_ascending(log_items(data@, offset)) ==> {
                &&& times_ascending(days_of(r->Ok_0@))
                &&& times_ascending(months_of(r->Ok_0@))
                &&& times_ascending(r->Ok_0@)
            }
        },
{
    let items = match decode_log(data, offset) {
        Ok(items) => items,
        Err(e) => return Err(e),
    };
    let days = roll_up(items, Period::Day, offset);
    let months = roll_up(days, Period::Month, offset);
    let years = roll_up(months, Period::Year, offset);
    Ok(years)
}

/// The samples under a month, in order.
pub open spec fn month_readings(m: Month) -> Seq<DataItem> {
    concat_all(details_of(m.details@))
}

/// The samples under a year, in order.
pub open spec fn year_readings(y: Year) -> Seq<DataItem> {
    concat_all(y.details@.map_values(|m: Month| month_readings(m)))
}

proof fn lemma_peak_concat(a: Seq<DataItem>, b: Seq<DataItem>, k: int)
    requires
        a.len() > 0,
        b.len() > 0,
    ensures
        peak(a + b, k) == vstd::math::max(peak(a, k), peak(b, k)),
    decreases b.len(),
{
    if b.len() == 1 {
        assert((a + b).drop_last() =~= a);
    } else {
        lemma_peak_concat(a, b.drop_last(), k);
        assert((a + b).drop_last() =~= a + b.drop_last());
    }
}

proof fn lemma_peak_of_groups(groups: Seq<Seq<DataItem>>, tops: Seq<DataItem>)
    requires
        groups.len() == tops.len(),
        groups.len() > 0,
        forall|i: int| 0 <= i < groups.len() ==> aggregates(#[trigger] tops[i], groups[i]),
    ensures
        concat_all(groups).len() > 0,
        forall|k: int| 0 <= k < 4 ==> #[trigger] peak(concat_all(groups), k) == peak(tops, k),
    decreases groups.len(),
{
    assert(aggregates(tops.last(), groups.last()));
    if groups.len() == 1 {
        assert(concat_all(groups.drop_last()) =~= Seq::<DataItem>::empty());
        assert(concat_all(groups) =~= groups[0]);
    } else {
        lemma_peak_of_groups(groups.drop_last(), tops.drop_last());
        assert forall|i: int| 0 <= i < groups.len() - 1 implies aggregates(
            #[trigger] tops.drop_last()[i],
            groups.drop_last()[i],
        ) by {
            assert(aggregates(tops[i], groups[i]));
        }
        assert forall|k: int| 0 <= k < 4 implies #[trigger] peak(concat_all(groups), k) == peak(
            tops,
            k,
        ) by {
            lemma_peak_concat(concat_all(groups.drop_last()), groups.last(), k);
            assert(measure(tops.last(), k) == peak(groups.last(), k));
        }
    }
}

proof fn lemma_concat_contains<A>(s: Seq<Seq<A>>, j: int, i: int)
    requires
        0 <= j < s.len(),
        0 <= i < s[j].len(),
    ensures
        concat_all(s).contains(s[j][i]),
    decreases s.len(),
{
    let p = concat_all(s.drop_last());
    if j == s.len() - 1 {
        assert(concat_all(s)[p.len() + i] == s[j][i]);
    } else {
        assert(s.drop_last()[j] == s[j]);
        lemma_concat_contains(s.drop_last(), j, i);
        let k = choose|k: int| 0 <= k < p.len() && p[k] == s[j][i];
        assert(concat_all(s)[k] == p[k]);
    }
}

/// In a forest built by [`get_summary`], every node holds the true extrema of the
/// samples beneath it: a day of its samples, a month of the samples of its days,
/// a year of the samples of its months.
pub proof fn lemma_extrema_over_leaves(years: Seq<Year>, offset: i32)
    requires
        is_forest(years, offset),
    ensures
        forall|i: int|
            0 <= i < days_of(years).len() ==> aggregates(
                (#[trigger] days_of(years)[i]).summary,
                days_of(years)[i].details@,
            ),
        forall|i: int|
            0 <= i < months_of(years).len() ==> aggregates(
                (#[trigger] months_of(years)[i]).summary,
                month_readings(months_of(years)[i]),
            ),
        forall|i: int|
            0 <= i < years.len() ==> aggregates((#[trigger] years[i]).summary, year_readings(years[i])),
{
    let days = days_of(years);
    let months = months_of(years);
    assert forall|i: int| 0 <= i < days.len() implies aggregates(
        (#[trigger] days[i]).summary,
        days[i].details@,
    ) by {
        assert(is_group(days[i], Period::Day, offset));
        assert(data_of(days[i].details@) =~= days[i].details@);
    }
    assert forall|i: int| 0 <= i < months.len() implies aggregates(
        (#[trigger] months[i]).summary,
        month_readings(months[i]),
    ) by {
        let m = months[i];
        assert(is_group(m, Period::Month, offset));
        let groups = details_of(m.details@);
        let tops = data_of(m.details@);
        assert forall|j: int| 0 <= j < groups.len() implies aggregates(#[trigger] tops[j], groups[j]) by {
            assert(details_of(months)[i] == m.details@);
            lemma_concat_contains(details_of(months), i, j);
            let d = m.details@[j];
            let x = choose|x: int| 0 <= x < days.len() && days[x] == d;
            assert(days[x] == d);
            assert(data_of(d.details@) =~= d.details@);
        }
        lemma_peak_of_groups(groups, tops);
    }
    assert forall|i: int| 0 <= i < years.len() implies aggregates(
        (#[trigger] years[i]).summary,
        year_readings(years[i]),
    ) by {
        let y = years[i];
        assert(is_group(y, Period::Year, offset));
        let groups = y.details@.map_values(|m: Month| month_readings(m));
        let tops = data_of(y.details@);
        assert forall|j: int| 0 <= j < groups.len() implies aggregates(#[trigger] tops[j], groups[j]) by {
            assert(details_of(years)[i] == y.details@);
            lemma_concat_contains(details_of(years), i, j);
            let m = y.details@[j];
            let x = choose|x: int| 0 <= x < months.len() && months[x] == m;
            assert(months[x] == m);
        }
        lemma_peak_of_groups(groups, tops);
    }
}

/// In a forest whose days come in order of time, no two days fall on the same
/// date: their day numbers strictly increase.
pub proof fn lemma_days_distinct(years: Seq<Year>, offset: i32)
    requires
        is_forest(years, offset),
        times_ascending(days_of(years)),
    ensures
        forall|i: int, j: int|
            0 <= i < j < days_of(years).len() ==> node_key(#[trigger] days_of(years)[i], Period::Day, offset)
                < node_key(#[trigger] days_of(years)[j], Period::Day, offset),
{
    let days = days_of(years);
    assert forall|i: int, j: int| 0 <= i <= j < days.len() implies node_key(
        #[trigger] days[i],
        Period::Day,
        offset,
    ) <= node_key(#[trigger] days[j], Period::Day, offset) by {
        assert(days[i].data().time <= days[j].data().time);
        vstd::arithmetic::div_mod::lemma_div_is_ordered(
            days[i].summary.time + offset,
            days[j].summary.time + offset,
            86400,
        );
    }
    assert forall|i: int, j: int| 0 <= i < j < days.len() implies node_key(
        #[trigger] days[i],
        Period::Day,
        offset,
    ) < node_key(#[trigger] days[j], Period::Day, offset) by {
        assert(node_key(days[i], Period::Day, offset) <= node_key(days[i + 1], Period::Day, offset));
        assert(node_key(days[i + 1], Period::Day, offset) <= node_key(days[j], Period::Day, offset));
        assert(node_key(days[i + 1 - 1], Period::Day, offset) != node_key(days[i + 1], Period::Day, offset));
    }
}

} // verus!
