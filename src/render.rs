use vstd::prelude::*;

use vstd::string::StringExecFns;

use crate::codec::{valid_offset, DataItem};
use crate::rollup::{concat_all, lemma_concat_push, Summary, Year};

verus! {

/// The decimal digit `d` as a character.
pub open spec fn digit_char(d: int) -> char {
    if d == 0 {
        '0'
    } else if d == 1 {
        '1'
    } else if d == 2 {
        '2'
    } else if d == 3 {
        '3'
    } else if d == 4 {
        '4'
    } else if d == 5 {
        '5'
    } else if d == 6 {
        '6'
    } else if d == 7 {
        '7'
    } else if d == 8 {
        '8'
    } else {
        '9'
    }
}

/// The decimal digits of a natural number, most significant first, without
/// leading zeros.
pub open spec fn digits(n: nat) -> Seq<char>
    decreases n,
{
    if n < 10 {
        seq![digit_char(n as int)]
    } else {
        digits(n / 10) + seq![digit_char(n as int % 10)]
    }
}

/// The decimal text of an integer, with a leading `-` when it is negative.
pub open spec fn int_text(n: int) -> Seq<char> {
    if n < 0 {
        seq!['-'] + digits((-n) as nat)
    } else {
        digits(n as nat)
    }
}

/// The text of a temperature in hundredths of a degree: the quotient by 100,
/// a point, and the remainder, both rounded toward zero as integer division does
/// (so 2650 gives `26.50` and 2605 gives `26.5`).
pub open spec fn temp_text(t: int) -> Seq<char> {
    let q = if t >= 0 { t / 100 } else { -((-t) / 100) };
    int_text(q) + seq!['.'] + int_text(t - 100 * q)
}

fn digit_str(d: u32) -> (r: &'static str)
    requires
        d < 10,
    ensures
        r@ == seq![digit_char(d as int)],
{
    proof {
        reveal_strlit("0");
        reveal_strlit("1");
        reveal_strlit("2");
        reveal_strlit("3");
        reveal_strlit("4");
        reveal_strlit("5");
        reveal_strlit("6");
        reveal_strlit("7");
        reveal_strlit("8");
        reveal_strlit("9");
    }
    match d {
        0 => "0",
        1 => "1",
        2 => "2",
        3 => "3",
        4 => "4",
        5 => "5",
        6 => "6",
        7 => "7",
        8 => "8",
        _ => "9",
    }
}

fn push_digits(s: &mut String, n: u32)
    ensures
        final(s)@ == old(s)@ + digits(n as nat),
    decreases n,
{
    if n >= 10 {
        push_digits(s, n / 10);
    }
    s.append(digit_str(n % 10));
    assert(final(s)@ =~= old(s)@ + digits(n as nat));
}

/// Appends the decimal text of `n`.
pub fn push_int(s: &mut String, n: i64)
    requires
        n > i64::MIN,
        n < 0x1_0000_0000,
        -n < 0x1_0000_0000,
    ensures
        final(s)@ == old(s)@ + int_text(n as int),
{
    if n < 0 {
        proof {
            reveal_strlit("-");
        }
        s.append("-");
        push_digits(s, (-n) as u32);
    } else {
        push_digits(s, n as u32);
    }
    assert(final(s)@ =~= old(s)@ + int_text(n as int));
}

/// The text of a temperature given in hundredths of a degree, as
/// [`temp_text`] describes.
pub fn get_temp(t: i16) -> (r: String)
    ensures
        r@ == temp_text(t as int),
{
    let q: i16 = t / 100;
    let rem: i16 = t % 100;
    let mut s = String::new();
    push_int(&mut s, q as i64);
    proof {
        reveal_strlit(".");
    }
    s.append(".");
    push_int(&mut s, rem as i64);
    assert(s@ =~= temp_text(t as int));
    s
}

/// The text of an instant as shown in the zone `offset`, in the form
/// `2024-01-01 10:00:00 +08:00`.
pub uninterp spec fn time_text_of(time: int, offset: int) -> Seq<char>;

/// Relies on chrono's `DateTime::from_timestamp`, `FixedOffset::east_opt`,
/// `DateTime::with_timezone` and the `Display` of `DateTime<FixedOffset>`: the date,
/// time and offset of an instant in a fixed zone. Every `u32` of seconds is a
/// representable instant and every offset of less than a day a valid zone, so a
/// text comes back.
#[verifier::external_body]
fn time_text(time: u32, offset: i32) -> (r: Option<String>)
    requires
        valid_offset(offset),
    ensures
        r is Some,
        r.unwrap()@ == time_text_of(time as int, offset as int),
{
    match (chrono::DateTime::from_timestamp(time as i64, 0), chrono::FixedOffset::east_opt(offset)) {
        (Some(t), Some(zone)) => Some(t.with_timezone(&zone).to_string()),
        _ => None,
    }
}

/// One sample as a line of the document: time, maximum and minimum temperature,
/// maximum and minimum humidity.
pub open spec fn item_html(d: DataItem, offset: i32) -> Seq<char> {
    "<div>"@ + time_text_of(d.time as int, offset as int) + ","@ + temp_text(d.max_temperature as int)
        + "℃,"@ + temp_text(d.min_temperature as int) + "℃,"@ + int_text(d.max_humidity as int)
        + "%,"@ + int_text(d.min_humidity as int) + "%</div>"@
}

/// A node as a collapsible block: its aggregate as the heading, then its children.
pub open spec fn node_html(summary: DataItem, children: Seq<Seq<char>>, offset: i32) -> Seq<char> {
    "<details><summary>"@ + item_html(summary, offset) + "</summary>"@ + concat_all(children)
        + "</details>"@
}

/// A value that can be written into the report.
pub trait WriteHtml {
    spec fn html(&self, offset: i32) -> Seq<char>;

    fn write_html_string(&self, out: &mut String, offset: i32)
        requires
            valid_offset(offset),
        ensures
            final(out)@ == old(out)@ + self.html(offset),
    ;
}

impl WriteHtml for DataItem {
    open spec fn html(&self, offset: i32) -> Seq<char> {
        item_html(*self, offset)
    }

    fn write_html_string(&self, out: &mut String, offset: i32) {
        let ghost start = out@;
        out.append("<div>");
        let time = time_text(self.time, offset).unwrap();
        out.append(time.as_str());
        out.append(",");
        out.append(get_temp(self.max_temperature).as_str());
        out.append("℃,");
        out.append(get_temp(self.min_temperature).as_str());
        out.append("℃,");
        push_int(out, self.max_humidity as i64);
        out.append("%,");
        push_int(out, self.min_humidity as i64);
        out.append("%</div>");
        assert(out@ =~= start + item_html(*self, offset));
    }
}

impl<T: WriteHtml> WriteHtml for Summary<T> {
    open spec fn html(&self, offset: i32) -> Seq<char> {
        node_html(self.summary, self.details@.map_values(|c: T| c.html(offset)), offset)
    }

    fn write_html_string(&self, out: &mut String, offset: i32) {
        let ghost start = out@;
        out.append("<details><summary>");
        self.summary.write_html_string(out, offset);
        out.append("</summary>");
        let ghost head = out@;
        let ghost parts = self.details@.map_values(|c: T| c.html(offset));
        let mut i: usize = 0;
        assert(concat_all(parts.subrange(0, 0)) =~= Seq::<char>::empty());
        while i < self.details.len()
            invariant
                valid_offset(offset),
                i <= self.details@.len(),
                parts == self.details@.map_values(|c: T| c.html(offset)),
                out@ == head + concat_all(parts.subrange(0, i as int)),
            decreases self.details@.len() - i,
        {
            self.details[i].write_html_string(out, offset);
            proof {
                assert(parts.subrange(0, i + 1) =~= parts.subrange(0, i as int).push(parts[i as int]));
                lemma_concat_push(parts.subrange(0, i as int), parts[i as int]);
            }
            i += 1;
        }
        assert(parts.subrange(0, i as int) =~= parts);
        out.append("</details>");
        assert(out@ =~= start + self.html(offset));
    }
}

/// The opening of the report, up to its body.
pub open spec fn document_head() -> Seq<char> {
    "<!DOCTYPE html><html lang=\"en\"><head><meta charset=\"UTF-8\"><title>Document</title><style>details{margin-left: 20px;}summary>div{display: contents;}body{font-size: 14px;font-family: monospace;}</style></head><body>"@
}

/// The report of a forest of years: the head, each year's block in order, and the
/// closing tags.
pub open spec fn document(input: Seq<Year>, offset: i32) -> Seq<char> {
    document_head() + concat_all(input.map_values(|y: Year| y.html(offset))) + "</body></html>"@
}

/// Renders a forest of years as an HTML document, with every time shown in the
/// zone `offset`.
pub fn gen_html_string(input: &[Year], offset: i32) -> (r: String)
    requires
        valid_offset(offset),
    ensures
        r@ == document(input@, offset),
{
    let mut out = String::new();
    out.append("<!DOCTYPE html><html lang=\"en\"><head><meta charset=\"UTF-8\"><title>Document</title><style>details{margin-left: 20px;}summary>div{display: contents;}body{font-size: 14px;font-family: monospace;}</style></head><body>");
    let ghost head = out@;
    let ghost parts = input@.map_values(|y: Year| y.html(offset));
    let mut i: usize = 0;
    assert(concat_all(parts.subrange(0, 0)) =~= Seq::<char>::empty());
    while i < input.len()
        invariant
            valid_offset(offset),
            i <= input@.len(),
            parts == input@.map_values(|y: Year| y.html(offset)),
            out@ == head + concat_all(parts.subrange(0, i as int)),
        decreases input@.len() - i,
    {
        input[i].write_html_string(&mut out, offset);
        proof {
            assert(parts.subrange(0, i + 1) =~= parts.subrange(0, i as int).push(parts[i as int]));
            lemma_concat_push(parts.subrange(0, i as int), parts[i as int]);
        }
        i += 1;
    }
    assert(parts.subrange(0, i as int) =~= parts);
    out.append("</body></html>");
    assert(out@ =~= document(input@, offset));
    out
}

} // verus!
