//! Calendar dates, their `MM/DD/YYYY` rendering, and the weekday mapping.

use crate::text::{
    all_digits, append_2digits, digit_char, digit_val, is_digit, lemma_find_char_at,
    lemma_num_val_bound, lemma_pad2_val, num_from_digits, num_val, pad2, pow10, split_char,
    split_str, str_all_digits, strs_view,
};
use vstd::prelude::*;

verus! {

/// A calendar date. Well-formed values always hold a real day of a real
/// month, in a year that four digits can render.
#[derive(Debug, Clone, Copy, PartialEq, Eq, Structural)]
pub struct Date {
    pub year: u16,
    pub month: u8,
    pub day: u8,
}

/// Gregorian leap-year rule.
pub open spec fn is_leap_year(y: int) -> bool {
    (y % 4 == 0 && y % 100 != 0) || y % 400 == 0
}

/// Number of days in a month.
pub open spec fn days_in_month(y: int, m: int) -> int {
    if m == 2 {
        if is_leap_year(y) {
            29
        } else {
            28
        }
    } else if m == 4 || m == 6 || m == 9 || m == 11 {
        30
    } else {
        31
    }
}

/// The four-digit, zero-padded decimal form of a value below ten thousand.
pub open spec fn pad4(v: int) -> Seq<char> {
    pad2(v / 100) + pad2(v % 100)
}

/// Reading back a four-digit rendering yields the value.
pub proof fn lemma_pad4_val(v: int)
    requires
        0 <= v < 10000,
    ensures
        pad4(v).len() == 4,
        all_digits(pad4(v)),
        num_val(pad4(v)) == v,
{
    let hi = v / 100;
    let lo = v % 100;
    lemma_pad2_val(hi);
    lemma_pad2_val(lo);
    let s = pad4(v);
    let a = digit_char(hi / 10);
    let b = digit_char(hi % 10);
    let c = digit_char(lo / 10);
    let d = digit_char(lo % 10);
    assert(s =~= seq![a, b, c, d]);
    assert(s.drop_last() =~= seq![a, b, c]);
    assert(seq![a, b, c].drop_last() =~= pad2(hi));
    assert(seq![a, b, c].last() == c);
    assert(num_val(seq![a, b, c]) == num_val(pad2(hi)) * 10 + digit_val(c));
    assert(num_val(s) == num_val(seq![a, b, c]) * 10 + digit_val(d));
    assert(digit_val(c) == lo / 10 && digit_val(d) == lo % 10);
    assert(num_val(s) == (hi * 10 + lo / 10) * 10 + lo % 10);
    assert(v == hi * 100 + lo);
}

impl Date {
    /// A well-formed date: a real calendar day with a four-digit year.
    pub open spec fn wf(self) -> bool {
        &&& 1 <= self.year <= 9999
        &&& 1 <= self.month <= 12
        &&& 1 <= self.day <= days_in_month(self.year as int, self.month as int)
    }

    /// Builds a date; `None` when the fields are not a real calendar day.
    pub fn new(year: u16, month: u8, day: u8) -> (r: Option<Date>)
        ensures
            r == if (Date { year, month, day }).wf() {
                Some(Date { year, month, day })
            } else {
                None::<Date>
            },
            r is Some ==> r->Some_0.wf(),
    {
        if 1 <= year && year <= 9999 && 1 <= month && month <= 12 && 1 <= day && day
            <= month_len(year, month) {
            Some(Date { year, month, day })
        } else {
            None
        }
    }

    /// Day of the week as a number: 0 is Saturday, 1 Sunday, and so on
    /// through 6, Friday.
    pub open spec fn day_of_week(self) -> int {
        let mm = if self.month <= 2 {
            self.month as int + 12
        } else {
            self.month as int
        };
        let yy = if self.month <= 2 {
            self.year as int - 1
        } else {
            self.year as int
        };
        let k = yy % 100;
        let j = yy / 100;
        (self.day as int + (13 * (mm + 1)) / 5 + k + k / 4 + j / 4 + 5 * j) % 7
    }

    /// Renders this date as `MM/DD/YYYY`, zero-padded.
    pub fn to_mdy(&self) -> (r: String)
        requires
            self.wf(),
        ensures
            r@ == date_str(*self),
    {
        let mut out = String::new();
        append_2digits(&mut out, self.month as u32);
        out.append("/");
        append_2digits(&mut out, self.day as u32);
        out.append("/");
        append_2digits(&mut out, (self.year / 100) as u32);
        append_2digits(&mut out, (self.year % 100) as u32);
        proof {
            reveal_strlit("/");
            assert(out@ =~= date_str(*self));
        }
        out
    }

    /// Parses `MM/DD/YYYY`: one or two digits of month and day, exactly four
    /// of year, and the result a real calendar day.
    pub fn parse_mdy(s: &str) -> (r: Option<Date>)
        ensures
            r == parse_mdy_spec(s@),
            r is Some ==> r->Some_0.wf(),
    {
        let parts = split_str(s, '/');
        if parts.len() != 3 {
            return None;
        }
        let p0 = parts[0].as_str();
        let p1 = parts[1].as_str();
        let p2 = parts[2].as_str();
        proof {
            assert(strs_view(parts@)[0] == p0@);
            assert(strs_view(parts@)[1] == p1@);
            assert(strs_view(parts@)[2] == p2@);
        }
        let l0 = p0.unicode_len();
        let l1 = p1.unicode_len();
        let l2 = p2.unicode_len();
        if !(1 <= l0 && l0 <= 2 && 1 <= l1 && l1 <= 2 && l2 == 4) {
            return None;
        }
        if !(str_all_digits(p0) && str_all_digits(p1) && str_all_digits(p2)) {
            return None;
        }
        let m = num_from_digits(p0);
        let d = num_from_digits(p1);
        let y = num_from_digits(p2);
        proof {
            lemma_num_val_bound(p0@);
            lemma_num_val_bound(p1@);
            lemma_num_val_bound(p2@);
            assert(pow10(4) == 10000) by {
                assert(pow10(0) == 1);
                assert(pow10(1) == 10);
                assert(pow10(2) == 100);
                assert(pow10(3) == 1000);
            }
            assert(pow10(2) == 100) by {
                assert(pow10(0) == 1);
                assert(pow10(1) == 10);
            }
        }
        if 1 <= y && 1 <= m && m <= 12 && 1 <= d && d <= (month_len(y as u16, m as u8) as u32) {
            Some(Date { year: y as u16, month: m as u8, day: d as u8 })
        } else {
            None
        }
    }
}

/// The `MM/DD/YYYY` rendering of a date.
pub open spec fn date_str(d: Date) -> Seq<char> {
    pad2(d.month as int) + "/"@ + pad2(d.day as int) + "/"@ + pad4(d.year as int)
}

/// What `parse_mdy` accepts, and the date it yields.
pub open spec fn parse_mdy_spec(s: Seq<char>) -> Option<Date> {
    let parts = split_char(s, '/');
    if parts.len() == 3 && 1 <= parts[0].len() <= 2 && 1 <= parts[1].len() <= 2 && parts[2].len()
        == 4 && all_digits(parts[0]) && all_digits(parts[1]) && all_digits(parts[2]) {
        let m = num_val(parts[0]);
        let d = num_val(parts[1]);
        let y = num_val(parts[2]);
        if 1 <= y && 1 <= m <= 12 && 1 <= d <= days_in_month(y, m) {
            Some(Date { year: y as u16, month: m as u8, day: d as u8 })
        } else {
            None
        }
    } else {
        None
    }
}

/// The English name of each day of the week, as `Date::day_of_week` counts
/// them.
pub open spec fn weekday_name(h: int) -> Seq<char> {
    if h == 0 {
        "Saturday"@
    } else if h == 1 {
        "Sunday"@
    } else if h == 2 {
        "Monday"@
    } else if h == 3 {
        "Tuesday"@
    } else if h == 4 {
        "Wednesday"@
    } else if h == 5 {
        "Thursday"@
    } else {
        "Friday"@
    }
}

/// Number of days in a month, executable form.
pub fn month_len(year: u16, month: u8) -> (r: u8)
    ensures
        r == days_in_month(year as int, month as int),
{
    if month == 2 {
        if (year % 4 == 0 && year % 100 != 0) || year % 400 == 0 {
            29
        } else {
            28
        }
    } else if month == 4 || month == 6 || month == 9 || month == 11 {
        30
    } else {
        31
    }
}

/// The rendering of a date holds no whitespace, so the trim a document scan
/// applies leaves it alone, and scanning a rendered date heading yields the
/// date back.
pub proof fn lemma_date_heading_round_trip(d: Date)
    requires
        d.wf(),
    ensures
        parse_mdy_spec(crate::text::trim_spec(date_str(d))) == Some(d),
        crate::text::trim_spec(date_str(d)) == date_str(d),
{
    reveal_strlit("/");
    lemma_pad2_val(d.month as int);
    lemma_pad2_val(d.day as int);
    lemma_pad4_val(d.year as int);
    let s = date_str(d);
    assert forall|i: int| 0 <= i < s.len() implies !crate::text::is_ws(#[trigger] s[i]) by {
        assert('/' as u32 == 47);
        if i < 2 {
            assert(s[i] == pad2(d.month as int)[i]);
            assert(is_digit(pad2(d.month as int)[i]));
        } else if 3 <= i < 5 {
            assert(s[i] == pad2(d.day as int)[i - 3]);
            assert(is_digit(pad2(d.day as int)[i - 3]));
        } else if 6 <= i {
            assert(s[i] == pad4(d.year as int)[i - 6]);
            assert(is_digit(pad4(d.year as int)[i - 6]));
        }
    }
    crate::text::lemma_trim_no_ws(s);
    lemma_date_round_trip(d);
}

/// Rendering a well-formed date and parsing the rendering yields the date.
pub proof fn lemma_date_round_trip(d: Date)
    requires
        d.wf(),
    ensures
        parse_mdy_spec(date_str(d)) == Some(d),
{
    reveal_strlit("/");
    let m = d.month as int;
    let dd = d.day as int;
    let y = d.year as int;
    lemma_pad2_val(m);
    lemma_pad2_val(dd);
    lemma_pad4_val(y);
    let s = date_str(d);
    assert(s.len() == 10);
    assert forall|i: int| 0 <= i < s.len() implies (#[trigger] s[i] == '/') == (i == 2 || i == 5)
        by {
        assert('/' as u32 == 47);
        if i < 2 {
            assert(s[i] == pad2(m)[i]);
            assert(is_digit(pad2(m)[i]));
        } else if 3 <= i < 5 {
            assert(s[i] == pad2(dd)[i - 3]);
            assert(is_digit(pad2(dd)[i - 3]));
        } else if 6 <= i {
            assert(s[i] == pad4(y)[i - 6]);
            assert(is_digit(pad4(y)[i - 6]));
        }
    }
    lemma_find_char_at(s, '/', 2);
    let rest1 = s.subrange(3, 10);
    assert(split_char(s, '/') == seq![s.subrange(0, 2)] + split_char(rest1, '/'));
    assert forall|i: int| 0 <= i < rest1.len() implies (#[trigger] rest1[i] == '/') == (i == 2) by {
        assert(rest1[i] == s[i + 3]);
    }
    lemma_find_char_at(rest1, '/', 2);
    let rest2 = rest1.subrange(3, 7);
    assert(split_char(rest1, '/') == seq![rest1.subrange(0, 2)] + split_char(rest2, '/'));
    assert forall|i: int| 0 <= i < rest2.len() implies #[trigger] rest2[i] != '/' by {
        assert(rest2[i] == s[i + 6]);
    }
    lemma_find_char_at(rest2, '/', 4);
    assert(split_char(rest2, '/') == seq![rest2]);
    let parts = split_char(s, '/');
    assert(parts =~= seq![s.subrange(0, 2), rest1.subrange(0, 2), rest2]);
    assert(s.subrange(0, 2) =~= pad2(m));
    assert(rest1.subrange(0, 2) =~= pad2(dd));
    assert(rest2 =~= pad4(y));
}

} // verus!
