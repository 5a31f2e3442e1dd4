//! A time of day at minute granularity, and its `HHMM` rendering.

use crate::text::{
    all_digits, append_2digits, lemma_num_val_bound, lemma_pad2_val, num_from_digits, num_val,
    pad2, pow10, str_all_digits,
};
use vstd::prelude::*;

verus! {

/// A time of day: hour and minute, 24-hour clock.
#[derive(Debug, Clone, Copy, PartialEq, Eq, Structural)]
pub struct Time {
    pub hour: u8,
    pub minute: u8,
}

/// The `HHMM` rendering of a time: zero-padded hour, then zero-padded minute.
pub open spec fn time_str(t: Time) -> Seq<char> {
    pad2(t.hour as int) + pad2(t.minute as int)
}

/// What `Time::parse_hhmm` accepts, and the time it yields: exactly four
/// digits, hour below 24, minute below 60.
pub open spec fn parse_hhmm_spec(s: Seq<char>) -> Option<Time> {
    if s.len() == 4 && all_digits(s) {
        let h = num_val(s.subrange(0, 2));
        let m = num_val(s.subrange(2, 4));
        if h < 24 && m < 60 {
            Some(Time { hour: h as u8, minute: m as u8 })
        } else {
            None
        }
    } else {
        None
    }
}

impl Time {
    /// A well-formed time has an hour below 24 and a minute below 60.
    pub open spec fn wf(self) -> bool {
        self.hour < 24 && self.minute < 60
    }

    /// Builds a time of day; `None` when the hour or minute is out of range.
    pub fn new(hour: u8, minute: u8) -> (r: Option<Time>)
        ensures
            r == if hour < 24 && minute < 60 {
                Some(Time { hour, minute })
            } else {
                None::<Time>
            },
    {
        if hour < 24 && minute < 60 {
            Some(Time { hour, minute })
        } else {
            None
        }
    }

    /// Renders this time as `HHMM`, zero-padded.
    pub fn to_hhmm(&self) -> (r: String)
        requires
            self.wf(),
        ensures
            r@ == time_str(*self),
    {
        let mut out = String::new();
        append_2digits(&mut out, self.hour as u32);
        append_2digits(&mut out, self.minute as u32);
        proof {
            assert(out@ =~= time_str(*self));
        }
        out
    }

    /// Parses `HHMM`; `None` unless the string is exactly four digits naming
    /// a valid hour and minute.
    pub fn parse_hhmm(s: &str) -> (r: Option<Time>)
        ensures
            r == parse_hhmm_spec(s@),
            r is Some ==> r->Some_0.wf(),
    {
        if s.unicode_len() != 4 {
            return None;
        }
        if !str_all_digits(s) {
            return None;
        }
        let hs = s.substring_char(0, 2);
        let ms = s.substring_char(2, 4);
        proof {
            assert(all_digits(hs@));
            assert(all_digits(ms@));
            lemma_num_val_bound(hs@);
            lemma_num_val_bound(ms@);
            assert(pow10(2) == 100) by {
                assert(pow10(0) == 1);
                assert(pow10(1) == 10);
            }
        }
        let h = num_from_digits(hs);
        let m = num_from_digits(ms);
        if h < 24 && m < 60 {
            Some(Time { hour: h as u8, minute: m as u8 })
        } else {
            None
        }
    }
}

/// Rendering a well-formed time and parsing the rendering yields the time.
pub proof fn lemma_time_round_trip(t: Time)
    requires
        t.wf(),
    ensures
        parse_hhmm_spec(time_str(t)) == Some(t),
{
    lemma_pad2_val(t.hour as int);
    lemma_pad2_val(t.minute as int);
    let s = time_str(t);
    assert(s.subrange(0, 2) =~= pad2(t.hour as int));
    assert(s.subrange(2, 4) =~= pad2(t.minute as int));
}

} // verus!
