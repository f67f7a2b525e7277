//! Civil timestamps with a fixed UTC offset, held as plain fields, and their
//! textual form: RFC 3339 with microsecond precision, the shape the history
//! log stores.
use vstd::prelude::*;
use vstd::string::StringExecFns;
use crate::digits::{
    all_digits,
    dec_digits,
    dec_string,
    dec_value,
    is_digit_char,
    lemma_dec_digits_len,
    lemma_dec_round_trip,
    pow10,
};

verus! {

/// One moment in civil time, to microsecond precision, together with the
/// local UTC offset it was observed under.
#[derive(Clone, Copy, PartialEq, Eq, Structural, Debug)]
pub struct Timestamp {
    pub year: u16,
    pub month: u8,
    pub day: u8,
    pub hour: u8,
    pub minute: u8,
    pub second: u8,
    /// Microseconds within the second.
    pub micros: u32,
    /// Local offset from UTC, in minutes, east positive.
    pub offset_minutes: i16,
}

pub open spec fn is_leap_year(y: int) -> bool {
    (y % 4 == 0 && y % 100 != 0) || y % 400 == 0
}

pub open spec fn days_in_month(y: int, m: int) -> int {
    if m == 2 {
        if is_leap_year(y) {
            29
        } else {
            28
        }
    } else if m == 4 || m == 6 || m == 9 || m == 11 {
        30
    } else {
        31
    }
}

/// Field validity: a calendar date that exists, a time of day, microseconds
/// within one second, and an offset of whole minutes below one day.
impl Timestamp {
    pub open spec fn wf(self) -> bool {
        self.year <= 9999 && 1 <= self.month <= 12 && 1 <= self.day && self.day as int
            <= days_in_month(self.year as int, self.month as int) && self.hour < 24 && self.minute
            < 60 && self.second < 60 && self.micros < 1_000_000 && -1439 <= self.offset_minutes
            <= 1439
    }

    pub open spec fn parts_valid(
        year: u16,
        month: u8,
        day: u8,
        hour: u8,
        minute: u8,
        second: u8,
        nanos: u32,
        offset_minutes: i16,
    ) -> bool {
        year <= 9999 && 1 <= month <= 12 && 1 <= day && day as int <= days_in_month(
            year as int,
            month as int,
        ) && hour < 24 && minute < 60 && second < 60 && nanos < 1_000_000_000 && -1439
            <= offset_minutes <= 1439
    }

    /// Builds a timestamp from clock parts, truncating the fractional second
    /// from nanoseconds down to whole microseconds; `None` when the parts do
    /// not name a moment this type can hold.
    pub fn new(
        year: u16,
        month: u8,
        day: u8,
        hour: u8,
        minute: u8,
        second: u8,
        nanos: u32,
        offset_minutes: i16,
    ) -> (r: Option<Timestamp>)
        ensures
            r is Some <==> Self::parts_valid(
                year,
                month,
                day,
                hour,
                minute,
                second,
                nanos,
                offset_minutes,
            ),
            r matches Some(t) ==> t.wf() && t == (Timestamp {
                year,
                month,
                day,
                hour,
                minute,
                second,
                micros: nanos / 1000,
                offset_minutes,
            }),
    {
        let month_days: u8 = if month == 2 {
            let y: u32 = year as u32;
            if (y % 4 == 0 && y % 100 != 0) || y % 400 == 0 {
                29
            } else {
                28
            }
        } else if month == 4 || month == 6 || month == 9 || month == 11 {
            30
        } else {
            31
        };
        if year <= 9999 && 1 <= month && month <= 12 && 1 <= day && day <= month_days && hour < 24
            && minute < 60 && second < 60 && nanos < 1_000_000_000 && -1439 <= offset_minutes
            && offset_minutes <= 1439 {
            Some(
                Timestamp {
                    year,
                    month,
                    day,
                    hour,
                    minute,
                    second,
                    micros: nanos / 1000,
                    offset_minutes,
                },
            )
        } else {
            None
        }
    }
}

/// The fractional-second part: nothing for a whole second, three digits when
/// the microseconds are a whole number of milliseconds, six digits otherwise.
pub open spec fn frac_text(us: int) -> Seq<char> {
    if us == 0 {
        Seq::empty()
    } else if us % 1000 == 0 {
        seq!['.'] + dec_digits(us / 1000, 3)
    } else {
        seq!['.'] + dec_digits(us, 6)
    }
}

/// The offset part: `Z` for UTC, otherwise a sign and `HH:MM`.
pub open spec fn offset_text(m: int) -> Seq<char> {
    if m == 0 {
        seq!['Z']
    } else {
        let a = if m < 0 {
            -m
        } else {
            m
        };
        seq![if m < 0 { '-' } else { '+' }] + dec_digits(a / 60, 2) + seq![':'] + dec_digits(
            a % 60,
            2,
        )
    }
}

/// The full textual form: `YYYY-MM-DDTHH:MM:SS`, then the fraction, then the
/// offset.
pub open spec fn timestamp_text(t: Timestamp) -> Seq<char> {
    dec_digits(t.year as int, 4) + seq!['-'] + dec_digits(t.month as int, 2) + seq!['-']
        + dec_digits(t.day as int, 2) + seq!['T'] + dec_digits(t.hour as int, 2) + seq![':']
        + dec_digits(t.minute as int, 2) + seq![':'] + dec_digits(t.second as int, 2) + frac_text(
        t.micros as int,
    ) + offset_text(t.offset_minutes as int)
}

impl Timestamp {
    /// Writes the timestamp in the form the log stores.
    pub fn render(&self) -> (r: String)
        ensures
            r@ == timestamp_text(*self),
    {
        proof {
            reveal_strlit("-");
            reveal_strlit("T");
            reveal_strlit(":");
            reveal_strlit(".");
            reveal_strlit("Z");
            reveal_strlit("+");
        }
        let mut r = dec_string(self.year as u32, 4);
        r.append("-");
        let m2 = dec_string(self.month as u32, 2);
        r.append(m2.as_str());
        r.append("-");
        let d2 = dec_string(self.day as u32, 2);
        r.append(d2.as_str());
        r.append("T");
        let h2 = dec_string(self.hour as u32, 2);
        r.append(h2.as_str());
        r.append(":");
        let mi2 = dec_string(self.minute as u32, 2);
        r.append(mi2.as_str());
        r.append(":");
        let s2 = dec_string(self.second as u32, 2);
        r.append(s2.as_str());
        if self.micros != 0 {
            r.append(".");
            if self.micros % 1000 == 0 {
                let f3 = dec_string(self.micros / 1000, 3);
                r.append(f3.as_str());
            } else {
                let f6 = dec_string(self.micros, 6);
                r.append(f6.as_str());
            }
        }
        if self.offset_minutes == 0 {
            r.append("Z");
        } else {
            let a: u32 = if self.offset_minutes < 0 {
                r.append("-");
                (-(self.offset_minutes as i32)) as u32
            } else {
                r.append("+");
                self.offset_minutes as u32
            };
            let oh = dec_string(a / 60, 2);
            r.append(oh.as_str());
            r.append(":");
            let om = dec_string(a % 60, 2);
            r.append(om.as_str());
        }
        proof {
            assert(r@ =~= timestamp_text(*self));
        }
        r
    }
}

/// Reads `w` leading digits as a number; the unread remainder comes second.
pub open spec fn take_digits(s: Seq<char>, w: nat) -> Option<(int, Seq<char>)> {
    if s.len() >= w && all_digits(s.take(w as int)) {
        Some((dec_value(s.take(w as int)), s.skip(w as int)))
    } else {
        None
    }
}

pub open spec fn expect_char(s: Seq<char>, c: char) -> Option<Seq<char>> {
    if s.len() >= 1 && s[0] == c {
        Some(s.skip(1))
    } else {
        None
    }
}

/// Length of the leading run of decimal digits.
pub open spec fn digit_run(s: Seq<char>) -> nat
    decreases s.len(),
{
    if s.len() > 0 && is_digit_char(s[0]) {
        1 + digit_run(s.skip(1))
    } else {
        0
    }
}

/// Reads the offset part back: `Z`, or a signed `HH:MM`.
pub open spec fn parse_offset(s: Seq<char>) -> Option<int> {
    if s.len() == 1 && s[0] == 'Z' {
        Some(0)
    } else if s.len() == 6 && (s[0] == '+' || s[0] == '-') {
        match take_digits(s.skip(1), 2) {
            Some((h, r1)) => match expect_char(r1, ':') {
                Some(r2) => match take_digits(r2, 2) {
                    Some((mm, r3)) => if r3.len() == 0 && mm < 60 {
                        Some(
                            if s[0] == '-' {
                                -(h * 60 + mm)
                            } else {
                                h * 60 + mm
                            },
                        )
                    } else {
                        None
                    },
                    None => None,
                },
                None => None,
            },
            None => None,
        }
    } else {
        None
    }
}

/// Reads the fraction (three or six digits, if present) and the offset:
/// microseconds first, offset minutes second.
pub open spec fn parse_tail(s: Seq<char>) -> Option<(int, int)> {
    if s.len() > 0 && s[0] == '.' {
        let d = digit_run(s.skip(1));
        if d == 3 {
            match take_digits(s.skip(1), 3) {
                Some((ms, r)) => match parse_offset(r) {
                    Some(o) => Some((ms * 1000, o)),
                    None => None,
                },
                None => None,
            }
        } else if d == 6 {
            match take_digits(s.skip(1), 6) {
                Some((us, r)) => match parse_offset(r) {
                    Some(o) => Some((us, o)),
                    None => None,
                },
                None => None,
            }
        } else {
            None
        }
    } else {
        match parse_offset(s) {
            Some(o) => Some((0, o)),
            None => None,
        }
    }
}

/// Reads a whole timestamp back from its textual form; `None` unless the
/// text has exactly the emitted shape and names a valid moment.
#[verifier::opaque]
pub open spec fn parse_timestamp(s: Seq<char>) -> Option<Timestamp> {
    match take_digits(s, 4) {
        Some((y, r1)) => match expect_char(r1, '-') {
            Some(r2) => match take_digits(r2, 2) {
                Some((mo, r3)) => match expect_char(r3, '-') {
                    Some(r4) => match take_digits(r4, 2) {
                        Some((d, r5)) => match expect_char(r5, 'T') {
                            Some(r6) => match take_digits(r6, 2) {
                                Some((h, r7)) => match expect_char(r7, ':') {
                                    Some(r8) => match take_digits(r8, 2) {
                                        Some((mi, r9)) => match expect_char(r9, ':') {
                                            Some(r10) => match take_digits(r10, 2) {
                                                Some((sec, r11)) => match parse_tail(r11) {
                                                    Some((us, off)) => {
                                                        if 0 <= y <= 9999 && 1 <= mo <= 12 && 1 <= d
                                                            <= days_in_month(y, mo) && 0 <= h < 24
                                                            && 0 <= mi < 60 && 0 <= sec < 60 && 0
                                                            <= us < 1_000_000 && -1439 <= off
                                                            <= 1439 {
                                                            Some(
                                                                Timestamp {
                                                                    year: y as u16,
                                                                    month: mo as u8,
                                                                    day: d as u8,
                                                                    hour: h as u8,
                                                                    minute: mi as u8,
                                                                    second: sec as u8,
                                                                    micros: us as u32,
                                                                    offset_minutes: off as i16,
                                                                },
                                                            )
                                                        } else {
                                                            None
                                                        }
                                                    },
                                                    None => None,
                                                },
                                                None => None,
                                            },
                                            None => None,
                                        },
                                        None => None,
                                    },
                                    None => None,
                                },
                                None => None,
                            },
                            None => None,
                        },
                        None => None,
                    },
                    None => None,
                },
                None => None,
            },
            None => None,
        },
        None => None,
    }
}

proof fn lemma_take_digits_prefix(n: int, w: nat, rest: Seq<char>)
    requires
        0 <= n < pow10(w),
    ensures
        take_digits(dec_digits(n, w) + rest, w) == Some((n, rest)),
{
    lemma_dec_digits_len(n, w);
    let s = dec_digits(n, w) + rest;
    assert(s.take(w as int) =~= dec_digits(n, w));
    assert(s.skip(w as int) =~= rest);
    lemma_dec_round_trip(n, w);
}

pub proof fn lemma_expect_char_prefix(c: char, rest: Seq<char>)
    ensures
        expect_char(seq![c] + rest, c) == Some(rest),
{
    let s = seq![c] + rest;
    assert(s[0] == c);
    assert(s.skip(1) =~= rest);
}

proof fn lemma_digit_run_concat(d: Seq<char>, rest: Seq<char>)
    requires
        all_digits(d),
        rest.len() == 0 || !is_digit_char(rest[0]),
    ensures
        digit_run(d + rest) == d.len(),
    decreases d.len(),
{
    if d.len() == 0 {
        assert(d + rest =~= rest);
    } else {
        assert((d + rest).skip(1) =~= d.skip(1) + rest);
        assert(all_digits(d.skip(1)));
        lemma_digit_run_concat(d.skip(1), rest);
    }
}

proof fn lemma_parse_offset_round_trip(m: int)
    requires
        -1439 <= m <= 1439,
    ensures
        parse_offset(offset_text(m)) == Some(m),
{
    if m == 0 {
    } else {
        let a = if m < 0 {
            -m
        } else {
            m
        };
        let sign = if m < 0 {
            '-'
        } else {
            '+'
        };
        let h2 = dec_digits(a / 60, 2);
        let m2 = dec_digits(a % 60, 2);
        lemma_dec_digits_len(a / 60, 2);
        lemma_dec_digits_len(a % 60, 2);
        let s = offset_text(m);
        assert(s =~= seq![sign] + (h2 + (seq![':'] + m2)));
        assert(s.len() == 6);
        assert(s[0] == sign);
        assert(pow10(2) == 100) by {
            reveal_with_fuel(pow10, 3);
        };
        assert(s.skip(1) =~= h2 + (seq![':'] + m2));
        lemma_take_digits_prefix(a / 60, 2, seq![':'] + m2);
        lemma_expect_char_prefix(':', m2);
        assert(m2 =~= m2 + Seq::<char>::empty());
        lemma_take_digits_prefix(a % 60, 2, Seq::<char>::empty());
        assert((a / 60) * 60 + a % 60 == a);
    }
}

proof fn lemma_offset_text_starts_nondigit(m: int)
    ensures
        offset_text(m).len() > 0,
        !is_digit_char(offset_text(m)[0]),
{
    if m != 0 {
        lemma_dec_digits_len((if m < 0 {
            -m
        } else {
            m
        }) / 60, 2);
    }
}

proof fn lemma_parse_tail_round_trip(us: int, m: int)
    requires
        0 <= us < 1_000_000,
        -1439 <= m <= 1439,
    ensures
        parse_tail(frac_text(us) + offset_text(m)) == Some((us, m)),
{
    let off = offset_text(m);
    lemma_offset_text_starts_nondigit(m);
    lemma_parse_offset_round_trip(m);
    if us == 0 {
        assert(frac_text(us) + off =~= off);
        assert(!(off[0] == '.')) by {
            if m != 0 {
            }
        };
    } else if us % 1000 == 0 {
        let d3 = dec_digits(us / 1000, 3);
        lemma_dec_digits_len(us / 1000, 3);
        let s = frac_text(us) + off;
        assert(s =~= seq!['.'] + (d3 + off));
        assert(s[0] == '.');
        assert(s.skip(1) =~= d3 + off);
        lemma_digit_run_concat(d3, off);
        assert(pow10(3) == 1000) by {
            reveal_with_fuel(pow10, 4);
        };
        lemma_take_digits_prefix(us / 1000, 3, off);
        assert((us / 1000) * 1000 == us);
    } else {
        let d6 = dec_digits(us, 6);
        lemma_dec_digits_len(us, 6);
        let s = frac_text(us) + off;
        assert(s =~= seq!['.'] + (d6 + off));
        assert(s[0] == '.');
        assert(s.skip(1) =~= d6 + off);
        lemma_digit_run_concat(d6, off);
        assert(pow10(6) == 1_000_000) by {
            reveal_with_fuel(pow10, 7);
        };
        lemma_take_digits_prefix(us, 6, off);
    }
}

/// Rendering a valid timestamp and reading it back gives the same fields.
pub proof fn lemma_timestamp_round_trip(t: Timestamp)
    requires
        t.wf(),
    ensures
        parse_timestamp(timestamp_text(t)) == Some(t),
{
    reveal(parse_timestamp);
    let y4 = dec_digits(t.year as int, 4);
    let mo2 = dec_digits(t.month as int, 2);
    let d2 = dec_digits(t.day as int, 2);
    let h2 = dec_digits(t.hour as int, 2);
    let mi2 = dec_digits(t.minute as int, 2);
    let s2 = dec_digits(t.second as int, 2);
    let tail = frac_text(t.micros as int) + offset_text(t.offset_minutes as int);
    assert(pow10(4) == 10000) by {
        reveal_with_fuel(pow10, 5);
    };
    assert(pow10(2) == 100) by {
        reveal_with_fuel(pow10, 3);
    };
    let s = timestamp_text(t);
    let r1 = seq!['-'] + (mo2 + (seq!['-'] + (d2 + (seq!['T'] + (h2 + (seq![':'] + (mi2 + (seq![
        ':',
    ] + (s2 + tail)))))))));
    assert(s =~= y4 + r1);
    lemma_take_digits_prefix(t.year as int, 4, r1);
    let r2 = mo2 + (seq!['-'] + (d2 + (seq!['T'] + (h2 + (seq![':'] + (mi2 + (seq![':'] + (s2
        + tail))))))));
    lemma_expect_char_prefix('-', r2);
    let r3 = seq!['-'] + (d2 + (seq!['T'] + (h2 + (seq![':'] + (mi2 + (seq![':'] + (s2 + tail)))))));
    lemma_take_digits_prefix(t.month as int, 2, r3);
    let r4 = d2 + (seq!['T'] + (h2 + (seq![':'] + (mi2 + (seq![':'] + (s2 + tail))))));
    lemma_expect_char_prefix('-', r4);
    let r5 = seq!['T'] + (h2 + (seq![':'] + (mi2 + (seq![':'] + (s2 + tail)))));
    lemma_take_digits_prefix(t.day as int, 2, r5);
    let r6 = h2 + (seq![':'] + (mi2 + (seq![':'] + (s2 + tail))));
    lemma_expect_char_prefix('T', r6);
    let r7 = seq![':'] + (mi2 + (seq![':'] + (s2 + tail)));
    lemma_take_digits_prefix(t.hour as int, 2, r7);
    let r8 = mi2 + (seq![':'] + (s2 + tail));
    lemma_expect_char_prefix(':', r8);
    let r9 = seq![':'] + (s2 + tail);
    lemma_take_digits_prefix(t.minute as int, 2, r9);
    let r10 = s2 + tail;
    lemma_expect_char_prefix(':', r10);
    lemma_take_digits_prefix(t.second as int, 2, tail);
    lemma_parse_tail_round_trip(t.micros as int, t.offset_minutes as int);
}

} // verus!
