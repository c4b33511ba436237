//! Local timestamps as plain values, their ISO-8601-style rendering with a
//! UTC offset (`2024-03-11T14:02:31.500000000-05:00`), and the parser that
//! reads the rendering back.

use vstd::prelude::*;
use vstd::arithmetic::div_mod::{lemma_breakdown, lemma_fundamental_div_mod};
use crate::numbers::{
    dec_pad, is_digit, lemma_concat_assoc, lemma_dec_pad, lemma_expect_cons, lemma_pow10_vals,
    lemma_scan_pad, push_byte, push_dec_pad, scan_digits, spec_expect, spec_scan_digits,
};

verus! {

/// A local calendar time with its UTC offset, held as plain fields. The
/// moment of a commit is recorded in one of these.
#[derive(Clone, Copy, Debug, PartialEq, Eq, Structural)]
pub struct Timestamp {
    /// Calendar year; may be negative.
    pub year: i32,
    /// Month, 1 to 12.
    pub month: u32,
    /// Day of month, 1 to 31.
    pub day: u32,
    /// Hour, 0 to 23.
    pub hour: u32,
    /// Minute, 0 to 59.
    pub minute: u32,
    /// Second, 0 to 59.
    pub second: u32,
    /// Nanoseconds past the second; up to 1,999,999,999 across a leap second.
    pub nanosecond: u32,
    /// Local offset from UTC in seconds, strictly within one day.
    pub offset_seconds: i32,
}

impl Timestamp {
    /// Field ranges of a real local time.
    pub open spec fn wf(self) -> bool {
        &&& 1 <= self.month <= 12
        &&& 1 <= self.day <= 31
        &&& self.hour <= 23
        &&& self.minute <= 59
        &&& self.second <= 59
        &&& self.nanosecond <= 1999999999
        &&& -86400 < self.offset_seconds < 86400
    }

    /// Runtime check of the field ranges.
    pub fn check_wf(&self) -> (r: bool)
        ensures
            r == self.wf(),
    {
        1 <= self.month && self.month <= 12 && 1 <= self.day && self.day <= 31 && self.hour <= 23
            && self.minute <= 59 && self.second <= 59 && self.nanosecond <= 1999999999
            && -86400 < self.offset_seconds && self.offset_seconds < 86400
    }
}

/// The year: at least four digits, with a leading `-` when negative.
pub open spec fn spec_year_bytes(year: int) -> Seq<u8> {
    if year < 0 {
        seq![45u8] + dec_pad((-year) as nat, 4)
    } else {
        dec_pad(year as nat, 4)
    }
}

/// The offset: a sign, hours and minutes as `±HH:MM`, and `:SS` only when
/// the offset is not a whole number of minutes.
pub open spec fn spec_offset_bytes(off: int) -> Seq<u8> {
    let a = (if off < 0 {
        -off
    } else {
        off
    }) as nat;
    seq![(if off < 0 { 45u8 } else { 43u8 })] + dec_pad(a / 3600, 2) + seq![58u8] + dec_pad(
        (a / 60) % 60,
        2,
    ) + (if a % 60 == 0 {
        Seq::<u8>::empty()
    } else {
        seq![58u8] + dec_pad(a % 60, 2)
    })
}

/// The full rendering: date, `T`, time, a dot and nine (ten across a leap
/// second) fractional digits, then the offset.
pub open spec fn spec_ts_bytes(ts: Timestamp) -> Seq<u8> {
    spec_year_bytes(ts.year as int) + seq![45u8] + dec_pad(ts.month as nat, 2) + seq![45u8]
        + dec_pad(ts.day as nat, 2) + seq![84u8] + dec_pad(ts.hour as nat, 2) + seq![58u8]
        + dec_pad(ts.minute as nat, 2) + seq![58u8] + dec_pad(ts.second as nat, 2) + seq![46u8]
        + dec_pad(ts.nanosecond as nat, 9) + spec_offset_bytes(ts.offset_seconds as int)
}

/// Appends the rendering of `ts`.
#[verifier::rlimit(50)]
pub fn push_ts(out: &mut Vec<u8>, ts: &Timestamp)
    requires
        ts.wf(),
    ensures
        final(out)@ == old(out)@ + spec_ts_bytes(*ts),
{
    let ghost mut acc: Seq<u8> = Seq::empty();
    let y = ts.year as i64;
    if y < 0 {
        push_byte(out, 45);
        push_dec_pad(out, (-y) as u64, 4);
        proof {
            lemma_concat_assoc(old(out)@, seq![45u8], dec_pad(((-y) as u64) as nat, 4));
            acc = spec_year_bytes(ts.year as int);
            assert(out@ =~= old(out)@ + acc);
        }
    } else {
        push_dec_pad(out, y as u64, 4);
        proof {
            acc = spec_year_bytes(ts.year as int);
            assert(out@ =~= old(out)@ + acc);
        }
    }
    push_byte(out, 45);
    proof {
        lemma_concat_assoc(old(out)@, acc, seq![45u8]);
        acc = acc + seq![45u8];
    }
    push_dec_pad(out, ts.month as u64, 2);
    proof {
        lemma_concat_assoc(old(out)@, acc, dec_pad(ts.month as nat, 2));
        acc = acc + dec_pad(ts.month as nat, 2);
    }
    push_byte(out, 45);
    proof {
        lemma_concat_assoc(old(out)@, acc, seq![45u8]);
        acc = acc + seq![45u8];
    }
    push_dec_pad(out, ts.day as u64, 2);
    proof {
        lemma_concat_assoc(old(out)@, acc, dec_pad(ts.day as nat, 2));
        acc = acc + dec_pad(ts.day as nat, 2);
    }
    push_byte(out, 84);
    proof {
        lemma_concat_assoc(old(out)@, acc, seq![84u8]);
        acc = acc + seq![84u8];
    }
    push_dec_pad(out, ts.hour as u64, 2);
    proof {
        lemma_concat_assoc(old(out)@, acc, dec_pad(ts.hour as nat, 2));
        acc = acc + dec_pad(ts.hour as nat, 2);
    }
    push_byte(out, 58);
    proof {
        lemma_concat_assoc(old(out)@, acc, seq![58u8]);
        acc = acc + seq![58u8];
    }
    push_dec_pad(out, ts.minute as u64, 2);
    proof {
        lemma_concat_assoc(old(out)@, acc, dec_pad(ts.minute as nat, 2));
        acc = acc + dec_pad(ts.minute as nat, 2);
    }
    push_byte(out, 58);
    proof {
        lemma_concat_assoc(old(out)@, acc, seq![58u8]);
        acc = acc + seq![58u8];
    }
    push_dec_pad(out, ts.second as u64, 2);
    proof {
        lemma_concat_assoc(old(out)@, acc, dec_pad(ts.second as nat, 2));
        acc = acc + dec_pad(ts.second as nat, 2);
    }
    push_byte(out, 46);
    proof {
        lemma_concat_assoc(old(out)@, acc, seq![46u8]);
        acc = acc + seq![46u8];
    }
    push_dec_pad(out, ts.nanosecond as u64, 9);
    proof {
        lemma_concat_assoc(old(out)@, acc, dec_pad(ts.nanosecond as nat, 9));
        acc = acc + dec_pad(ts.nanosecond as nat, 9);
        assert(out@ == old(out)@ + acc);
    }
    let ghost p13 = acc;
    let ghost base = out@;
    let off = ts.offset_seconds as i64;
    let ghost a = (if ts.offset_seconds < 0 {
        -(ts.offset_seconds as int)
    } else {
        ts.offset_seconds as int
    }) as nat;
    let abs = if off < 0 {
        (-off) as u64
    } else {
        off as u64
    };
    let sign: u8 = if off < 0 {
        45
    } else {
        43
    };
    let ghost mut occ: Seq<u8> = seq![sign];
    push_byte(out, sign);
    push_dec_pad(out, abs / 3600, 2);
    proof {
        lemma_concat_assoc(base, occ, dec_pad(a / 3600, 2));
        occ = occ + dec_pad(a / 3600, 2);
    }
    push_byte(out, 58);
    proof {
        lemma_concat_assoc(base, occ, seq![58u8]);
        occ = occ + seq![58u8];
    }
    push_dec_pad(out, (abs / 60) % 60, 2);
    proof {
        lemma_concat_assoc(base, occ, dec_pad((a / 60) % 60, 2));
        occ = occ + dec_pad((a / 60) % 60, 2);
        assert(out@ == base + occ);
    }
    if abs % 60 != 0 {
        let ghost q4 = occ;
        push_byte(out, 58);
        proof {
            lemma_concat_assoc(base, occ, seq![58u8]);
            occ = occ + seq![58u8];
        }
        push_dec_pad(out, abs % 60, 2);
        proof {
            lemma_concat_assoc(base, occ, dec_pad(a % 60, 2));
            lemma_concat_assoc(q4, seq![58u8], dec_pad(a % 60, 2));
            occ = q4 + (seq![58u8] + dec_pad(a % 60, 2));
            assert(out@ == base + occ);
            assert(occ == spec_offset_bytes(ts.offset_seconds as int));
        }
    } else {
        proof {
            assert(occ + Seq::<u8>::empty() =~= occ);
            assert(occ == spec_offset_bytes(ts.offset_seconds as int));
        }
    }
    proof {
        lemma_concat_assoc(old(out)@, p13, spec_offset_bytes(ts.offset_seconds as int));
        assert(out@ == old(out)@ + spec_ts_bytes(*ts));
    }
}

/// Reads the year: an optional `-`, then a digit run that must fit a 32-bit
/// year.
pub open spec fn spec_parse_year(s: Seq<u8>) -> Option<(int, Seq<u8>)> {
    if s.len() > 0 && s[0] == 45 {
        match spec_scan_digits(s.skip(1)) {
            Option::None => None,
            Option::Some((v, r)) => if v > 2147483648 {
                None
            } else {
                Some((-(v as int), r))
            },
        }
    } else {
        match spec_scan_digits(s) {
            Option::None => None,
            Option::Some((v, r)) => if v > 2147483647 {
                None
            } else {
                Some((v as int, r))
            },
        }
    }
}

/// Reads the offset: a mandatory sign, hours, `:`, minutes, and optional
/// `:` seconds; the total must stay within one day.
pub open spec fn spec_parse_offset(s: Seq<u8>) -> Option<(int, Seq<u8>)> {
    if s.len() == 0 || !(s[0] == 43 || s[0] == 45) {
        None
    } else {
        let neg = s[0] == 45;
        match spec_scan_digits(s.skip(1)) {
            Option::None => None,
            Option::Some((oh, s1)) => match spec_expect(s1, 58) {
                Option::None => None,
                Option::Some(s2) => match spec_scan_digits(s2) {
                    Option::None => None,
                    Option::Some((om, s3)) => if s3.len() > 0 && s3[0] == 58 {
                        match spec_scan_digits(s3.skip(1)) {
                            Option::None => None,
                            Option::Some((os, s4)) => spec_offset_total(neg, oh, om, os, s4),
                        }
                    } else {
                        spec_offset_total(neg, oh, om, 0, s3)
                    },
                },
            },
        }
    }
}

/// Combines the offset fields, rejecting a day or more.
pub open spec fn spec_offset_total(neg: bool, oh: nat, om: nat, os: nat, rest: Seq<u8>) -> Option<
    (int, Seq<u8>),
> {
    let a = oh * 3600 + om * 60 + os;
    if a >= 86400 {
        None
    } else {
        Some(
            (
                if neg {
                    -(a as int)
                } else {
                    a as int
                },
                rest,
            ),
        )
    }
}

/// Reads a full timestamp rendering; the field ranges of `Timestamp::wf`
/// are enforced, so an accepted timestamp is well-formed.
pub open spec fn spec_parse_ts(s: Seq<u8>) -> Option<(Timestamp, Seq<u8>)> {
    match spec_parse_year(s) {
        Option::None => None,
        Option::Some((year, s1)) => match spec_expect(s1, 45) {
            Option::None => None,
            Option::Some(s2) => match spec_scan_digits(s2) {
                Option::None => None,
                Option::Some((mo, s3)) => match spec_expect(s3, 45) {
                    Option::None => None,
                    Option::Some(s4) => match spec_scan_digits(s4) {
                        Option::None => None,
                        Option::Some((dy, s5)) => match spec_expect(s5, 84) {
                            Option::None => None,
                            Option::Some(s6) => match spec_scan_digits(s6) {
                                Option::None => None,
                                Option::Some((hr, s7)) => match spec_expect(s7, 58) {
                                    Option::None => None,
                                    Option::Some(s8) => match spec_scan_digits(s8) {
                                        Option::None => None,
                                        Option::Some((mi, s9)) => match spec_expect(s9, 58) {
                                            Option::None => None,
                                            Option::Some(s10) => match spec_scan_digits(s10) {
                                                Option::None => None,
                                                Option::Some((sc, s11)) => match spec_expect(
                                                    s11,
                                                    46,
                                                ) {
                                                    Option::None => None,
                                                    Option::Some(s12) => match spec_scan_digits(
                                                        s12,
                                                    ) {
                                                        Option::None => None,
                                                        Option::Some((ns, s13)) => match spec_parse_offset(
                                                            s13,
                                                        ) {
                                                            Option::None => None,
                                                            Option::Some((off, s14)) => spec_ts_fields(
                                                                year,
                                                                mo,
                                                                dy,
                                                                hr,
                                                                mi,
                                                                sc,
                                                                ns,
                                                                off,
                                                                s14,
                                                            ),
                                                        },
                                                    },
                                                },
                                            },
                                        },
                                    },
                                },
                            },
                        },
                    },
                },
            },
        },
    }
}

/// Validates the parsed fields against the ranges of `Timestamp::wf`.
pub open spec fn spec_ts_fields(
    year: int,
    mo: nat,
    dy: nat,
    hr: nat,
    mi: nat,
    sc: nat,
    ns: nat,
    off: int,
    rest: Seq<u8>,
) -> Option<(Timestamp, Seq<u8>)> {
    if 1 <= mo <= 12 && 1 <= dy <= 31 && hr <= 23 && mi <= 59 && sc <= 59 && ns <= 1999999999 {
        Some(
            (
                Timestamp {
                    year: year as i32,
                    month: mo as u32,
                    day: dy as u32,
                    hour: hr as u32,
                    minute: mi as u32,
                    second: sc as u32,
                    nanosecond: ns as u32,
                    offset_seconds: off as i32,
                },
                rest,
            ),
        )
    } else {
        None
    }
}

/// Reads the year at position `i` of `s`; mirrors `spec_parse_year` on the
/// suffix.
pub fn parse_year(s: &[u8], i: usize) -> (r: Option<(i32, usize)>)
    requires
        i <= s@.len(),
    ensures
        ({
            match spec_parse_year(s@.skip(i as int)) {
                Option::None => r is None,
                Option::Some((y, rest)) => (r matches Some((ry, j)) && ry as int == y && i <= j
                    <= s@.len() && s@.skip(j as int) == rest),
            }
        }),
{
    let len = s.len();
    if i < len && s[i] == 45 {
        proof {
            assert(s@.skip(i as int).skip(1) =~= s@.skip(i + 1 as int));
        }
        match scan_digits(s, i + 1) {
            Option::None => None,
            Option::Some((v, j)) => {
                if v > 2147483648 {
                    None
                } else {
                    Some(((-(v as i64)) as i32, j))
                }
            },
        }
    } else {
        match scan_digits(s, i) {
            Option::None => None,
            Option::Some((v, j)) => {
                if v > 2147483647 {
                    None
                } else {
                    Some((v as i32, j))
                }
            },
        }
    }
}

/// Reads the offset at position `i` of `s`; mirrors `spec_parse_offset` on
/// the suffix.
pub fn parse_offset(s: &[u8], i: usize) -> (r: Option<(i32, usize)>)
    requires
        i <= s@.len(),
    ensures
        ({
            match spec_parse_offset(s@.skip(i as int)) {
                Option::None => r is None,
                Option::Some((off, rest)) => (r matches Some((ro, j)) && ro as int == off && i <= j
                    <= s@.len() && s@.skip(j as int) == rest),
            }
        }),
{
    let len = s.len();
    if i >= len || !(s[i] == 43 || s[i] == 45) {
        return None;
    }
    let neg = s[i] == 45;
    proof {
        assert(s@.skip(i as int).skip(1) =~= s@.skip(i + 1 as int));
    }
    let (oh, j1) = if let Some(x) = scan_digits(s, i + 1) {
        x
    } else {
        return None;
    };
    if j1 >= len || s[j1] != 58 {
        return None;
    }
    proof {
        assert(s@.skip(j1 as int).skip(1) =~= s@.skip(j1 + 1 as int));
    }
    let (om, j2) = if let Some(x) = scan_digits(s, j1 + 1) {
        x
    } else {
        return None;
    };
    let has_sec = j2 < len && s[j2] == 58;
    proof {
        if has_sec {
            assert(s@.skip(j2 as int).skip(1) =~= s@.skip(j2 + 1 as int));
        }
    }
    let (os, j3): (u64, usize) = if has_sec {
        if let Some(x) = scan_digits(s, j2 + 1) {
            x
        } else {
            return None;
        }
    } else {
        (0, j2)
    };
    if oh >= 24 || om >= 1440 || os >= 86400 {
        return None;
    }
    let a = oh * 3600 + om * 60 + os;
    if a >= 86400 {
        return None;
    }
    let ro = if neg {
        (-(a as i64)) as i32
    } else {
        a as i32
    };
    Some((ro, j3))
}

/// Reads a full timestamp at position `i` of `s`; mirrors `spec_parse_ts`
/// on the suffix.
#[verifier::rlimit(100)]
pub fn parse_ts(s: &[u8], i: usize) -> (r: Option<(Timestamp, usize)>)
    requires
        i <= s@.len(),
    ensures
        ({
            match spec_parse_ts(s@.skip(i as int)) {
                Option::None => r is None,
                Option::Some((ts, rest)) => (r matches Some((t, j)) && t == ts && i <= j
                    <= s@.len() && s@.skip(j as int) == rest),
            }
        }),
{
    let len = s.len();
    let (year, j1) = if let Some(x) = parse_year(s, i) {
        x
    } else {
        return None;
    };
    if j1 >= len || s[j1] != 45 {
        return None;
    }
    proof {
        assert(s@.skip(j1 as int).skip(1) =~= s@.skip(j1 + 1 as int));
    }
    let (mo, j2) = if let Some(x) = scan_digits(s, j1 + 1) {
        x
    } else {
        return None;
    };
    if j2 >= len || s[j2] != 45 {
        return None;
    }
    proof {
        assert(s@.skip(j2 as int).skip(1) =~= s@.skip(j2 + 1 as int));
    }
    let (dy, j3) = if let Some(x) = scan_digits(s, j2 + 1) {
        x
    } else {
        return None;
    };
    if j3 >= len || s[j3] != 84 {
        return None;
    }
    proof {
        assert(s@.skip(j3 as int).skip(1) =~= s@.skip(j3 + 1 as int));
    }
    let (hr, j4) = if let Some(x) = scan_digits(s, j3 + 1) {
        x
    } else {
        return None;
    };
    if j4 >= len || s[j4] != 58 {
        return None;
    }
    proof {
        assert(s@.skip(j4 as int).skip(1) =~= s@.skip(j4 + 1 as int));
    }
    let (mi, j5) = if let Some(x) = scan_digits(s, j4 + 1) {
        x
    } else {
        return None;
    };
    if j5 >= len || s[j5] != 58 {
        return None;
    }
    proof {
        assert(s@.skip(j5 as int).skip(1) =~= s@.skip(j5 + 1 as int));
    }
    let (sc, j6) = if let Some(x) = scan_digits(s, j5 + 1) {
        x
    } else {
        return None;
    };
    if j6 >= len || s[j6] != 46 {
        return None;
    }
    proof {
        assert(s@.skip(j6 as int).skip(1) =~= s@.skip(j6 + 1 as int));
    }
    let (ns, j7) = if let Some(x) = scan_digits(s, j6 + 1) {
        x
    } else {
        return None;
    };
    let (off, j8) = if let Some(x) = parse_offset(s, j7) {
        x
    } else {
        return None;
    };
    if !(1 <= mo && mo <= 12 && 1 <= dy && dy <= 31 && hr <= 23 && mi <= 59 && sc <= 59 && ns
        <= 1999999999) {
        return None;
    }
    Some(
        (
            Timestamp {
                year,
                month: mo as u32,
                day: dy as u32,
                hour: hr as u32,
                minute: mi as u32,
                second: sc as u32,
                nanosecond: ns as u32,
                offset_seconds: off,
            },
            j8,
        ),
    )
}

/// Rendering then reading back the year.
proof fn lemma_parse_year_round_trip(year: int, rest: Seq<u8>)
    requires
        -2147483648 <= year <= 2147483647,
        rest.len() > 0 ==> !is_digit(rest[0]),
    ensures
        spec_parse_year(spec_year_bytes(year) + rest) == Some((year, rest)),
{
    lemma_pow10_vals();
    let full = spec_year_bytes(year) + rest;
    if year < 0 {
        let yabs = (-year) as nat;
        lemma_concat_assoc(seq![45u8], dec_pad(yabs, 4), rest);
        assert(full == seq![45u8] + (dec_pad(yabs, 4) + rest));
        assert(full[0] == 45);
        assert(full.skip(1) =~= dec_pad(yabs, 4) + rest);
        lemma_scan_pad(yabs, 4, rest);
    } else {
        assert(full == dec_pad(year as nat, 4) + rest);
        lemma_dec_pad(year as nat, 4);
        assert(full[0] == dec_pad(year as nat, 4)[0]);
        assert(is_digit(full[0]));
        lemma_scan_pad(year as nat, 4, rest);
    }
}

/// Rendering then reading back the offset; the rendering begins with its
/// sign byte.
proof fn lemma_parse_offset_round_trip(off: int, rest: Seq<u8>)
    requires
        -86400 < off < 86400,
        rest.len() > 0 ==> !is_digit(rest[0]) && rest[0] != 58,
    ensures
        spec_parse_offset(spec_offset_bytes(off) + rest) == Some((off, rest)),
        spec_offset_bytes(off).len() > 0,
        spec_offset_bytes(off)[0] == (if off < 0 { 45u8 } else { 43u8 }),
{
    lemma_pow10_vals();
    let a = (if off < 0 {
        -off
    } else {
        off
    }) as nat;
    let oh = a / 3600;
    let om = (a / 60) % 60;
    let os = a % 60;
    let sb: u8 = if off < 0 {
        45u8
    } else {
        43u8
    };
    let t_os: Seq<u8> = if os == 0 {
        rest
    } else {
        seq![58u8] + (dec_pad(os, 2) + rest)
    };
    let r_om = dec_pad(om, 2) + t_os;
    let r_oc = seq![58u8] + r_om;
    let r_oh = dec_pad(oh, 2) + r_oc;
    let offb = spec_offset_bytes(off);
    let full = offb + rest;
    let q1 = seq![sb];
    let q2 = q1 + dec_pad(oh, 2);
    let q3 = q2 + seq![58u8];
    let q4 = q3 + dec_pad(om, 2);
    if os == 0 {
        assert(q4 + Seq::<u8>::empty() =~= q4);
        assert(offb == q4);
        lemma_concat_assoc(q3, dec_pad(om, 2), t_os);
    } else {
        assert(offb == q4 + (seq![58u8] + dec_pad(os, 2)));
        lemma_concat_assoc(q4, seq![58u8] + dec_pad(os, 2), rest);
        lemma_concat_assoc(seq![58u8], dec_pad(os, 2), rest);
        lemma_concat_assoc(q3, dec_pad(om, 2), t_os);
    }
    assert(q4 + t_os == q3 + r_om);
    lemma_concat_assoc(q2, seq![58u8], r_om);
    lemma_concat_assoc(q1, dec_pad(oh, 2), r_oc);
    assert(full == seq![sb] + r_oh);
    assert(full[0] == sb);
    assert(offb[0] == sb) by {
        assert(full[0] == offb[0]);
    }
    assert(full.skip(1) =~= r_oh);
    assert(r_oc[0] == 58);
    lemma_scan_pad(oh, 2, r_oc);
    lemma_expect_cons(58, r_om);
    if os == 0 {
        lemma_scan_pad(om, 2, t_os);
        assert(spec_parse_offset(full) == spec_offset_total(off < 0, oh, om, 0, rest));
    } else {
        assert(t_os[0] == 58);
        lemma_scan_pad(om, 2, t_os);
        assert(t_os.skip(1) =~= dec_pad(os, 2) + rest);
        lemma_scan_pad(os, 2, rest);
        assert(spec_parse_offset(full) == spec_offset_total(off < 0, oh, om, os, rest));
    }
    lemma_fundamental_div_mod(a as int, 3600);
    lemma_breakdown(a as int, 60, 60);
    assert(oh * 3600 + om * 60 + os == a);
    assert(a < 86400);
    assert(spec_parse_offset(full) == Some((off, rest)));
}

/// Rendering then parsing a well-formed timestamp gives the timestamp back,
/// whatever follows it — provided what follows does not begin with a digit
/// or a colon, which the optional offset-seconds field would swallow.
#[verifier::rlimit(100)]
pub proof fn lemma_parse_ts_round_trip(ts: Timestamp, rest: Seq<u8>)
    requires
        ts.wf(),
        rest.len() > 0 ==> !is_digit(rest[0]) && rest[0] != 58,
    ensures
        spec_parse_ts(spec_ts_bytes(ts) + rest) == Some((ts, rest)),
{
    lemma_pow10_vals();
    let off = ts.offset_seconds as int;
    let sb: u8 = if off < 0 {
        45u8
    } else {
        43u8
    };
    let yb = spec_year_bytes(ts.year as int);
    let offb = spec_offset_bytes(off);
    lemma_parse_offset_round_trip(off, rest);
    let r_off = offb + rest;
    let r13 = dec_pad(ts.nanosecond as nat, 9) + r_off;
    let r12 = seq![46u8] + r13;
    let r11 = dec_pad(ts.second as nat, 2) + r12;
    let r10 = seq![58u8] + r11;
    let r9 = dec_pad(ts.minute as nat, 2) + r10;
    let r8 = seq![58u8] + r9;
    let r7 = dec_pad(ts.hour as nat, 2) + r8;
    let r6 = seq![84u8] + r7;
    let r5 = dec_pad(ts.day as nat, 2) + r6;
    let r4 = seq![45u8] + r5;
    let r3 = dec_pad(ts.month as nat, 2) + r4;
    let r2 = seq![45u8] + r3;
    let full = spec_ts_bytes(ts) + rest;

    // regroup the left-leaning rendering into the suffix chain above
    let p1 = yb + seq![45u8];
    let p2 = p1 + dec_pad(ts.month as nat, 2);
    let p3 = p2 + seq![45u8];
    let p4 = p3 + dec_pad(ts.day as nat, 2);
    let p5 = p4 + seq![84u8];
    let p6 = p5 + dec_pad(ts.hour as nat, 2);
    let p7 = p6 + seq![58u8];
    let p8 = p7 + dec_pad(ts.minute as nat, 2);
    let p9 = p8 + seq![58u8];
    let p10 = p9 + dec_pad(ts.second as nat, 2);
    let p11 = p10 + seq![46u8];
    let p12 = p11 + dec_pad(ts.nanosecond as nat, 9);
    assert(spec_ts_bytes(ts) == p12 + offb);
    lemma_concat_assoc(p12, offb, rest);
    lemma_concat_assoc(p11, dec_pad(ts.nanosecond as nat, 9), r_off);
    lemma_concat_assoc(p10, seq![46u8], r13);
    lemma_concat_assoc(p9, dec_pad(ts.second as nat, 2), r12);
    lemma_concat_assoc(p8, seq![58u8], r11);
    lemma_concat_assoc(p7, dec_pad(ts.minute as nat, 2), r10);
    lemma_concat_assoc(p6, seq![58u8], r9);
    lemma_concat_assoc(p5, dec_pad(ts.hour as nat, 2), r8);
    lemma_concat_assoc(p4, seq![84u8], r7);
    lemma_concat_assoc(p3, dec_pad(ts.day as nat, 2), r6);
    lemma_concat_assoc(p2, seq![45u8], r5);
    lemma_concat_assoc(p1, dec_pad(ts.month as nat, 2), r4);
    lemma_concat_assoc(yb, seq![45u8], r3);
    assert(full == yb + r2);

    // the year, then each field behind its delimiter
    lemma_parse_year_round_trip(ts.year as int, r2);
    assert(spec_parse_year(full) == Some((ts.year as int, r2)));
    lemma_expect_cons(45, r3);
    assert(r3[0] == dec_pad(ts.month as nat, 2)[0] && is_digit(r3[0])) by {
        lemma_dec_pad(ts.month as nat, 2);
    }
    lemma_scan_pad(ts.month as nat, 2, r4);
    assert(r4[0] == 45);
    lemma_expect_cons(45, r5);
    lemma_scan_pad(ts.day as nat, 2, r6);
    assert(r6[0] == 84);
    lemma_expect_cons(84, r7);
    lemma_scan_pad(ts.hour as nat, 2, r8);
    assert(r8[0] == 58);
    lemma_expect_cons(58, r9);
    lemma_scan_pad(ts.minute as nat, 2, r10);
    assert(r10[0] == 58);
    lemma_expect_cons(58, r11);
    lemma_scan_pad(ts.second as nat, 2, r12);
    assert(r12[0] == 46);
    lemma_expect_cons(46, r13);
    assert(r_off.len() > 0 && r_off[0] == sb);
    lemma_scan_pad(ts.nanosecond as nat, 9, r_off);
    assert(spec_parse_offset(r_off) == Some((off, rest)));

    // the validated fields rebuild exactly `ts`
    assert(spec_parse_ts(full) == spec_ts_fields(
        ts.year as int,
        ts.month as nat,
        ts.day as nat,
        ts.hour as nat,
        ts.minute as nat,
        ts.second as nat,
        ts.nanosecond as nat,
        ts.offset_seconds as int,
        rest,
    ));
    assert(spec_parse_ts(full) == Some((ts, rest)));
}

} // verus!
