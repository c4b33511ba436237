//! The durable selection record: one JSON line
//! `{"pw":"…","created_at":"…"}` framed byte by byte, and the parser that
//! reads a line back into the chosen value and its timestamp.

use vstd::prelude::*;
use vstd::arithmetic::div_mod::lemma_fundamental_div_mod;
use vstd::utf8::{decode_utf8, encode_utf8, encode_utf8_decode_utf8};
use crate::numbers::{is_digit, lemma_concat_assoc, push_byte};
use crate::timestamp::{
    lemma_parse_ts_round_trip, parse_ts, push_ts, spec_parse_ts, spec_ts_bytes, Timestamp,
};

verus! {

/// The lower-case hex digit character for a value below 16.
pub open spec fn hex_digit(n: u8) -> u8 {
    if n < 10 {
        (48 + n) as u8
    } else {
        (87 + n) as u8
    }
}

/// The value of a hex digit character; 16 marks a non-digit.
pub open spec fn hex_val(c: u8) -> u8 {
    if 48 <= c <= 57 {
        (c - 48) as u8
    } else if 97 <= c <= 102 {
        (c - 87) as u8
    } else {
        16u8
    }
}

/// The escape of one byte inside the JSON string: quote and backslash take
/// a backslash, control bytes become `\u00XX`, every other byte stands as
/// itself.
pub open spec fn esc_byte(b: u8) -> Seq<u8> {
    if b == 34 {
        seq![92u8, 34u8]
    } else if b == 92 {
        seq![92u8, 92u8]
    } else if b < 32 {
        seq![92u8, 117u8, 48u8, 48u8, hex_digit(b / 16), hex_digit(b % 16)]
    } else {
        seq![b]
    }
}

/// The escape of a whole byte string.
pub open spec fn esc(v: Seq<u8>) -> Seq<u8>
    decreases v.len(),
{
    if v.len() == 0 {
        Seq::empty()
    } else {
        esc_byte(v[0]) + esc(v.skip(1))
    }
}

/// Escaping one more byte appends its escape.
proof fn lemma_esc_snoc(s: Seq<u8>, b: u8)
    ensures
        esc(s.push(b)) == esc(s) + esc_byte(b),
    decreases s.len(),
{
    if s.len() == 0 {
        assert(s.push(b)[0] == b);
        assert(s.push(b).skip(1) =~= Seq::<u8>::empty());
        assert(esc(s.push(b)) == esc_byte(b) + esc(Seq::<u8>::empty()));
        assert(esc_byte(b) + Seq::<u8>::empty() =~= esc_byte(b));
        assert(esc(s) + esc_byte(b) =~= esc_byte(b));
    } else {
        assert(s.push(b)[0] == s[0]);
        assert(s.push(b).skip(1) =~= s.skip(1).push(b));
        lemma_esc_snoc(s.skip(1), b);
        lemma_concat_assoc(esc_byte(s[0]), esc(s.skip(1)), esc_byte(b));
    }
}

/// Appends the escape of `v`.
pub fn push_escaped(out: &mut Vec<u8>, v: &[u8])
    ensures
        final(out)@ == old(out)@ + esc(v@),
{
    let mut i: usize = 0;
    while i < v.len()
        invariant
            i <= v@.len(),
            out@ == old(out)@ + esc(v@.take(i as int)),
        decreases v@.len() - i,
    {
        let ghost pre = out@;
        let b = v[i];
        if b == 34 {
            out.push(92);
            out.push(34);
        } else if b == 92 {
            out.push(92);
            out.push(92);
        } else if b < 32 {
            out.push(92);
            out.push(117);
            out.push(48);
            out.push(48);
            let hi = b / 16;
            let lo = b % 16;
            out.push(
                if hi < 10 {
                    48 + hi
                } else {
                    87 + hi
                },
            );
            out.push(
                if lo < 10 {
                    48 + lo
                } else {
                    87 + lo
                },
            );
        } else {
            out.push(b);
        }
        proof {
            assert(out@ =~= pre + esc_byte(b));
            assert(v@.take((i + 1) as int) =~= v@.take(i as int).push(v@[i as int]));
            lemma_esc_snoc(v@.take(i as int), v@[i as int]);
            lemma_concat_assoc(old(out)@, esc(v@.take(i as int)), esc_byte(b));
        }
        i += 1;
    }
    proof {
        assert(v@.take(v@.len() as int) =~= v@);
    }
}

/// Parses the escaped body of a JSON string up to and including the closing
/// quote: the unescaped bytes and the rest of the input. Raw control bytes
/// and unknown escapes are rejected.
pub open spec fn spec_parse_jstring(s: Seq<u8>) -> Option<(Seq<u8>, Seq<u8>)>
    decreases s.len(),
{
    if s.len() == 0 {
        None
    } else if s[0] == 34 {
        Some((Seq::empty(), s.skip(1)))
    } else if s[0] == 92 {
        if s.len() < 2 {
            None
        } else if s[1] == 34 || s[1] == 92 {
            match spec_parse_jstring(s.skip(2)) {
                Option::None => None,
                Option::Some((v, r)) => Some((seq![s[1]] + v, r)),
            }
        } else if s[1] == 117 {
            if s.len() < 6 {
                None
            } else if s[2] == 48 && s[3] == 48 && hex_val(s[4]) < 16 && hex_val(s[5]) < 16 {
                match spec_parse_jstring(s.skip(6)) {
                    Option::None => None,
                    Option::Some((v, r)) => Some(
                        (seq![(hex_val(s[4]) * 16 + hex_val(s[5])) as u8] + v, r),
                    ),
                }
            } else {
                None
            }
        } else {
            None
        }
    } else if s[0] < 32 {
        None
    } else {
        match spec_parse_jstring(s.skip(1)) {
            Option::None => None,
            Option::Some((v, r)) => Some((seq![s[0]] + v, r)),
        }
    }
}

/// Unescaping what escaping wrote gives the bytes back, for every byte
/// string, with the closing quote consumed.
pub proof fn lemma_jstring_round_trip(v: Seq<u8>, rest: Seq<u8>)
    ensures
        spec_parse_jstring(esc(v) + (seq![34u8] + rest)) == Some((v, rest)),
    decreases v.len(),
{
    let full = esc(v) + (seq![34u8] + rest);
    if v.len() == 0 {
        assert(esc(v) =~= Seq::<u8>::empty());
        assert(full =~= seq![34u8] + rest);
        assert(full[0] == 34);
        assert(full.skip(1) =~= rest);
    } else {
        let b = v[0];
        let tail = esc(v.skip(1)) + (seq![34u8] + rest);
        lemma_concat_assoc(esc_byte(b), esc(v.skip(1)), seq![34u8] + rest);
        assert(full == esc_byte(b) + tail);
        lemma_jstring_round_trip(v.skip(1), rest);
        if b == 34 || b == 92 {
            assert(full[0] == 92);
            assert(full[1] == b);
            assert(full.skip(2) =~= tail);
            assert(seq![b] + v.skip(1) =~= v);
        } else if b < 32 {
            assert(full[0] == 92);
            assert(full[1] == 117);
            assert(full[2] == 48);
            assert(full[3] == 48);
            assert(full[4] == hex_digit(b / 16));
            assert(full[5] == hex_digit(b % 16));
            assert(hex_val(hex_digit(b / 16)) == b / 16);
            assert(hex_val(hex_digit(b % 16)) == b % 16);
            lemma_fundamental_div_mod(b as int, 16);
            assert(full.skip(6) =~= tail);
            assert(seq![b] + v.skip(1) =~= v);
        } else {
            assert(full[0] == b);
            assert(full.skip(1) =~= tail);
            assert(seq![b] + v.skip(1) =~= v);
        }
    }
}

/// Reads the escaped string body at position `i`, through the closing
/// quote; mirrors `spec_parse_jstring` on the suffix.
pub fn parse_jstring(s: &[u8], i: usize) -> (r: Option<(Vec<u8>, usize)>)
    requires
        i <= s@.len(),
    ensures
        ({
            match spec_parse_jstring(s@.skip(i as int)) {
                Option::None => r is None,
                Option::Some((v, rest)) => (r matches Some((rv, j)) && rv@ == v && i <= j
                    <= s@.len() && s@.skip(j as int) == rest),
            }
        }),
{
    let len = s.len();
    let mut cur = i;
    let mut acc: Vec<u8> = Vec::new();
    loop
        invariant
            i <= cur <= len,
            len == s@.len(),
            spec_parse_jstring(s@.skip(i as int)) == (match spec_parse_jstring(
                s@.skip(cur as int),
            ) {
                Option::None => Option::<(Seq<u8>, Seq<u8>)>::None,
                Option::Some((v, r)) => Some((acc@ + v, r)),
            }),
        decreases len - cur,
    {
        if cur >= len {
            return None;
        }
        let b = s[cur];
        if b == 34 {
            proof {
                assert(s@.skip(cur as int)[0] == 34);
                assert(s@.skip(cur as int).skip(1) =~= s@.skip((cur + 1) as int));
                assert(acc@ + Seq::<u8>::empty() =~= acc@);
            }
            return Some((acc, cur + 1));
        } else if b == 92 {
            if cur + 1 >= len {
                return None;
            }
            let c = s[cur + 1];
            if c == 34 || c == 92 {
                proof {
                    assert(s@.skip(cur as int)[1] == c);
                    assert(s@.skip(cur as int).skip(2) =~= s@.skip((cur + 2) as int));
                    if let Some((v, r)) = spec_parse_jstring(s@.skip((cur + 2) as int)) {
                        assert(acc@.push(c) =~= acc@ + seq![c]);
                        lemma_concat_assoc(acc@, seq![c], v);
                    }
                }
                acc.push(c);
                cur = cur + 2;
            } else if c == 117 {
                if len - cur < 6 {
                    return None;
                }
                let d2 = s[cur + 2];
                let d3 = s[cur + 3];
                let h4 = hexv(s[cur + 4]);
                let h5 = hexv(s[cur + 5]);
                if !(d2 == 48 && d3 == 48 && h4 < 16 && h5 < 16) {
                    return None;
                }
                let decoded = h4 * 16 + h5;
                proof {
                    assert(s@.skip(cur as int)[2] == d2);
                    assert(s@.skip(cur as int)[3] == d3);
                    assert(s@.skip(cur as int)[4] == s@[cur + 4]);
                    assert(s@.skip(cur as int)[5] == s@[cur + 5]);
                    assert(s@.skip(cur as int).skip(6) =~= s@.skip((cur + 6) as int));
                    if let Some((v, r)) = spec_parse_jstring(s@.skip((cur + 6) as int)) {
                        assert(acc@.push(decoded) =~= acc@ + seq![decoded]);
                        lemma_concat_assoc(acc@, seq![decoded], v);
                    }
                }
                acc.push(decoded);
                cur = cur + 6;
            } else {
                return None;
            }
        } else if b < 32 {
            return None;
        } else {
            proof {
                assert(s@.skip(cur as int)[0] == b);
                assert(s@.skip(cur as int).skip(1) =~= s@.skip((cur + 1) as int));
                if let Some((v, r)) = spec_parse_jstring(s@.skip((cur + 1) as int)) {
                    assert(acc@.push(b) =~= acc@ + seq![b]);
                    lemma_concat_assoc(acc@, seq![b], v);
                }
            }
            acc.push(b);
            cur = cur + 1;
        }
    }
}

/// The value of a hex digit character, 16 for any other byte.
fn hexv(c: u8) -> (r: u8)
    ensures
        r == hex_val(c),
{
    if 48 <= c && c <= 57 {
        c - 48
    } else if 97 <= c && c <= 102 {
        c - 87
    } else {
        16
    }
}

/// The opening frame `{"pw":"`.
pub open spec fn rec_prefix() -> Seq<u8> {
    seq![123u8, 34u8, 112u8, 119u8, 34u8, 58u8, 34u8]
}

/// The frame between the fields, `,"created_at":"`, entered once the
/// closing quote of the value has been consumed.
pub open spec fn rec_mid() -> Seq<u8> {
    seq![44u8, 34u8, 99u8, 114u8, 101u8, 97u8, 116u8, 101u8, 100u8, 95u8, 97u8, 116u8, 34u8, 58u8, 34u8]
}

/// The closing frame `"}`.
pub open spec fn rec_suffix() -> Seq<u8> {
    seq![34u8, 125u8]
}

/// The serialized record: the frame around the escaped value and the
/// timestamp rendering.
pub open spec fn spec_record_bytes(v: Seq<u8>, ts: Timestamp) -> Seq<u8> {
    rec_prefix() + esc(v) + seq![34u8] + rec_mid() + spec_ts_bytes(ts) + rec_suffix()
}

/// A fixed pattern expected at the head of the input; consumed when present.
pub open spec fn spec_take(s: Seq<u8>, p: Seq<u8>) -> Option<Seq<u8>> {
    if s.len() >= p.len() && s.take(p.len() as int) == p {
        Some(s.skip(p.len() as int))
    } else {
        None
    }
}

/// Taking the pattern a sequence begins with consumes exactly the pattern.
proof fn lemma_take_cons(p: Seq<u8>, rest: Seq<u8>)
    ensures
        spec_take(p + rest, p) == Some(rest),
{
    assert((p + rest).take(p.len() as int) =~= p);
    assert((p + rest).skip(p.len() as int) =~= rest);
}

/// Parses one whole serialized record: the value bytes and the timestamp.
/// Nothing may follow the closing frame.
pub open spec fn spec_parse_record(s: Seq<u8>) -> Option<(Seq<u8>, Timestamp)> {
    match spec_take(s, rec_prefix()) {
        Option::None => None,
        Option::Some(s1) => match spec_parse_jstring(s1) {
            Option::None => None,
            Option::Some((v, s2)) => match spec_take(s2, rec_mid()) {
                Option::None => None,
                Option::Some(s3) => match spec_parse_ts(s3) {
                    Option::None => None,
                    Option::Some((ts, s4)) => if s4 == rec_suffix() {
                        Some((v, ts))
                    } else {
                        None
                    },
                },
            },
        },
    }
}

/// The record round trip: a record written for value `v` at time `ts`
/// parses back to exactly `v` and `ts`, for every byte string and every
/// well-formed timestamp.
pub proof fn lemma_record_round_trip(v: Seq<u8>, ts: Timestamp)
    requires
        ts.wf(),
    ensures
        spec_parse_record(spec_record_bytes(v, ts)) == Some((v, ts)),
{
    let full = spec_record_bytes(v, ts);
    let r5 = rec_suffix();
    let r4 = spec_ts_bytes(ts) + r5;
    let r3 = rec_mid() + r4;
    let r2 = seq![34u8] + r3;
    let r1 = esc(v) + r2;
    let p1 = rec_prefix();
    let p2 = p1 + esc(v);
    let p3 = p2 + seq![34u8];
    let p4 = p3 + rec_mid();
    let p5 = p4 + spec_ts_bytes(ts);
    assert(full == p5 + r5);
    lemma_concat_assoc(p4, spec_ts_bytes(ts), r5);
    lemma_concat_assoc(p3, rec_mid(), r4);
    lemma_concat_assoc(p2, seq![34u8], r3);
    lemma_concat_assoc(p1, esc(v), r2);
    assert(full == p1 + r1);
    lemma_take_cons(rec_prefix(), r1);
    lemma_jstring_round_trip(v, r3);
    lemma_take_cons(rec_mid(), r4);
    assert(r5[0] == 34 && !is_digit(r5[0]) && r5[0] != 58);
    lemma_parse_ts_round_trip(ts, r5);
    assert(spec_parse_record(full) == Some((v, ts)));
}

/// The round trip read at the level of the chosen string: the record of a
/// string's UTF-8 bytes parses back to bytes that decode to exactly that
/// string, alongside the timestamp.
pub proof fn lemma_record_round_trip_str(pw: Seq<char>, ts: Timestamp)
    requires
        ts.wf(),
    ensures
        ({
            let parsed = spec_parse_record(spec_record_bytes(encode_utf8(pw), ts));
            &&& parsed is Some
            &&& decode_utf8(parsed.unwrap().0) == pw
            &&& parsed.unwrap().1 == ts
        }),
{
    lemma_record_round_trip(encode_utf8(pw), ts);
    encode_utf8_decode_utf8(pw);
}

/// Matches `pat` against `s` at position `i`.
fn bytes_at(s: &[u8], i: usize, pat: &Vec<u8>) -> (r: bool)
    requires
        i <= s@.len(),
    ensures
        r == (i + pat@.len() <= s@.len() && s@.subrange(i as int, i + pat@.len()) == pat@),
{
    let plen = pat.len();
    let slen = s.len();
    if slen - i < plen {
        return false;
    }
    let mut k: usize = 0;
    while k < plen
        invariant
            k <= plen,
            slen == s@.len(),
            i + plen <= slen,
            plen == pat@.len(),
            forall|m: int| 0 <= m < k ==> s@[i + m] == #[trigger] pat@[m],
        decreases plen - k,
    {
        if s[i + k] != pat[k] {
            proof {
                assert(s@.subrange(i as int, i + pat@.len())[k as int] == s@[i + k]);
            }
            return false;
        }
        k += 1;
    }
    proof {
        assert(s@.subrange(i as int, i + pat@.len()) =~= pat@);
    }
    true
}

/// The opening frame as bytes.
fn rec_prefix_vec() -> (r: Vec<u8>)
    ensures
        r@ == rec_prefix(),
{
    let v: Vec<u8> = vec![123u8, 34u8, 112u8, 119u8, 34u8, 58u8, 34u8];
    proof {
        assert(v@ =~= rec_prefix());
    }
    v
}

/// The middle frame as bytes.
fn rec_mid_vec() -> (r: Vec<u8>)
    ensures
        r@ == rec_mid(),
{
    let v: Vec<u8> = vec![
        44u8, 34u8, 99u8, 114u8, 101u8, 97u8, 116u8, 101u8, 100u8, 95u8, 97u8, 116u8, 34u8, 58u8,
        34u8,
    ];
    proof {
        assert(v@ =~= rec_mid());
    }
    v
}

/// Serializes one record: the chosen value, escaped, and the timestamp,
/// inside the JSON frame.
pub fn encode_record(pw: &[u8], ts: &Timestamp) -> (r: Vec<u8>)
    requires
        ts.wf(),
    ensures
        r@ == spec_record_bytes(pw@, *ts),
{
    let mut out: Vec<u8> = Vec::new();
    let mut prefix = rec_prefix_vec();
    out.append(&mut prefix);
    proof {
        assert(out@ =~= rec_prefix());
    }
    push_escaped(&mut out, pw);
    push_byte(&mut out, 34);
    let ghost p3 = rec_prefix() + esc(pw@) + seq![34u8];
    let mut mid = rec_mid_vec();
    out.append(&mut mid);
    proof {
        assert(out@ == p3 + rec_mid());
    }
    push_ts(&mut out, ts);
    let ghost p5 = p3 + rec_mid() + spec_ts_bytes(*ts);
    push_byte(&mut out, 34);
    push_byte(&mut out, 125);
    proof {
        assert(out@ =~= p5 + rec_suffix());
    }
    out
}

/// Reads one whole serialized record back; mirrors `spec_parse_record`.
pub fn parse_record(line: &[u8]) -> (r: Option<(Vec<u8>, Timestamp)>)
    ensures
        ({
            match spec_parse_record(line@) {
                Option::None => r is None,
                Option::Some((v, ts)) => (r matches Some((rv, rts)) && rv@ == v && rts == ts),
            }
        }),
{
    let len = line.len();
    let prefix = rec_prefix_vec();
    if !bytes_at(line, 0, &prefix) {
        proof {
            assert(line@.skip(0) =~= line@);
            if line@.len() >= rec_prefix().len() {
                assert(line@.take(rec_prefix().len() as int) =~= line@.subrange(
                    0,
                    rec_prefix().len() as int,
                ));
            }
        }
        return None;
    }
    proof {
        assert(line@.take(rec_prefix().len() as int) =~= line@.subrange(
            0,
            rec_prefix().len() as int,
        ));
        assert(line@.skip(rec_prefix().len() as int) =~= line@.skip(7));
    }
    let (value, j2) = if let Some(x) = parse_jstring(line, 7) {
        x
    } else {
        return None;
    };
    let mid = rec_mid_vec();
    let ghost s2 = line@.skip(j2 as int);
    if !bytes_at(line, j2, &mid) {
        proof {
            if s2.len() >= rec_mid().len() {
                assert(s2.take(rec_mid().len() as int) =~= line@.subrange(
                    j2 as int,
                    j2 + rec_mid().len(),
                ));
            }
        }
        return None;
    }
    proof {
        assert(s2.take(rec_mid().len() as int) =~= line@.subrange(
            j2 as int,
            j2 + rec_mid().len(),
        ));
        assert(s2.skip(rec_mid().len() as int) =~= line@.skip(j2 + 15));
    }
    let (ts, j4) = if let Some(x) = parse_ts(line, j2 + 15) {
        x
    } else {
        return None;
    };
    let ghost s4 = line@.skip(j4 as int);
    if !(len - j4 == 2 && line[j4] == 34 && line[j4 + 1] == 125) {
        proof {
            assert(s4 != rec_suffix()) by {
                if s4 == rec_suffix() {
                    assert(s4.len() == 2);
                    assert(s4[0] == 34 && s4[1] == 125);
                    assert(s4[0] == line@[j4 as int]);
                    assert(s4[1] == line@[j4 + 1]);
                }
            }
        }
        return None;
    }
    proof {
        assert(s4 =~= rec_suffix());
    }
    Some((value, ts))
}

} // verus!
