//! The candidate source: the generator's captured output, decoded as UTF-8
//! and split into non-empty lines in emission order.

use vstd::prelude::*;
use vstd::string::StrSliceExecFns;
use vstd::utf8::{decode_utf8, valid_utf8};
use crate::errors::GeneratorError;

verus! {

/// Splits on newline characters, dropping empty pieces; `cur` carries the
/// piece read so far.
pub open spec fn split_acc(s: Seq<char>, cur: Seq<char>) -> Seq<Seq<char>>
    decreases s.len(),
{
    if s.len() == 0 {
        if cur.len() > 0 {
            seq![cur]
        } else {
            Seq::empty()
        }
    } else if s[0] == '\n' {
        (if cur.len() > 0 {
            seq![cur]
        } else {
            Seq::empty()
        }) + split_acc(s.skip(1), Seq::empty())
    } else {
        split_acc(s.skip(1), cur.push(s[0]))
    }
}

/// The candidate sequence of a generator output: its non-empty lines.
pub open spec fn candidates_of(s: Seq<char>) -> Seq<Seq<char>> {
    split_acc(s, Seq::empty())
}

/// Every piece the split yields is non-empty.
proof fn lemma_split_acc_nonempty(s: Seq<char>, cur: Seq<char>)
    ensures
        forall|i: int|
            0 <= i < split_acc(s, cur).len() ==> (#[trigger] split_acc(s, cur)[i]).len() > 0,
    decreases s.len(),
{
    if s.len() == 0 {
        if cur.len() > 0 {
            assert(split_acc(s, cur) == seq![cur]);
            assert(split_acc(s, cur)[0].len() > 0);
        } else {
            assert(split_acc(s, cur).len() == 0);
        }
    } else if s[0] == '\n' {
        lemma_split_acc_nonempty(s.skip(1), Seq::empty());
        let head: Seq<Seq<char>> = if cur.len() > 0 {
            seq![cur]
        } else {
            Seq::empty()
        };
        let rec = split_acc(s.skip(1), Seq::empty());
        assert forall|i: int|
            0 <= i < split_acc(s, cur).len() implies (#[trigger] split_acc(s, cur)[i]).len()
            > 0 by {
            if i < head.len() {
                assert(split_acc(s, cur)[i] == head[i]);
            } else {
                assert(split_acc(s, cur)[i] == rec[i - head.len()]);
            }
        }
    } else {
        lemma_split_acc_nonempty(s.skip(1), cur.push(s[0]));
        assert forall|i: int|
            0 <= i < split_acc(s, cur).len() implies (#[trigger] split_acc(s, cur)[i]).len()
            > 0 by {
            assert(split_acc(s, cur)[i] == split_acc(s.skip(1), cur.push(s[0]))[i]);
        }
    }
}

/// Relies on `String::from_utf8`: it succeeds exactly on valid UTF-8 and
/// returns the string whose characters are the decoding of the bytes.
#[verifier::external_body]
fn string_from_utf8(bytes: Vec<u8>) -> (r: Option<String>)
    ensures
        r is Some <==> valid_utf8(bytes@),
        (r matches Some(s) ==> s@ == decode_utf8(bytes@)),
{
    String::from_utf8(bytes).ok()
}

/// Splits decoded generator output into its non-empty lines.
fn split_candidates(s: &str) -> (r: Vec<String>)
    ensures
        r.deep_view() == candidates_of(s@),
        forall|i: int| 0 <= i < r@.len() ==> (#[trigger] r@[i])@.len() > 0,
{
    let n = s.unicode_len();
    let mut out: Vec<String> = Vec::new();
    let mut i: usize = 0;
    let mut start: usize = 0;
    proof {
        assert(s@.subrange(0, 0) =~= Seq::<char>::empty());
        assert(s@.skip(0) =~= s@);
        assert(out.deep_view() + split_acc(s@, Seq::empty()) =~= candidates_of(s@));
    }
    while i < n
        invariant
            start <= i <= n,
            n == s@.len(),
            candidates_of(s@) == out.deep_view() + split_acc(
                s@.skip(i as int),
                s@.subrange(start as int, i as int),
            ),
        decreases n - i,
    {
        let ghost cur = s@.subrange(start as int, i as int);
        let ghost out_d = out.deep_view();
        let c = s.get_char(i);
        proof {
            assert(s@.skip(i as int)[0] == c);
            assert(s@.skip(i as int).skip(1) =~= s@.skip((i + 1) as int));
        }
        if c == '\n' {
            let ghost rec = split_acc(s@.skip((i + 1) as int), Seq::<char>::empty());
            if i > start {
                let piece = s.substring_char(start, i).to_owned();
                out.push(piece);
                proof {
                    assert(out.deep_view() =~= out_d.push(cur));
                    assert(out_d.push(cur) =~= out_d + seq![cur]);
                    assert((out_d + seq![cur]) + rec =~= out_d + (seq![cur] + rec));
                }
            } else {
                proof {
                    assert(cur.len() == 0);
                    assert(Seq::<Seq<char>>::empty() + rec =~= rec);
                }
            }
            i += 1;
            start = i;
            proof {
                assert(s@.subrange(start as int, i as int) =~= Seq::<char>::empty());
            }
        } else {
            proof {
                assert(cur.push(c) =~= s@.subrange(start as int, (i + 1) as int));
            }
            i += 1;
        }
    }
    let ghost cur = s@.subrange(start as int, i as int);
    let ghost out_d = out.deep_view();
    proof {
        assert(s@.skip(i as int) =~= Seq::<char>::empty());
    }
    if i > start {
        let piece = s.substring_char(start, i).to_owned();
        out.push(piece);
        proof {
            assert(out.deep_view() =~= out_d.push(cur));
            assert(out_d.push(cur) =~= out_d + seq![cur]);
        }
    } else {
        proof {
            assert(out_d + Seq::<Seq<char>>::empty() =~= out_d);
        }
    }
    proof {
        lemma_split_acc_nonempty(s@, Seq::<char>::empty());
        assert forall|k: int| 0 <= k < out@.len() implies (#[trigger] out@[k])@.len() > 0 by {
            assert(out.deep_view()[k] == out@[k]@);
            assert(candidates_of(s@)[k].len() > 0);
        }
    }
    out
}

/// Turns the generator's captured output into the candidate list: decode
/// the bytes as UTF-8 text, split on line boundaries, discard empty lines.
/// Output that is not valid text is rejected as `InvalidEncoding`.
pub fn parse_generator_output(raw: Vec<u8>) -> (r: Result<Vec<String>, GeneratorError>)
    ensures
        r is Ok <==> valid_utf8(raw@),
        !valid_utf8(raw@) ==> r == Err::<Vec<String>, GeneratorError>(
            GeneratorError::InvalidEncoding,
        ),
        (r matches Ok(cs) ==> cs.deep_view() == candidates_of(decode_utf8(raw@)) && (forall|
            i: int,
        | 0 <= i < cs@.len() ==> (#[trigger] cs@[i])@.len() > 0)),
{
    match string_from_utf8(raw) {
        Option::None => Err(GeneratorError::InvalidEncoding),
        Option::Some(text) => Ok(split_candidates(text.as_str())),
    }
}

/// The candidate fetch as the session sees it: the captured output when the
/// generator process ran, nothing when it could not be started — which is
/// `ProcessFailed`.
pub fn candidates_from_output(output: Option<Vec<u8>>) -> (r: Result<Vec<String>, GeneratorError>)
    ensures
        output is None ==> r == Err::<Vec<String>, GeneratorError>(GeneratorError::ProcessFailed),
        (output matches Some(raw) ==> {
            &&& r is Ok <==> valid_utf8(raw@)
            &&& !valid_utf8(raw@) ==> r == Err::<Vec<String>, GeneratorError>(
                GeneratorError::InvalidEncoding,
            )
            &&& (r matches Ok(cs) ==> cs.deep_view() == candidates_of(decode_utf8(raw@)))
        }),
{
    match output {
        Option::None => Err(GeneratorError::ProcessFailed),
        Option::Some(raw) => parse_generator_output(raw),
    }
}

} // verus!
