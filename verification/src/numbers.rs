//! Decimal digit runs: zero-padded formatting of numbers and the greedy scan
//! that reads them back, with the round-trip facts the record codec rests on.

use vstd::prelude::*;
use vstd::arithmetic::div_mod::{lemma_div_is_strictly_smaller, lemma_fundamental_div_mod};

verus! {

/// Ten to the `k`.
pub open spec fn pow10(k: nat) -> nat
    decreases k,
{
    if k == 0 {
        1
    } else {
        10 * pow10((k - 1) as nat)
    }
}

/// Is `b` the code of an ASCII decimal digit?
pub open spec fn is_digit(b: u8) -> bool {
    48 <= b <= 57
}

/// The decimal digit characters of `n`, most significant first, without
/// leading zeros (a single `0` for zero itself).
pub open spec fn dec_digits(n: nat) -> Seq<u8>
    decreases n,
{
    if n < 10 {
        seq![(48 + n) as u8]
    } else {
        dec_digits(n / 10).push((48 + n % 10) as u8)
    }
}

/// `dec_digits(n)`, left-padded with `0` characters to at least `w` places.
pub open spec fn dec_pad(n: nat, w: nat) -> Seq<u8> {
    Seq::new(
        if dec_digits(n).len() >= w {
            0
        } else {
            (w - dec_digits(n).len()) as nat
        },
        |i: int| 48u8,
    ) + dec_digits(n)
}

/// Every element is a digit character.
pub open spec fn all_digits(s: Seq<u8>) -> bool {
    forall|i: int| 0 <= i < s.len() ==> is_digit(#[trigger] s[i])
}

/// The numeric value of a digit sequence.
pub open spec fn digits_value(s: Seq<u8>) -> nat
    decreases s.len(),
{
    if s.len() == 0 {
        0
    } else {
        (digits_value(s.drop_last()) * 10 + (s.last() - 48)) as nat
    }
}

/// Concrete powers of ten the codec proofs mention.
pub proof fn lemma_pow10_vals()
    ensures
        pow10(2) == 100,
        pow10(4) == 10000,
        pow10(9) == 1000000000,
        pow10(10) == 10000000000,
        pow10(17) == 100000000000000000,
        pow10(18) == 1000000000000000000,
{
    assert(pow10(0) == 1);
    assert(pow10(1) == 10);
    assert(pow10(2) == 100);
    assert(pow10(3) == 1000);
    assert(pow10(4) == 10000);
    assert(pow10(5) == 100000);
    assert(pow10(6) == 1000000);
    assert(pow10(7) == 10000000);
    assert(pow10(8) == 100000000);
    assert(pow10(9) == 1000000000);
    assert(pow10(10) == 10000000000);
    assert(pow10(11) == 100000000000);
    assert(pow10(12) == 1000000000000);
    assert(pow10(13) == 10000000000000);
    assert(pow10(14) == 100000000000000);
    assert(pow10(15) == 1000000000000000);
    assert(pow10(16) == 10000000000000000);
    assert(pow10(17) == 100000000000000000);
    assert(pow10(18) == 1000000000000000000);
}

/// Powers of ten are positive.
pub proof fn lemma_pow10_pos(k: nat)
    ensures
        pow10(k) >= 1,
    decreases k,
{
    if k > 0 {
        lemma_pow10_pos((k - 1) as nat);
    }
}

/// Powers of ten grow with the exponent.
pub proof fn lemma_pow10_mono(a: nat, b: nat)
    requires
        a <= b,
    ensures
        pow10(a) <= pow10(b),
    decreases b,
{
    if a < b {
        lemma_pow10_mono(a, (b - 1) as nat);
        lemma_pow10_pos((b - 1) as nat);
    }
}

/// The digit run of `n` is non-empty, made of digits, and reads back as `n`.
pub proof fn lemma_dec_digits(n: nat)
    ensures
        all_digits(dec_digits(n)),
        dec_digits(n).len() >= 1,
        digits_value(dec_digits(n)) == n,
    decreases n,
{
    if n < 10 {
        let s = dec_digits(n);
        assert(s.drop_last() =~= Seq::<u8>::empty());
        assert(digits_value(Seq::<u8>::empty()) == 0);
        assert(s.last() == 48 + n);
        assert(digits_value(s) == digits_value(s.drop_last()) * 10 + (s.last() - 48));
    } else {
        lemma_dec_digits(n / 10);
        lemma_fundamental_div_mod(n as int, 10);
        let s = dec_digits(n);
        assert(s.drop_last() =~= dec_digits(n / 10));
        assert(s.last() == 48 + n % 10);
        assert(digits_value(s) == digits_value(s.drop_last()) * 10 + (s.last() - 48));
        assert forall|i: int| 0 <= i < s.len() implies is_digit(#[trigger] s[i]) by {
            if i < s.len() - 1 {
                assert(s[i] == dec_digits(n / 10)[i]);
            }
        }
    }
}

/// A run of zero characters reads back as zero.
proof fn lemma_zeros_value(k: nat)
    ensures
        digits_value(Seq::new(k, |i: int| 48u8)) == 0,
    decreases k,
{
    if k > 0 {
        lemma_zeros_value((k - 1) as nat);
        let z = Seq::new(k, |i: int| 48u8);
        assert(z.drop_last() =~= Seq::new((k - 1) as nat, |i: int| 48u8));
        assert(z.last() == 48);
    }
}

/// Leading zero characters do not change the value a run reads back as.
proof fn lemma_digits_value_zeros(k: nat, s: Seq<u8>)
    ensures
        digits_value(Seq::new(k, |i: int| 48u8) + s) == digits_value(s),
    decreases s.len(),
{
    let z = Seq::new(k, |i: int| 48u8);
    if s.len() == 0 {
        assert(z + s =~= z);
        lemma_zeros_value(k);
    } else {
        lemma_digits_value_zeros(k, s.drop_last());
        assert((z + s).drop_last() =~= z + s.drop_last());
        assert((z + s).last() == s.last());
    }
}

/// The padded run of `n` is all digits, at least `w` wide, and reads back
/// as `n`.
pub proof fn lemma_dec_pad(n: nat, w: nat)
    ensures
        all_digits(dec_pad(n, w)),
        dec_pad(n, w).len() >= w,
        dec_pad(n, w).len() >= 1,
        dec_pad(n, w).len() == (if dec_digits(n).len() >= w {
            dec_digits(n).len()
        } else {
            w
        }),
        digits_value(dec_pad(n, w)) == n,
{
    lemma_dec_digits(n);
    let pad: nat = if dec_digits(n).len() >= w {
        0
    } else {
        (w - dec_digits(n).len()) as nat
    };
    lemma_digits_value_zeros(pad, dec_digits(n));
    let s = dec_pad(n, w);
    assert forall|i: int| 0 <= i < s.len() implies is_digit(#[trigger] s[i]) by {
        if i >= pad {
            assert(s[i] == dec_digits(n)[i - pad]);
        }
    }
}

/// A digit run of length `l` reads back as a value below `pow10(l)`.
pub proof fn lemma_digits_value_bound(s: Seq<u8>)
    requires
        all_digits(s),
    ensures
        digits_value(s) < pow10(s.len()),
    decreases s.len(),
{
    if s.len() > 0 {
        assert(all_digits(s.drop_last())) by {
            assert(forall|i: int|
                0 <= i < s.len() - 1 ==> s.drop_last()[i] == #[trigger] s[i]);
        }
        lemma_digits_value_bound(s.drop_last());
        assert(is_digit(s.last()));
    }
}

/// Numbers below `pow10(k)` need at most `k` digits.
pub proof fn lemma_dec_digits_len(n: nat, k: nat)
    requires
        n < pow10(k),
        k >= 1,
    ensures
        dec_digits(n).len() <= k,
    decreases n,
{
    if n >= 10 {
        assert(pow10(1) == 10 * pow10(0));
        if k == 1 {
            assert(false);
        }
        lemma_fundamental_div_mod(n as int, 10);
        assert(pow10(k) == 10 * pow10((k - 1) as nat));
        lemma_dec_digits_len(n / 10, (k - 1) as nat);
    }
}

/// Length of the leading run of digit characters.
pub open spec fn digit_run_len(s: Seq<u8>) -> nat
    decreases s.len(),
{
    if s.len() == 0 || !is_digit(s[0]) {
        0
    } else {
        1 + digit_run_len(s.skip(1))
    }
}

/// A leading run of digits contributes its full length to the run of the
/// concatenation.
pub proof fn lemma_digit_run_concat(p: Seq<u8>, rest: Seq<u8>)
    requires
        all_digits(p),
    ensures
        digit_run_len(p + rest) == p.len() + digit_run_len(rest),
    decreases p.len(),
{
    if p.len() == 0 {
        assert(p + rest =~= rest);
    } else {
        assert(is_digit(p[0]));
        assert((p + rest)[0] == p[0]);
        assert((p + rest).skip(1) =~= p.skip(1) + rest);
        assert(all_digits(p.skip(1))) by {
            assert(forall|i: int| 0 <= i < p.len() - 1 ==> p.skip(1)[i] == #[trigger] p[i + 1]);
        }
        lemma_digit_run_concat(p.skip(1), rest);
    }
}

/// The greedy scan of a leading digit run: its value and the rest of the
/// input. An empty run, or one longer than 18 digits, is rejected, so an
/// accepted value always fits `u64`.
pub open spec fn spec_scan_digits(s: Seq<u8>) -> Option<(nat, Seq<u8>)> {
    let l = digit_run_len(s);
    if l == 0 || l > 18 {
        None
    } else {
        Some((digits_value(s.take(l as int)), s.skip(l as int)))
    }
}

/// The scan consumes exactly a padded run it is placed in front of, and
/// reads back the number, provided what follows does not begin with another
/// digit.
pub proof fn lemma_scan_pad(n: nat, w: nat, rest: Seq<u8>)
    requires
        n < pow10(10),
        w <= 9,
        rest.len() > 0 ==> !is_digit(rest[0]),
    ensures
        spec_scan_digits(dec_pad(n, w) + rest) == Some((n, rest)),
{
    let p = dec_pad(n, w);
    lemma_dec_pad(n, w);
    lemma_dec_digits_len(n, 10);
    lemma_digit_run_concat(p, rest);
    assert(digit_run_len(rest) == 0);
    let l = digit_run_len(p + rest);
    assert(l == p.len());
    assert(1 <= l <= 10);
    assert((p + rest).take(l as int) =~= p);
    assert((p + rest).skip(l as int) =~= rest);
}

/// Concatenation of byte sequences is associative.
pub proof fn lemma_concat_assoc(a: Seq<u8>, b: Seq<u8>, c: Seq<u8>)
    ensures
        (a + b) + c == a + (b + c),
{
    assert((a + b) + c =~= a + (b + c));
}

/// One byte expected at the head of the input; consumed when present.
pub open spec fn spec_expect(s: Seq<u8>, b: u8) -> Option<Seq<u8>> {
    if s.len() > 0 && s[0] == b {
        Some(s.skip(1))
    } else {
        None
    }
}

/// Expecting the byte a sequence begins with consumes exactly that byte.
pub proof fn lemma_expect_cons(b: u8, rest: Seq<u8>)
    ensures
        spec_expect(seq![b] + rest, b) == Some(rest),
{
    assert((seq![b] + rest)[0] == b);
    assert((seq![b] + rest).skip(1) =~= rest);
}

/// Appends one byte.
pub fn push_byte(out: &mut Vec<u8>, b: u8)
    ensures
        final(out)@ == old(out)@ + seq![b],
{
    out.push(b);
    proof {
        assert(out@ =~= old(out)@ + seq![b]);
    }
}

/// Appends the decimal digits of `n`, zero-padded to at least `w` places.
pub fn push_dec_pad(out: &mut Vec<u8>, n: u64, w: usize)
    ensures
        final(out)@ == old(out)@ + dec_pad(n as nat, w as nat),
    decreases n,
{
    if n < 10 {
        let mut i: usize = 1;
        while i < w
            invariant
                1 <= i,
                i <= w || i == 1,
                out@ == old(out)@ + Seq::new((i - 1) as nat, |j: int| 48u8),
            decreases w - i,
        {
            out.push(48);
            proof {
                assert(out@ =~= old(out)@ + Seq::new(i as nat, |j: int| 48u8));
            }
            i += 1;
        }
        out.push(48 + n as u8);
        proof {
            assert(dec_digits(n as nat) =~= seq![(48 + n) as u8]);
            assert(out@ =~= old(out)@ + dec_pad(n as nat, w as nat));
        }
    } else {
        proof {
            lemma_div_is_strictly_smaller(n as int, 10);
        }
        let w1 = if w == 0 {
            0
        } else {
            w - 1
        };
        push_dec_pad(out, n / 10, w1);
        out.push(48 + (n % 10) as u8);
        proof {
            lemma_dec_digits(n as nat);
            lemma_dec_digits((n / 10) as nat);
            assert(dec_digits(n as nat) == dec_digits((n / 10) as nat).push(
                (48 + n % 10) as u8,
            ));
            assert(out@ =~= old(out)@ + dec_pad(n as nat, w as nat));
        }
    }
}

/// Reads the leading digit run at position `i` of `s`: the value and the
/// first position after the run. Mirrors `spec_scan_digits` on the suffix.
pub fn scan_digits(s: &[u8], i: usize) -> (r: Option<(u64, usize)>)
    requires
        i <= s@.len(),
    ensures
        ({
            match spec_scan_digits(s@.skip(i as int)) {
                Option::None => r is None,
                Option::Some((v, rest)) => (r matches Some((rv, j))
                    && rv as nat == v && i <= j <= s@.len() && s@.skip(j as int) == rest),
            }
        }),
{
    proof {
        lemma_pow10_vals();
    }
    let len = s.len();
    let mut j = i;
    let mut acc: u64 = 0;
    while j < len && 48 <= s[j] && s[j] <= 57 && j - i < 18
        invariant
            i <= j <= len,
            len == s@.len(),
            j - i <= 18,
            all_digits(s@.subrange(i as int, j as int)),
            acc as nat == digits_value(s@.subrange(i as int, j as int)),
            pow10(18) == 1000000000000000000,
        decreases len - j,
    {
        proof {
            lemma_digits_value_bound(s@.subrange(i as int, j as int));
            lemma_pow10_mono((j - i) as nat, 17);
            lemma_pow10_vals();
        }
        let d = s[j] - 48;
        acc = acc * 10 + d as u64;
        j += 1;
        proof {
            let pre = s@.subrange(i as int, j - 1 as int);
            let cur = s@.subrange(i as int, j as int);
            assert(cur.drop_last() =~= pre);
            assert(cur.last() == s@[j - 1]);
            assert(all_digits(cur)) by {
                assert(forall|k: int| 0 <= k < cur.len() - 1 ==> cur[k] == #[trigger] pre[k]);
            }
        }
    }
    proof {
        let suf = s@.skip(i as int);
        let run = s@.subrange(i as int, j as int);
        let rest = s@.skip(j as int);
        assert(suf =~= run + rest);
        lemma_digit_run_concat(run, rest);
        assert(suf.take((j - i) as int) =~= run);
        assert(suf.skip((j - i) as int) =~= rest);
    }
    if j == i {
        return None;
    }
    if j - i == 18 && j < len && 48 <= s[j] && s[j] <= 57 {
        return None;
    }
    Some((acc, j))
}

} // verus!
