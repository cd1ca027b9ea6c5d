//! Decimal digit strings: their mathematical value, the canonical digits of
//! a number, and executable scanning, evaluation and formatting routines.

use vstd::prelude::*;
use vstd::arithmetic::div_mod::lemma_fundamental_div_mod;
use vstd::arithmetic::div_mod::lemma_mod_bound;
use vstd::arithmetic::div_mod::lemma_div_pos_is_pos;

verus! {

/// The byte is an ASCII decimal digit.
pub open spec fn is_digit(b: u8) -> bool {
    0x30 <= b <= 0x39
}

/// Numeric value of an ASCII digit byte.
pub open spec fn digit_val(b: u8) -> nat
    recommends
        is_digit(b),
{
    (b - 0x30) as nat
}

/// ASCII digit byte for a value below ten.
pub open spec fn digit_byte(d: nat) -> u8
    recommends
        d < 10,
{
    (0x30 + d) as u8
}

/// Value of a digit string, most significant digit first.
pub open spec fn dec_val(s: Seq<u8>) -> nat
    decreases s.len(),
{
    if s.len() == 0 {
        0
    } else {
        dec_val(s.drop_last()) * 10 + digit_val(s.last())
    }
}

/// The canonical (no leading zero, except for zero itself) digit string of a
/// number, most significant digit first.
pub open spec fn digits_of(n: nat) -> Seq<u8>
    decreases n,
{
    if n < 10 {
        seq![digit_byte(n)]
    } else {
        digits_of(n / 10).push(digit_byte(n % 10))
    }
}

/// Ten to the power `k`.
pub open spec fn pow10(k: nat) -> nat
    decreases k,
{
    if k == 0 {
        1
    } else {
        10 * pow10((k - 1) as nat)
    }
}

/// First position at or after `i` that does not hold a digit.
pub open spec fn run_end(s: Seq<u8>, i: int) -> int
    recommends
        0 <= i <= s.len(),
    decreases s.len() - i,
{
    if i < s.len() && is_digit(s[i]) {
        run_end(s, i + 1)
    } else {
        i
    }
}

/// Everything between `i` and `run_end(s, i)` is a digit, and the run stops
/// at the end of the string or at a non-digit.
pub proof fn lemma_run_end_props(s: Seq<u8>, i: int)
    requires
        0 <= i <= s.len(),
    ensures
        i <= run_end(s, i) <= s.len(),
        forall|k: int| i <= k < run_end(s, i) ==> is_digit(s[k]),
        run_end(s, i) == s.len() || !is_digit(s[run_end(s, i)]),
    decreases s.len() - i,
{
    if i < s.len() && is_digit(s[i]) {
        lemma_run_end_props(s, i + 1);
    }
}

/// A maximal digit run determines where the run ends.
pub proof fn lemma_run_end_unique(s: Seq<u8>, i: int, j: int)
    requires
        0 <= i <= j <= s.len(),
        forall|k: int| i <= k < j ==> is_digit(s[k]),
        j == s.len() || !is_digit(s[j]),
    ensures
        run_end(s, i) == j,
    decreases j - i,
{
    if i < j {
        lemma_run_end_unique(s, i + 1, j);
    }
}

/// Splitting a digit string splits its value positionally.
pub proof fn lemma_dec_val_append(a: Seq<u8>, b: Seq<u8>)
    ensures
        dec_val(a + b) == dec_val(a) * pow10(b.len()) + dec_val(b),
    decreases b.len(),
{
    if b.len() == 0 {
        assert(a + b =~= a);
        assert(dec_val(a) * 1 == dec_val(a));
    } else {
        lemma_dec_val_append(a, b.drop_last());
        assert((a + b).drop_last() =~= a + b.drop_last());
        let p = pow10((b.len() - 1) as nat);
        assert(pow10(b.len()) == 10 * p);
        assert(dec_val(a + b) == (dec_val(a) * p + dec_val(b.drop_last())) * 10 + digit_val(b.last()));
        assert((dec_val(a) * p + dec_val(b.drop_last())) * 10 == dec_val(a) * (10 * p)
            + dec_val(b.drop_last()) * 10) by (nonlinear_arith);
    }
}

/// A digit string's value only grows when more digits follow it.
pub proof fn lemma_dec_val_prefix_le(a: Seq<u8>, b: Seq<u8>)
    ensures
        dec_val(a) <= dec_val(a + b),
{
    lemma_dec_val_append(a, b);
    lemma_pow10_pos(b.len());
    assert(dec_val(a) * pow10(b.len()) >= dec_val(a) * 1) by (nonlinear_arith)
        requires
            pow10(b.len()) >= 1,
    ;
}

pub proof fn lemma_pow10_pos(k: nat)
    ensures
        pow10(k) >= 1,
    decreases k,
{
    if k > 0 {
        lemma_pow10_pos((k - 1) as nat);
    }
}

/// The canonical digits of a number are digits, are never empty, and
/// evaluate back to the number.
pub proof fn lemma_digits_of(n: nat)
    ensures
        digits_of(n).len() >= 1,
        forall|k: int| 0 <= k < digits_of(n).len() ==> is_digit(#[trigger] digits_of(n)[k]),
        dec_val(digits_of(n)) == n,
    decreases n,
{
    if n < 10 {
        let s = digits_of(n);
        assert(s.drop_last() =~= Seq::<u8>::empty());
        assert(dec_val(s) == dec_val(s.drop_last()) * 10 + digit_val(s.last()));
    } else {
        lemma_digits_of(n / 10);
        lemma_fundamental_div_mod(n as int, 10);
        let s = digits_of(n);
        assert(s.drop_last() =~= digits_of(n / 10));
        assert(dec_val(s) == dec_val(digits_of(n / 10)) * 10 + digit_val(digit_byte(n % 10)));
    }
}

/// A digit string's value stays below ten to the power of its length.
pub proof fn lemma_dec_val_bound(s: Seq<u8>)
    requires
        forall|k: int| 0 <= k < s.len() ==> is_digit(s[k]),
    ensures
        dec_val(s) < pow10(s.len()),
    decreases s.len(),
{
    if s.len() == 0 {
    } else {
        assert(forall|k: int| 0 <= k < s.drop_last().len() ==> is_digit(s.drop_last()[k]));
        lemma_dec_val_bound(s.drop_last());
        assert(is_digit(s.last()));
        assert(dec_val(s.drop_last()) * 10 <= (pow10((s.len() - 1) as nat) - 1) * 10) by (nonlinear_arith)
            requires
                dec_val(s.drop_last()) <= pow10((s.len() - 1) as nat) - 1,
        ;
        assert((pow10((s.len() - 1) as nat) - 1) * 10 == pow10((s.len() - 1) as nat) * 10 - 10)
            by (nonlinear_arith);
        assert(pow10(s.len()) == 10 * pow10((s.len() - 1) as nat));
    }
}

/// Scaling by a positive `d` stays within `m` exactly when the factor stays
/// within `m / d`.
pub proof fn lemma_mul_le_div(w: nat, d: nat, m: nat)
    requires
        d > 0,
    ensures
        (w * d <= m) <==> (w <= m / d),
{
    lemma_fundamental_div_mod(m as int, d as int);
    lemma_mod_bound(m as int, d as int);
    lemma_div_pos_is_pos(m as int, d as int);
    let q = (m as int) / (d as int);
    let r = (m as int) % (d as int);
    if w <= q {
        assert(w * d <= q * d) by (nonlinear_arith)
            requires
                w <= q,
                d > 0,
                0 <= w,
        ;
        assert(d * q == q * d) by (nonlinear_arith);
    }
    if w * d <= m && w > q {
        assert(w * d >= (q + 1) * d) by (nonlinear_arith)
            requires
                w >= q + 1,
                d > 0,
                q >= 0,
        ;
        assert((q + 1) * d == q * d + d) by (nonlinear_arith);
        assert(d * q == q * d) by (nonlinear_arith);
        assert(false);
    }
}

/// Executable scan for the end of the digit run starting at `i`.
pub fn scan_digits(data: &Vec<u8>, i: usize) -> (j: usize)
    requires
        i <= data@.len(),
    ensures
        j == run_end(data@, i as int),
        i <= j <= data@.len(),
{
    let ghost s = data@;
    let mut j = i;
    while j < data.len() && 0x30 <= data[j] && data[j] <= 0x39
        invariant
            i <= j <= s.len(),
            data@ == s,
            run_end(s, i as int) == run_end(s, j as int),
        decreases s.len() - j,
    {
        j = j + 1;
    }
    proof {
        lemma_run_end_props(s, j as int);
    }
    j
}

/// Executable evaluation of the digit string `data[i..j]`; `None` exactly
/// when the value does not fit in `u128`.
pub fn digits_value(data: &Vec<u8>, i: usize, j: usize) -> (r: Option<u128>)
    requires
        i <= j <= data@.len(),
        forall|k: int| i <= k < j ==> is_digit(data@[k]),
    ensures
        match r {
            Some(v) => v == dec_val(data@.subrange(i as int, j as int)),
            None => dec_val(data@.subrange(i as int, j as int)) > u128::MAX,
        },
{
    let ghost s = data@;
    let mut acc: u128 = 0;
    let mut k = i;
    while k < j
        invariant
            i <= k <= j <= s.len(),
            data@ == s,
            forall|m: int| i <= m < j ==> is_digit(s[m]),
            acc == dec_val(s.subrange(i as int, k as int)),
        decreases j - k,
    {
        let d = (data[k] - 0x30) as u128;
        proof {
            assert(s.subrange(i as int, k + 1).drop_last() =~= s.subrange(i as int, k as int));
            assert(s.subrange(i as int, k + 1).last() == s[k as int]);
        }
        if acc > (u128::MAX - d) / 10 {
            proof {
                let pre = s.subrange(i as int, k + 1);
                let post = s.subrange(k + 1, j as int);
                assert(pre + post =~= s.subrange(i as int, j as int));
                lemma_dec_val_prefix_le(pre, post);
            }
            return None;
        }
        acc = acc * 10 + d;
        k = k + 1;
    }
    proof {
        assert(s.subrange(i as int, j as int) =~= s.subrange(i as int, k as int));
    }
    Some(acc)
}

/// Executable formatting of a number as its canonical digit string.
pub fn fmt_u128(v: u128) -> (r: Vec<u8>)
    ensures
        r@ == digits_of(v as nat),
{
    let mut out: Vec<u8> = Vec::new();
    let mut n: u128 = v;
    loop
        invariant_except_break
            out@.len() == 0 ==> n == v,
            out@.len() > 0 ==> n > 0 && digits_of(v as nat) == digits_of(n as nat) + out@,
        ensures
            out@.len() > 0,
            digits_of(v as nat) == out@,
        decreases n,
    {
        let ghost out0 = out@;
        let ghost n0 = n;
        let d = (n % 10) as u8 + 0x30;
        out.insert(0, d);
        proof {
            assert(out@ =~= seq![d] + out0);
            lemma_fundamental_div_mod(n0 as int, 10);
            if n0 < 10 {
                assert(digits_of(n0 as nat) =~= seq![digit_byte(n0 as nat)]);
                assert(digit_byte(n0 as nat) == d);
            } else {
                assert(digits_of(n0 as nat) == digits_of((n0 as nat) / 10).push(
                    digit_byte((n0 as nat) % 10)));
                assert(digits_of((n0 as nat) / 10).push(d) =~= digits_of((n0 as nat) / 10) + seq![d]);
                if out0.len() > 0 {
                    assert((digits_of((n0 as nat) / 10) + seq![d]) + out0 =~= digits_of(
                        (n0 as nat) / 10) + (seq![d] + out0));
                }
            }
        }
        n = n / 10;
        if n == 0 {
            break;
        }
    }
    out
}

} // verus!
