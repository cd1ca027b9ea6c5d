//! Parsing of the raw text fields the user hands to the store — quantities,
//! unit prices and delete positions — together with whitespace trimming.
//!
//! A quantity or position is an optionally `+`-signed run of decimal digits.
//! A unit price is an optionally `+`-signed decimal number with at most four
//! fractional digits, held as a fixed-point amount scaled by `100000`.
//! Fields that fail to parse are treated as the invalid value zero, which
//! validation then rejects.

use vstd::prelude::*;
use crate::num::dec_val;
use crate::num::digits_value;
use crate::num::lemma_dec_val_bound;
use crate::num::lemma_mul_le_div;
use crate::num::lemma_pow10_pos;
use crate::num::lemma_run_end_props;
use crate::num::pow10;
use crate::num::run_end;
use crate::num::scan_digits;

verus! {

/// Fixed-point scale for monetary amounts: five decimal places.
pub const MONEY_SCALE: u64 = 100000;

/// Index where the digits of a signed field start: a single leading `+`
/// is accepted, as the usual integer grammar has it.
pub open spec fn plus_off(s: Seq<u8>) -> int {
    if s.len() > 0 && s[0] == 0x2b {
        1
    } else {
        0
    }
}

/// The value of a whole-number field, when the whole field is a digit run
/// that fits in `usize`; `None` otherwise.
pub open spec fn nat_input(s: Seq<u8>) -> Option<nat> {
    let i = plus_off(s);
    if i < s.len() && run_end(s, i) == s.len() && dec_val(s.subrange(i, s.len() as int))
        <= usize::MAX as nat {
        Some(dec_val(s.subrange(i, s.len() as int)))
    } else {
        None
    }
}

/// Quantity fields fall back to zero when they fail to parse.
pub open spec fn qty_value(s: Seq<u8>) -> nat {
    match nat_input(s) {
        Some(v) => v,
        None => 0,
    }
}

/// The fixed-point value of a unit-price field, scaled by `MONEY_SCALE`;
/// zero when the field fails to parse or the amount does not fit in `u64`.
pub open spec fn price_value(s: Seq<u8>) -> nat {
    let i = plus_off(s);
    let j = run_end(s, i);
    let w = dec_val(s.subrange(i, j));
    if j == s.len() {
        if i < j && w * 100000 <= u64::MAX as nat {
            w * 100000
        } else {
            0
        }
    } else if s[j] == 0x2e && run_end(s, j + 1) == s.len() && s.len() - (j + 1) <= 4 && (j > i
        || s.len() > j + 1) {
        let f = dec_val(s.subrange(j + 1, s.len() as int));
        let v = w * 100000 + f * pow10((5 - (s.len() - (j + 1))) as nat);
        if v <= u64::MAX as nat {
            v
        } else {
            0
        }
    } else {
        0
    }
}

/// A parsed price is always a whole number of tenths of the scale, so a ten
/// percent tax on it is exact.
pub proof fn lemma_price_value_mod10(s: Seq<u8>)
    ensures
        price_value(s) % 10 == 0,
{
    let i = plus_off(s);
    let j = run_end(s, i);
    let w = dec_val(s.subrange(i, j));
    if j == s.len() {
        if i < j && w * 100000 <= u64::MAX as nat {
            assert(w * 100000 == 10 * (w * 10000)) by (nonlinear_arith);
            assert((10 * (w * 10000)) % 10 == 0) by (nonlinear_arith);
        }
    } else if s[j] == 0x2e && run_end(s, j + 1) == s.len() && s.len() - (j + 1) <= 4 && (j > i
        || s.len() > j + 1) {
        let f = dec_val(s.subrange(j + 1, s.len() as int));
        let k = (5 - (s.len() - (j + 1))) as nat;
        assert(k >= 1);
        assert(pow10(k) == 10 * pow10((k - 1) as nat));
        let v = w * 100000 + f * pow10(k);
        if v <= u64::MAX as nat {
            assert(v == 10 * (w * 10000 + f * pow10((k - 1) as nat))) by (nonlinear_arith)
                requires
                    v == w * 100000 + f * pow10(k),
                    pow10(k) == 10 * pow10((k - 1) as nat),
            ;
            assert((10 * (w * 10000 + f * pow10((k - 1) as nat))) % 10 == 0) by (nonlinear_arith);
        }
    }
}

/// Executable whole-number field parser.
pub fn parse_pos(s: &Vec<u8>) -> (r: Option<usize>)
    ensures
        match r {
            Some(v) => nat_input(s@) == Some(v as nat),
            None => nat_input(s@) is None,
        },
{
    let len = s.len();
    let i: usize = if len > 0 && s[0] == 0x2b {
        1
    } else {
        0
    };
    if i >= len {
        return None;
    }
    let j = scan_digits(s, i);
    if j != len {
        return None;
    }
    proof {
        lemma_run_end_props(s@, i as int);
    }
    match digits_value(s, i, j) {
        Some(v) => {
            if v <= usize::MAX as u128 {
                Some(v as usize)
            } else {
                None
            }
        },
        None => None,
    }
}

/// Executable quantity parser: unparsable input becomes zero.
pub fn parse_qty(s: &Vec<u8>) -> (q: usize)
    ensures
        q as nat == qty_value(s@),
{
    match parse_pos(s) {
        Some(v) => v,
        None => 0,
    }
}

/// Executable unit-price parser: unparsable input becomes zero.
pub fn parse_price(s: &Vec<u8>) -> (p: u64)
    ensures
        p as nat == price_value(s@),
{
    let len = s.len();
    let i: usize = if len > 0 && s[0] == 0x2b {
        1
    } else {
        0
    };
    let j = scan_digits(s, i);
    proof {
        lemma_run_end_props(s@, i as int);
    }
    let ghost w = dec_val(s@.subrange(i as int, j as int));
    if j == len {
        if i == j {
            return 0;
        }
        match digits_value(s, i, j) {
            Some(wv) => {
                let bound: u128 = u64::MAX as u128 / 100000;
                proof {
                    lemma_mul_le_div(wv as nat, 100000, u64::MAX as nat);
                }
                if wv <= bound {
                    (wv * 100000) as u64
                } else {
                    0
                }
            },
            None => {
                proof {
                    assert(w * 100000 >= w * 1) by (nonlinear_arith);
                }
                0
            },
        }
    } else if s[j] == 0x2e {
        let fstart = j + 1;
        let k = scan_digits(s, fstart);
        proof {
            lemma_run_end_props(s@, fstart as int);
        }
        if k != len {
            return 0;
        }
        let flen = len - fstart;
        if flen > 4 {
            return 0;
        }
        if i == j && flen == 0 {
            return 0;
        }
        let ghost fv = dec_val(s@.subrange(fstart as int, len as int));
        let scale: u64 = if flen == 0 {
            100000
        } else if flen == 1 {
            10000
        } else if flen == 2 {
            1000
        } else if flen == 3 {
            100
        } else {
            10
        };
        proof {
            assert(pow10(0) == 1);
            assert(pow10(1) == 10);
            assert(pow10(2) == 100);
            assert(pow10(3) == 1000);
            assert(pow10(4) == 10000);
            assert(pow10(5) == 100000);
            assert(scale as nat == pow10((5 - flen) as nat));
        }
        let f = match digits_value(s, fstart, k) {
            Some(f) => f,
            None => {
                proof {
                    lemma_dec_val_bound(s@.subrange(fstart as int, len as int));
                    lemma_pow10_pos((5 - flen) as nat);
                    assert(fv < pow10(flen as nat));
                    assert(pow10(flen as nat) <= pow10(4)) by {
                        if flen == 0 {
                            assert(pow10(1) == 10 * pow10(0));
                        }
                    };
                    assert(false);
                }
                return 0;
            },
        };
        proof {
            lemma_dec_val_bound(s@.subrange(fstart as int, len as int));
            assert(fv < pow10(flen as nat));
            assert(pow10(flen as nat) <= 10000) by {
                assert(pow10(0) == 1 && pow10(1) == 10 && pow10(2) == 100 && pow10(3) == 1000
                    && pow10(4) == 10000);
            };
            assert(fv * (scale as nat) <= 9999 * 100000) by (nonlinear_arith)
                requires
                    fv <= 9999,
                    scale <= 100000,
            ;
        }
        match digits_value(s, i, j) {
            Some(wv) => {
                let bound: u128 = u64::MAX as u128 / 100000;
                proof {
                    lemma_mul_le_div(wv as nat, 100000, u64::MAX as nat);
                }
                if wv > bound {
                    proof {
                        assert(w * 100000 + fv * (scale as nat) >= w * 100000);
                    }
                    0
                } else {
                    let v = wv * 100000 + f * (scale as u128);
                    if v <= u64::MAX as u128 {
                        v as u64
                    } else {
                        0
                    }
                }
            },
            None => {
                proof {
                    assert(w * 100000 >= w * 1) by (nonlinear_arith);
                    assert(w * 100000 + fv * (scale as nat) >= w * 100000);
                }
                0
            },
        }
    } else {
        0
    }
}

/// The byte counts as whitespace for trimming.
pub open spec fn is_ws(b: u8) -> bool {
    b == 0x20 || b == 0x09 || b == 0x0a || b == 0x0d || b == 0x0b || b == 0x0c
}

/// First position at or after `i` that does not hold whitespace.
pub open spec fn ws_end(s: Seq<u8>, i: int) -> int
    recommends
        0 <= i <= s.len(),
    decreases s.len() - i,
{
    if i < s.len() && is_ws(s[i]) {
        ws_end(s, i + 1)
    } else {
        i
    }
}

/// Position where the trailing whitespace run ending at `j` starts.
pub open spec fn ws_back(s: Seq<u8>, j: int) -> int
    recommends
        0 <= j <= s.len(),
    decreases j,
{
    if j > 0 && is_ws(s[j - 1]) {
        ws_back(s, j - 1)
    } else {
        j
    }
}

/// The field with leading and trailing whitespace removed.
pub open spec fn trim_spec(s: Seq<u8>) -> Seq<u8> {
    let a = ws_end(s, 0);
    let b = ws_back(s, s.len() as int);
    if a <= b {
        s.subrange(a, b)
    } else {
        Seq::empty()
    }
}

/// Executable trimming.
pub fn trim_bytes(s: &Vec<u8>) -> (r: Vec<u8>)
    ensures
        r@ == trim_spec(s@),
{
    let len = s.len();
    let mut a: usize = 0;
    while a < len && (s[a] == 0x20 || s[a] == 0x09 || s[a] == 0x0a || s[a] == 0x0d || s[a] == 0x0b
        || s[a] == 0x0c)
        invariant
            0 <= a <= len,
            len == s@.len(),
            ws_end(s@, 0) == ws_end(s@, a as int),
        decreases len - a,
    {
        a = a + 1;
    }
    let mut b: usize = len;
    while b > 0 && (s[b - 1] == 0x20 || s[b - 1] == 0x09 || s[b - 1] == 0x0a || s[b - 1] == 0x0d
        || s[b - 1] == 0x0b || s[b - 1] == 0x0c)
        invariant
            0 <= b <= len,
            len == s@.len(),
            ws_back(s@, len as int) == ws_back(s@, b as int),
        decreases b,
    {
        b = b - 1;
    }
    let mut out: Vec<u8> = Vec::new();
    if a < b {
        let mut k = a;
        while k < b
            invariant
                a <= k <= b <= len,
                len == s@.len(),
                out@ == s@.subrange(a as int, k as int),
            decreases b - k,
        {
            out.push(s[k]);
            proof {
                assert(s@.subrange(a as int, k + 1) =~= s@.subrange(a as int, k as int).push(
                    s@[k as int]));
            }
            k = k + 1;
        }
    }
    proof {
        if a < b {
        } else {
            assert(out@ =~= Seq::<u8>::empty());
            if a <= b {
                assert(s@.subrange(a as int, b as int) =~= Seq::<u8>::empty());
            }
        }
    }
    out
}

} // verus!
