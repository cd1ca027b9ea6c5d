//! The persisted text format: a single document holding the ordered record
//! collection as a bracketed list of brace-delimited objects with the five
//! named fields, names escaped, monetary amounts written with five decimal
//! places. The decoder follows the same grammar and rejects everything
//! else, and the round trip is proved: decoding an encoded collection
//! yields exactly that collection back.

use vstd::prelude::*;
use vstd::arithmetic::div_mod::lemma_div_denominator;
use vstd::arithmetic::div_mod::lemma_fundamental_div_mod;
use vstd::arithmetic::div_mod::lemma_mod_bound;
use vstd::arithmetic::div_mod::lemma_small_mod;
use crate::num::dec_val;
use crate::num::digit_byte;
use crate::num::digit_val;
use crate::num::digits_of;
use crate::num::digits_value;
use crate::num::fmt_u128;
use crate::num::is_digit;
use crate::num::lemma_dec_val_bound;
use crate::num::lemma_digits_of;
use crate::num::lemma_mul_le_div;
use crate::num::lemma_run_end_props;
use crate::num::lemma_run_end_unique;
use crate::num::pow10;
use crate::num::run_end;
use crate::num::scan_digits;
use crate::product::Product;
use crate::product::ProductV;
use crate::product::prods_view;

verus! {

/// Segment opening a record and naming its first field: `{"product_type":"`.
pub open spec fn seg_a() -> Seq<u8> {
    seq![0x7bu8, 0x22, 0x70, 0x72, 0x6f, 0x64, 0x75, 0x63, 0x74, 0x5f, 0x74, 0x79, 0x70, 0x65,
        0x22, 0x3a, 0x22]
}

/// Segment closing the name and naming the quantity: `","quantity":`.
pub open spec fn seg_b() -> Seq<u8> {
    seq![0x22u8, 0x2c, 0x22, 0x71, 0x75, 0x61, 0x6e, 0x74, 0x69, 0x74, 0x79, 0x22, 0x3a]
}

/// Segment naming the unit price: `,"price_per_unit":`.
pub open spec fn seg_c() -> Seq<u8> {
    seq![0x2cu8, 0x22, 0x70, 0x72, 0x69, 0x63, 0x65, 0x5f, 0x70, 0x65, 0x72, 0x5f, 0x75, 0x6e,
        0x69, 0x74, 0x22, 0x3a]
}

/// Segment naming the sales tax: `,"sales_tax":`.
pub open spec fn seg_d() -> Seq<u8> {
    seq![0x2cu8, 0x22, 0x73, 0x61, 0x6c, 0x65, 0x73, 0x5f, 0x74, 0x61, 0x78, 0x22, 0x3a]
}

/// Segment naming the total price: `,"total_price":`.
pub open spec fn seg_e() -> Seq<u8> {
    seq![0x2cu8, 0x22, 0x74, 0x6f, 0x74, 0x61, 0x6c, 0x5f, 0x70, 0x72, 0x69, 0x63, 0x65, 0x22,
        0x3a]
}

/// How one name byte is written: quote and backslash get a backslash escape,
/// every other byte stands for itself.
pub open spec fn esc_byte(b: u8) -> Seq<u8> {
    if b == 0x22 || b == 0x5c {
        seq![0x5cu8, b]
    } else {
        seq![b]
    }
}

/// The escaped form of a name.
pub open spec fn esc(s: Seq<u8>) -> Seq<u8>
    decreases s.len(),
{
    if s.len() == 0 {
        Seq::empty()
    } else {
        esc_byte(s[0]) + esc(s.drop_first())
    }
}

/// Escaping distributes over concatenation.
pub proof fn lemma_esc_append(a: Seq<u8>, b: Seq<u8>)
    ensures
        esc(a + b) == esc(a) + esc(b),
    decreases a.len(),
{
    if a.len() == 0 {
        assert(a + b =~= b);
        assert(esc(a) + esc(b) =~= esc(b));
    } else {
        lemma_esc_append(a.drop_first(), b);
        assert((a + b).drop_first() =~= a.drop_first() + b);
        assert((a + b)[0] == a[0]);
        assert(esc_byte(a[0]) + (esc(a.drop_first()) + esc(b)) =~= (esc_byte(a[0]) + esc(
            a.drop_first())) + esc(b));
    }
}

/// The five fixed fractional digits of a monetary amount below the scale.
pub open spec fn frac5(f: nat) -> Seq<u8> {
    seq![digit_byte(f / 10000 % 10), digit_byte(f / 1000 % 10), digit_byte(f / 100 % 10),
        digit_byte(f / 10 % 10), digit_byte(f % 10)]
}

/// A monetary amount in the document: whole part, a dot, five fractional
/// digits.
pub open spec fn money_seq(v: nat) -> Seq<u8> {
    digits_of(v / 100000) + seq![0x2eu8] + frac5(v % 100000)
}

/// One encoded record.
pub open spec fn enc_product(pv: ProductV) -> Seq<u8> {
    seg_a() + esc(pv.product_type) + seg_b() + digits_of(pv.quantity) + seg_c() + money_seq(
        pv.price_per_unit) + seg_d() + money_seq(pv.sales_tax) + seg_e() + money_seq(
        pv.total_price) + seq![0x7du8]
}

/// The encoded records joined by commas.
pub open spec fn enc_items(c: Seq<ProductV>) -> Seq<u8>
    decreases c.len(),
{
    if c.len() == 0 {
        Seq::empty()
    } else if c.len() == 1 {
        enc_product(c[0])
    } else {
        enc_product(c[0]) + seq![0x2cu8] + enc_items(c.drop_first())
    }
}

/// The whole encoded collection: the joined records between brackets.
pub open spec fn enc_collection(c: Seq<ProductV>) -> Seq<u8> {
    seq![0x5bu8] + enc_items(c) + seq![0x5du8]
}

/// Concatenation of byte strings is associative.
proof fn lemma_bytes_assoc(a: Seq<u8>, b: Seq<u8>, c: Seq<u8>)
    ensures
        (a + b) + c == a + (b + c),
{
    assert((a + b) + c =~= a + (b + c));
}

/// Splitting a joined encoding at a record boundary.
pub proof fn lemma_enc_items_split(c: Seq<ProductV>, k: int)
    requires
        0 < k < c.len(),
    ensures
        enc_items(c) == enc_items(c.take(k)) + seq![0x2cu8] + enc_items(c.skip(k)),
    decreases k,
{
    let c1 = c.drop_first();
    let p0 = enc_product(c[0]);
    let comma = seq![0x2cu8];
    if k == 1 {
        assert(c.take(1) =~= seq![c[0]]);
        assert(c.skip(1) =~= c1);
        assert(enc_items(c.take(1)) == enc_product(c.take(1)[0]));
        assert(c.take(1)[0] == c[0]);
    } else {
        lemma_enc_items_split(c1, k - 1);
        let x = enc_items(c1.take(k - 1));
        let y = enc_items(c1.skip(k - 1));
        assert(c1.take(k - 1) =~= c.take(k).drop_first());
        assert(c1.skip(k - 1) =~= c.skip(k));
        assert(c.take(k)[0] == c[0]);
        assert(c.take(k).len() == k);
        assert(enc_items(c.take(k)) == p0 + comma + x);
        assert(enc_items(c) == p0 + comma + ((x + comma) + y));
        let pc = p0 + comma;
        lemma_bytes_assoc(pc, x + comma, y);
        lemma_bytes_assoc(pc, x, comma);
        assert(enc_items(c) == ((pc + x) + comma) + y);
    }
}

/// A record's model fits in the executable field types.
pub open spec fn fits(pv: ProductV) -> bool {
    &&& pv.quantity <= usize::MAX as nat
    &&& pv.price_per_unit <= u64::MAX as nat
    &&& pv.sales_tax <= u64::MAX as nat
    &&& pv.total_price <= u128::MAX as nat
}

/// Every record of the collection fits in the executable field types.
pub open spec fn all_fit(c: Seq<ProductV>) -> bool {
    forall|m: int| 0 <= m < c.len() ==> fits(#[trigger] c[m])
}

/// Parses an escaped name up to, but not including, its closing quote.
pub open spec fn parse_name_spec(s: Seq<u8>, i: int) -> Option<(Seq<u8>, int)>
    decreases s.len() - i,
{
    if i < 0 || i >= s.len() {
        None
    } else if s[i] == 0x22 {
        Some((Seq::empty(), i))
    } else if s[i] == 0x5c {
        if i + 1 < s.len() && (s[i + 1] == 0x22 || s[i + 1] == 0x5c) {
            match parse_name_spec(s, i + 2) {
                Some(r) => Some((seq![s[i + 1]] + r.0, r.1)),
                None => None,
            }
        } else {
            None
        }
    } else {
        match parse_name_spec(s, i + 1) {
            Some(r) => Some((seq![s[i]] + r.0, r.1)),
            None => None,
        }
    }
}

/// Parses a maximal nonempty digit run as a number.
pub open spec fn parse_num_spec(s: Seq<u8>, i: int) -> Option<(nat, int)> {
    let j = run_end(s, i);
    if i < j {
        Some((dec_val(s.subrange(i, j)), j))
    } else {
        None
    }
}

/// Parses a monetary amount: a whole part, a dot, five fractional digits.
pub open spec fn parse_money_spec(s: Seq<u8>, i: int) -> Option<(nat, int)> {
    let j = run_end(s, i);
    if i < j && j + 6 <= s.len() && s[j] == 0x2e && (forall|k: int|
        j + 1 <= k < j + 6 ==> is_digit(s[k])) {
        Some((dec_val(s.subrange(i, j)) * 100000 + dec_val(s.subrange(j + 1, j + 6)), j + 6))
    } else {
        None
    }
}

/// Consumes a fixed segment when it stands at `i`.
pub open spec fn expect_spec(s: Seq<u8>, i: int, seg: Seq<u8>) -> Option<int> {
    if 0 <= i && i + seg.len() <= s.len() && s.subrange(i, i + seg.len()) == seg {
        Some(i + seg.len())
    } else {
        None
    }
}

/// Parses one record.
pub open spec fn parse_record_spec(s: Seq<u8>, i: int) -> Option<(ProductV, int)> {
    match expect_spec(s, i, seg_a()) {
        None => None,
        Some(i1) => match parse_name_spec(s, i1) {
            None => None,
            Some((name, i2)) => match expect_spec(s, i2, seg_b()) {
                None => None,
                Some(i3) => match parse_num_spec(s, i3) {
                    None => None,
                    Some((qty, i4)) => match expect_spec(s, i4, seg_c()) {
                        None => None,
                        Some(i5) => match parse_money_spec(s, i5) {
                            None => None,
                            Some((price, i6)) => match expect_spec(s, i6, seg_d()) {
                                None => None,
                                Some(i7) => match parse_money_spec(s, i7) {
                                    None => None,
                                    Some((tax, i8)) => match expect_spec(s, i8, seg_e()) {
                                        None => None,
                                        Some(i9) => match parse_money_spec(s, i9) {
                                            None => None,
                                            Some((total, i10)) => match expect_spec(
                                                s,
                                                i10,
                                                seq![0x7du8],
                                            ) {
                                                None => None,
                                                Some(i11) => Some(
                                                    (
                                                        ProductV {
                                                            product_type: name,
                                                            quantity: qty,
                                                            price_per_unit: price,
                                                            sales_tax: tax,
                                                            total_price: total,
                                                        },
                                                        i11,
                                                    ),
                                                ),
                                            },
                                        },
                                    },
                                },
                            },
                        },
                    },
                },
            },
        },
    }
}

/// Parses the comma-joined records followed by the closing bracket.
pub open spec fn parse_items_spec(s: Seq<u8>, i: int) -> Option<(Seq<ProductV>, int)>
    decreases s.len() - i,
{
    match parse_record_spec(s, i) {
        None => None,
        Some((pv, j)) => {
            if i < j && j < s.len() && s[j] == 0x2c {
                match parse_items_spec(s, j + 1) {
                    None => None,
                    Some((rest, k)) => Some((seq![pv] + rest, k)),
                }
            } else if j < s.len() && s[j] == 0x5d {
                Some((seq![pv], j + 1))
            } else {
                None
            }
        },
    }
}

/// Parses a whole document.
pub open spec fn parse_collection_spec(s: Seq<u8>) -> Option<Seq<ProductV>> {
    if s.len() >= 1 && s[0] == 0x5b {
        if s.len() == 2 && s[1] == 0x5d {
            Some(Seq::empty())
        } else {
            match parse_items_spec(s, 1) {
                None => None,
                Some((items, k)) => if k == s.len() {
                    Some(items)
                } else {
                    None
                },
            }
        }
    } else {
        None
    }
}

/// A byte of a matched subrange equals the corresponding byte of the match.
proof fn lemma_byte_at(s: Seq<u8>, i: int, e: Seq<u8>, a: int)
    requires
        0 <= i,
        i + e.len() <= s.len(),
        s.subrange(i, i + e.len()) == e,
        0 <= a < e.len(),
    ensures
        s[i + a] == e[a],
{
    assert(s.subrange(i, i + e.len())[a] == s[i + a]);
}

/// A part of a matched subrange equals the corresponding part of the match.
proof fn lemma_subrange_decomp(s: Seq<u8>, i: int, e: Seq<u8>, a: int, b: int)
    requires
        0 <= i,
        i + e.len() <= s.len(),
        s.subrange(i, i + e.len()) == e,
        0 <= a <= b <= e.len(),
    ensures
        s.subrange(i + a, i + b) == e.subrange(a, b),
{
    assert forall|m: int| 0 <= m < b - a implies s.subrange(i + a, i + b)[m] == e.subrange(a, b)[m] by {
        assert(s.subrange(i, i + e.len())[a + m] == s[i + a + m]);
    }
    assert(s.subrange(i + a, i + b) =~= e.subrange(a, b));
}

/// The five fractional digits are digits and evaluate back to the amount.
pub proof fn lemma_dec_val_frac5(f: nat)
    requires
        f < 100000,
    ensures
        frac5(f).len() == 5,
        forall|k: int| 0 <= k < 5 ==> is_digit(#[trigger] frac5(f)[k]),
        dec_val(frac5(f)) == f,
{
    let s = frac5(f);
    lemma_mod_bound(f as int, 10);
    lemma_mod_bound((f / 10) as int, 10);
    lemma_mod_bound((f / 100) as int, 10);
    lemma_mod_bound((f / 1000) as int, 10);
    lemma_mod_bound((f / 10000) as int, 10);
    let s4 = s.drop_last();
    let s3 = s4.drop_last();
    let s2 = s3.drop_last();
    let s1 = s2.drop_last();
    assert(s4 =~= seq![s[0], s[1], s[2], s[3]]);
    assert(s3 =~= seq![s[0], s[1], s[2]]);
    assert(s2 =~= seq![s[0], s[1]]);
    assert(s1 =~= seq![s[0]]);
    assert(s1.drop_last() =~= Seq::<u8>::empty());
    assert(dec_val(Seq::<u8>::empty()) == 0);
    assert(s1.len() == 1 && s1.last() == s[0]);
    assert(dec_val(s1) == dec_val(s1.drop_last()) * 10 + digit_val(s1.last()));
    assert(dec_val(s1) == digit_val(s[0]));
    assert(dec_val(s2) == dec_val(s1) * 10 + digit_val(s[1]));
    assert(dec_val(s3) == dec_val(s2) * 10 + digit_val(s[2]));
    assert(dec_val(s4) == dec_val(s3) * 10 + digit_val(s[3]));
    assert(dec_val(s) == dec_val(s4) * 10 + digit_val(s[4]));
    lemma_div_denominator(f as int, 10, 10);
    lemma_div_denominator(f as int, 100, 10);
    lemma_div_denominator(f as int, 1000, 10);
    lemma_fundamental_div_mod((f / 10) as int, 10);
    lemma_fundamental_div_mod((f / 100) as int, 10);
    lemma_fundamental_div_mod((f / 1000) as int, 10);
    lemma_fundamental_div_mod(f as int, 10);
    lemma_mul_le_div(10, 10000, f);
    lemma_small_mod((f / 10000) as nat, 10);
    assert(digit_val(s[0]) == f / 10000);
    assert(dec_val(s2) == f / 1000);
    assert(dec_val(s3) == f / 100);
    assert(dec_val(s4) == f / 10);
    assert(dec_val(s) == f);
}

/// Parsing is complete for escaped names: wherever an escaped name stands
/// followed by its closing quote, the name parser recovers it exactly.
pub proof fn lemma_parse_name_complete(s: Seq<u8>, i: int, name: Seq<u8>)
    requires
        0 <= i,
        i + esc(name).len() < s.len(),
        s.subrange(i, i + esc(name).len()) == esc(name),
        s[i + esc(name).len()] == 0x22,
    ensures
        parse_name_spec(s, i) == Some((name, i + esc(name).len())),
    decreases name.len(),
{
    let e = esc(name);
    if name.len() == 0 {
        assert(e =~= Seq::<u8>::empty());
        assert(s[i] == 0x22);
        assert(Seq::<u8>::empty() =~= name);
    } else {
        let h = name[0];
        let t = name.drop_first();
        assert(e == esc_byte(h) + esc(t));
        let et = esc(t);
        if h == 0x22 || h == 0x5c {
            lemma_byte_at(s, i, e, 0);
            lemma_byte_at(s, i, e, 1);
            assert(e[0] == 0x5c);
            assert(e[1] == h);
            lemma_subrange_decomp(s, i, e, 2, e.len() as int);
            assert(e.subrange(2, e.len() as int) =~= et);
            lemma_parse_name_complete(s, i + 2, t);
            assert(seq![s[i + 1]] + t =~= name);
        } else {
            lemma_byte_at(s, i, e, 0);
            assert(e[0] == h);
            lemma_subrange_decomp(s, i, e, 1, e.len() as int);
            assert(e.subrange(1, e.len() as int) =~= et);
            lemma_parse_name_complete(s, i + 1, t);
            assert(seq![s[i]] + t =~= name);
        }
    }
}

/// Parsing is complete for numbers: wherever canonical digits stand followed
/// by a non-digit, the number parser recovers the value exactly.
pub proof fn lemma_parse_num_complete(s: Seq<u8>, i: int, v: nat)
    requires
        0 <= i,
        i + digits_of(v).len() < s.len(),
        s.subrange(i, i + digits_of(v).len()) == digits_of(v),
        !is_digit(s[i + digits_of(v).len()]),
    ensures
        parse_num_spec(s, i) == Some((v, i + digits_of(v).len())),
{
    let d = digits_of(v);
    lemma_digits_of(v);
    assert forall|k: int| i <= k < i + d.len() implies is_digit(s[k]) by {
        lemma_byte_at(s, i, d, k - i);
    }
    lemma_run_end_unique(s, i, i + d.len());
}

/// Parsing is complete for monetary amounts.
pub proof fn lemma_parse_money_complete(s: Seq<u8>, i: int, v: nat)
    requires
        0 <= i,
        i + money_seq(v).len() <= s.len(),
        s.subrange(i, i + money_seq(v).len()) == money_seq(v),
    ensures
        parse_money_spec(s, i) == Some((v, i + money_seq(v).len())),
{
    let e = money_seq(v);
    let w = digits_of(v / 100000);
    lemma_digits_of(v / 100000);
    lemma_mod_bound(v as int, 100000);
    lemma_dec_val_frac5(v % 100000);
    assert(e.len() == w.len() + 6);
    assert(e.subrange(0, w.len() as int) =~= w);
    assert(e[w.len() as int] == 0x2e);
    assert(e.subrange(w.len() as int + 1, e.len() as int) =~= frac5(v % 100000));
    assert forall|k: int| i <= k < i + w.len() implies is_digit(s[k]) by {
        lemma_byte_at(s, i, e, k - i);
    }
    lemma_byte_at(s, i, e, w.len() as int);
    assert(s[i + w.len()] == 0x2e);
    assert(!is_digit(s[i + w.len()]));
    lemma_run_end_unique(s, i, i + w.len());
    let j = i + w.len();
    assert forall|k: int| j + 1 <= k < j + 6 implies is_digit(s[k]) by {
        lemma_byte_at(s, i, e, k - i);
        assert(e[k - i] == frac5(v % 100000)[k - i - (w.len() + 1)]);
    }
    lemma_subrange_decomp(s, i, e, 0, w.len() as int);
    assert(dec_val(s.subrange(i, j)) == v / 100000);
    lemma_subrange_decomp(s, i, e, w.len() as int + 1, e.len() as int);
    assert(s.subrange(j + 1, j + 6) == frac5(v % 100000));
    assert(dec_val(s.subrange(j + 1, j + 6)) == v % 100000);
    lemma_fundamental_div_mod(v as int, 100000);
    assert((v / 100000) * 100000 + v % 100000 == v);
}

/// Parsing is complete for one encoded record.
#[verifier::rlimit(100)]
pub proof fn lemma_parse_record_complete(s: Seq<u8>, i: int, pv: ProductV)
    requires
        0 <= i,
        i + enc_product(pv).len() <= s.len(),
        s.subrange(i, i + enc_product(pv).len()) == enc_product(pv),
    ensures
        parse_record_spec(s, i) == Some((pv, i + enc_product(pv).len())),
{
    let e = enc_product(pv);
    let na = esc(pv.product_type);
    let qd = digits_of(pv.quantity);
    let m1 = money_seq(pv.price_per_unit);
    let m2 = money_seq(pv.sales_tax);
    let m3 = money_seq(pv.total_price);
    lemma_digits_of(pv.quantity);
    let o1: int = 17;
    let o2: int = o1 + na.len();
    let o3: int = o2 + 13;
    let o4: int = o3 + qd.len();
    let o5: int = o4 + 18;
    let o6: int = o5 + m1.len();
    let o7: int = o6 + 13;
    let o8: int = o7 + m2.len();
    let o9: int = o8 + 15;
    let o10: int = o9 + m3.len();
    assert(e.len() == o10 + 1);
    assert(e.subrange(0, o1) =~= seg_a());
    assert(e.subrange(o1, o2) =~= na);
    assert(e.subrange(o2, o3) =~= seg_b());
    assert(e.subrange(o3, o4) =~= qd);
    assert(e.subrange(o4, o5) =~= seg_c());
    assert(e.subrange(o5, o6) =~= m1);
    assert(e.subrange(o6, o7) =~= seg_d());
    assert(e.subrange(o7, o8) =~= m2);
    assert(e.subrange(o8, o9) =~= seg_e());
    assert(e.subrange(o9, o10) =~= m3);
    assert(e[o10] == 0x7d);
    lemma_subrange_decomp(s, i, e, 0, o1);
    assert(expect_spec(s, i, seg_a()) == Some(i + o1));
    lemma_subrange_decomp(s, i, e, o1, o2);
    lemma_byte_at(s, i, e, o2);
    assert(e[o2] == 0x22);
    lemma_parse_name_complete(s, i + o1, pv.product_type);
    lemma_subrange_decomp(s, i, e, o2, o3);
    assert(expect_spec(s, i + o2, seg_b()) == Some(i + o3));
    lemma_subrange_decomp(s, i, e, o3, o4);
    lemma_byte_at(s, i, e, o4);
    assert(e[o4] == 0x2c);
    assert(!is_digit(e[o4]));
    lemma_parse_num_complete(s, i + o3, pv.quantity);
    lemma_subrange_decomp(s, i, e, o4, o5);
    assert(expect_spec(s, i + o4, seg_c()) == Some(i + o5));
    lemma_subrange_decomp(s, i, e, o5, o6);
    lemma_parse_money_complete(s, i + o5, pv.price_per_unit);
    lemma_subrange_decomp(s, i, e, o6, o7);
    assert(expect_spec(s, i + o6, seg_d()) == Some(i + o7));
    lemma_subrange_decomp(s, i, e, o7, o8);
    lemma_parse_money_complete(s, i + o7, pv.sales_tax);
    lemma_subrange_decomp(s, i, e, o8, o9);
    assert(expect_spec(s, i + o8, seg_e()) == Some(i + o9));
    lemma_subrange_decomp(s, i, e, o9, o10);
    lemma_parse_money_complete(s, i + o9, pv.total_price);
    lemma_byte_at(s, i, e, o10);
    assert(s[i + o10] == 0x7d);
    assert(s.subrange(i + o10, i + o10 + 1) =~= seq![0x7du8]);
    assert(expect_spec(s, i + o10, seq![0x7du8]) == Some(i + o10 + 1));
}

/// Parsing is complete for the joined records followed by the closing
/// bracket, when they fill the rest of the document.
#[verifier::rlimit(100)]
pub proof fn lemma_parse_items_complete(s: Seq<u8>, i: int, c: Seq<ProductV>)
    requires
        c.len() >= 1,
        0 <= i <= s.len(),
        s.subrange(i, s.len() as int) == enc_items(c) + seq![0x5du8],
    ensures
        parse_items_spec(s, i) == Some((c, s.len() as int)),
    decreases c.len(),
{
    let e = enc_items(c) + seq![0x5du8];
    assert(e.len() == s.len() - i);
    let ep = enc_product(c[0]);
    assert(ep.len() >= 17);
    if c.len() == 1 {
        assert(enc_items(c) == ep);
        assert(e.subrange(0, ep.len() as int) =~= ep);
        lemma_subrange_decomp(s, i, e, 0, ep.len() as int);
        lemma_parse_record_complete(s, i, c[0]);
        let j = i + ep.len();
        lemma_byte_at(s, i, e, ep.len() as int);
        assert(e[ep.len() as int] == 0x5d);
        assert(seq![c[0]] =~= c);
    } else {
        let c1 = c.drop_first();
        lemma_enc_items_split(c, 1);
        assert(c.take(1) =~= seq![c[0]]);
        assert(enc_items(c.take(1)) == enc_product(c.take(1)[0]));
        assert(c.take(1)[0] == c[0]);
        assert(c.skip(1) =~= c1);
        assert(enc_items(c) == ep + seq![0x2cu8] + enc_items(c1));
        assert(e.subrange(0, ep.len() as int) =~= ep);
        lemma_subrange_decomp(s, i, e, 0, ep.len() as int);
        lemma_parse_record_complete(s, i, c[0]);
        let j = i + ep.len();
        lemma_byte_at(s, i, e, ep.len() as int);
        assert(e[ep.len() as int] == 0x2c);
        lemma_subrange_decomp(s, i, e, ep.len() as int + 1, e.len() as int);
        assert(e.subrange(ep.len() as int + 1, e.len() as int) =~= enc_items(c1) + seq![0x5du8]);
        lemma_parse_items_complete(s, j + 1, c1);
        assert(seq![c[0]] + c1 =~= c);
    }
}

/// Save/load round trip: parsing an encoded collection yields exactly that
/// collection back, for every collection including the empty one.
#[verifier::rlimit(100)]
pub proof fn lemma_save_load_round_trip(c: Seq<ProductV>)
    ensures
        parse_collection_spec(enc_collection(c)) == Some(c),
{
    let s = enc_collection(c);
    assert(s[0] == 0x5b);
    if c.len() == 0 {
        assert(enc_items(c) =~= Seq::<u8>::empty());
        assert(s.len() == 2);
        assert(s[1] == 0x5d);
        assert(Seq::<ProductV>::empty() =~= c);
    } else {
        assert(enc_product(c[0]).len() >= 17);
        assert(enc_items(c).len() >= 17);
        assert(s.len() > 2);
        assert(s.subrange(1, s.len() as int) =~= enc_items(c) + seq![0x5du8]);
        lemma_parse_items_complete(s, 1, c);
    }
}

/// Appends a fixed segment.
fn append_seg(out: &mut Vec<u8>, seg: &Vec<u8>)
    ensures
        final(out)@ == old(out)@ + seg@,
{
    let mut k: usize = 0;
    while k < seg.len()
        invariant
            k <= seg@.len(),
            out@ == old(out)@ + seg@.subrange(0, k as int),
        decreases seg@.len() - k,
    {
        out.push(seg[k]);
        proof {
            assert(old(out)@ + seg@.subrange(0, k + 1) =~= (old(out)@ + seg@.subrange(0, k as int))
                .push(seg@[k as int]));
        }
        k = k + 1;
    }
    proof {
        assert(seg@.subrange(0, seg@.len() as int) =~= seg@);
    }
}

fn seg_a_vec() -> (r: Vec<u8>)
    ensures
        r@ == seg_a(),
{
    let mut v: Vec<u8> = Vec::new();
    v.push(0x7b);
    v.push(0x22);
    v.push(0x70);
    v.push(0x72);
    v.push(0x6f);
    v.push(0x64);
    v.push(0x75);
    v.push(0x63);
    v.push(0x74);
    v.push(0x5f);
    v.push(0x74);
    v.push(0x79);
    v.push(0x70);
    v.push(0x65);
    v.push(0x22);
    v.push(0x3a);
    v.push(0x22);
    proof {
        assert(v@ =~= seg_a());
    }
    v
}

fn seg_b_vec() -> (r: Vec<u8>)
    ensures
        r@ == seg_b(),
{
    let mut v: Vec<u8> = Vec::new();
    v.push(0x22);
    v.push(0x2c);
    v.push(0x22);
    v.push(0x71);
    v.push(0x75);
    v.push(0x61);
    v.push(0x6e);
    v.push(0x74);
    v.push(0x69);
    v.push(0x74);
    v.push(0x79);
    v.push(0x22);
    v.push(0x3a);
    proof {
        assert(v@ =~= seg_b());
    }
    v
}

fn seg_c_vec() -> (r: Vec<u8>)
    ensures
        r@ == seg_c(),
{
    let mut v: Vec<u8> = Vec::new();
    v.push(0x2c);
    v.push(0x22);
    v.push(0x70);
    v.push(0x72);
    v.push(0x69);
    v.push(0x63);
    v.push(0x65);
    v.push(0x5f);
    v.push(0x70);
    v.push(0x65);
    v.push(0x72);
    v.push(0x5f);
    v.push(0x75);
    v.push(0x6e);
    v.push(0x69);
    v.push(0x74);
    v.push(0x22);
    v.push(0x3a);
    proof {
        assert(v@ =~= seg_c());
    }
    v
}

fn seg_d_vec() -> (r: Vec<u8>)
    ensures
        r@ == seg_d(),
{
    let mut v: Vec<u8> = Vec::new();
    v.push(0x2c);
    v.push(0x22);
    v.push(0x73);
    v.push(0x61);
    v.push(0x6c);
    v.push(0x65);
    v.push(0x73);
    v.push(0x5f);
    v.push(0x74);
    v.push(0x61);
    v.push(0x78);
    v.push(0x22);
    v.push(0x3a);
    proof {
        assert(v@ =~= seg_d());
    }
    v
}

fn seg_e_vec() -> (r: Vec<u8>)
    ensures
        r@ == seg_e(),
{
    let mut v: Vec<u8> = Vec::new();
    v.push(0x2c);
    v.push(0x22);
    v.push(0x74);
    v.push(0x6f);
    v.push(0x74);
    v.push(0x61);
    v.push(0x6c);
    v.push(0x5f);
    v.push(0x70);
    v.push(0x72);
    v.push(0x69);
    v.push(0x63);
    v.push(0x65);
    v.push(0x22);
    v.push(0x3a);
    proof {
        assert(v@ =~= seg_e());
    }
    v
}

/// Appends the escaped form of a name.
fn append_escaped(out: &mut Vec<u8>, name: &Vec<u8>)
    ensures
        final(out)@ == old(out)@ + esc(name@),
{
    let mut k: usize = 0;
    while k < name.len()
        invariant
            k <= name@.len(),
            out@ == old(out)@ + esc(name@.subrange(0, k as int)),
        decreases name@.len() - k,
    {
        let b = name[k];
        proof {
            let pre = name@.subrange(0, k as int);
            let single = seq![name@[k as int]];
            lemma_esc_append(pre, single);
            assert(name@.subrange(0, k + 1) =~= pre + single);
            assert(single.drop_first() =~= Seq::<u8>::empty());
            assert(esc(Seq::<u8>::empty()) =~= Seq::<u8>::empty());
            assert(esc(single) == esc_byte(single[0]) + esc(single.drop_first()));
            assert(single[0] == name@[k as int]);
            assert(esc_byte(name@[k as int]) + Seq::<u8>::empty() =~= esc_byte(name@[k as int]));
        }
        if b == 0x22 || b == 0x5c {
            out.push(0x5c);
            out.push(b);
            proof {
                assert(out@ =~= old(out)@ + esc(name@.subrange(0, k + 1)));
            }
        } else {
            out.push(b);
            proof {
                assert(out@ =~= old(out)@ + esc(name@.subrange(0, k + 1)));
            }
        }
        k = k + 1;
    }
    proof {
        assert(name@.subrange(0, name@.len() as int) =~= name@);
    }
}

/// Appends a monetary amount as whole part, dot, and five fractional digits.
fn append_money(out: &mut Vec<u8>, v: u128)
    ensures
        final(out)@ == old(out)@ + money_seq(v as nat),
{
    let whole = fmt_u128(v / 100000);
    append_seg(out, &whole);
    out.push(0x2e);
    let f = v % 100000;
    let b0 = (f / 10000 % 10) as u8 + 0x30;
    let b1 = (f / 1000 % 10) as u8 + 0x30;
    let b2 = (f / 100 % 10) as u8 + 0x30;
    let b3 = (f / 10 % 10) as u8 + 0x30;
    let b4 = (f % 10) as u8 + 0x30;
    out.push(b0);
    out.push(b1);
    out.push(b2);
    out.push(b3);
    out.push(b4);
    proof {
        assert(seq![b0, b1, b2, b3, b4] =~= frac5((v as nat) % 100000));
        assert(out@ =~= old(out)@ + money_seq(v as nat));
    }
}

/// Appends one encoded record.
fn encode_product(out: &mut Vec<u8>, p: &Product)
    ensures
        final(out)@ == old(out)@ + enc_product(p@),
{
    let sa = seg_a_vec();
    append_seg(out, &sa);
    append_escaped(out, &p.product_type);
    let sb = seg_b_vec();
    append_seg(out, &sb);
    let qd = fmt_u128(p.quantity as u128);
    append_seg(out, &qd);
    let sc = seg_c_vec();
    append_seg(out, &sc);
    append_money(out, p.price_per_unit as u128);
    let sd = seg_d_vec();
    append_seg(out, &sd);
    append_money(out, p.sales_tax as u128);
    let se = seg_e_vec();
    append_seg(out, &se);
    append_money(out, p.total_price);
    out.push(0x7d);
    proof {
        assert(out@ =~= old(out)@ + enc_product(p@));
    }
}

/// Encodes the whole collection as one document.
pub fn encode_collection(products: &Vec<Product>) -> (r: Vec<u8>)
    ensures
        r@ == enc_collection(prods_view(products@)),
{
    let ghost c = prods_view(products@);
    let mut out: Vec<u8> = Vec::new();
    out.push(0x5b);
    let mut k: usize = 0;
    while k < products.len()
        invariant
            k <= products@.len(),
            c == prods_view(products@),
            c.len() == products@.len(),
            k == 0 ==> out@ == seq![0x5bu8],
            k > 0 ==> out@ == seq![0x5bu8] + enc_items(c.take(k as int)),
        decreases products@.len() - k,
    {
        let ghost out0 = out@;
        if k > 0 {
            out.push(0x2c);
        }
        encode_product(&mut out, &products[k]);
        proof {
            assert(products@[k as int]@ == c[k as int]);
            if k == 0 {
                assert(c.take(1)[0] == c[0]);
                assert(c.take(1).len() == 1);
                assert(enc_items(c.take(1)) == enc_product(c[0]));
                assert(out@ =~= seq![0x5bu8] + enc_items(c.take(1)));
            } else {
                lemma_enc_items_split(c.take(k + 1), k as int);
                assert(c.take(k + 1).take(k as int) =~= c.take(k as int));
                assert(c.take(k + 1).skip(k as int) =~= seq![c[k as int]]);
                assert(c.take(k + 1).skip(k as int).len() == 1);
                assert(enc_items(c.take(k + 1).skip(k as int)) == enc_product(c[k as int]));
                assert(out@ =~= seq![0x5bu8] + enc_items(c.take(k + 1)));
            }
        }
        k = k + 1;
    }
    out.push(0x5d);
    proof {
        if c.len() == 0 {
            assert(enc_items(c).len() == 0);
            assert(out@ =~= enc_collection(c));
        } else {
            assert(c.take(c.len() as int) =~= c);
            assert(out@ =~= enc_collection(c));
        }
    }
    out
}

/// Executable segment match.
fn expect(data: &Vec<u8>, i: usize, seg: &Vec<u8>) -> (r: Option<usize>)
    requires
        i <= data@.len(),
    ensures
        match r {
            Some(j) => expect_spec(data@, i as int, seg@) == Some(j as int) && j == i + seg@.len()
                && j <= data@.len(),
            None => expect_spec(data@, i as int, seg@) is None,
        },
{
    if data.len() - i < seg.len() {
        return None;
    }
    let mut k: usize = 0;
    while k < seg.len()
        invariant
            k <= seg@.len(),
            i + seg@.len() <= data@.len(),
            data@.len() <= usize::MAX,
            forall|m: int| 0 <= m < k ==> data@[i + m] == seg@[m],
        decreases seg@.len() - k,
    {
        if data[i + k] != seg[k] {
            proof {
                let sub = data@.subrange(i as int, i + seg@.len());
                assert(sub[k as int] == data@[i + k as int]);
                assert(sub[k as int] != seg@[k as int]);
            }
            return None;
        }
        k = k + 1;
    }
    proof {
        assert(data@.subrange(i as int, i + seg@.len()) =~= seg@);
    }
    Some(i + seg.len())
}

/// Executable name parser; stops at the closing quote.
fn parse_name(data: &Vec<u8>, i: usize) -> (r: Option<(Vec<u8>, usize)>)
    requires
        i <= data@.len(),
    ensures
        match r {
            Some(p) => parse_name_spec(data@, i as int) == Some((p.0@, p.1 as int)) && i <= p.1
                <= data@.len(),
            None => parse_name_spec(data@, i as int) is None,
        },
    decreases data@.len() - i,
{
    if i >= data.len() {
        return None;
    }
    let b = data[i];
    if b == 0x22 {
        let v: Vec<u8> = Vec::new();
        proof {
            assert(v@ =~= Seq::<u8>::empty());
        }
        return Some((v, i));
    }
    if b == 0x5c {
        if i + 1 < data.len() && (data[i + 1] == 0x22 || data[i + 1] == 0x5c) {
            let c = data[i + 1];
            match parse_name(data, i + 2) {
                None => None,
                Some((mut v, j)) => {
                    let ghost v0 = v@;
                    v.insert(0, c);
                    proof {
                        assert(v@ =~= seq![data@[i as int + 1]] + v0);
                    }
                    Some((v, j))
                },
            }
        } else {
            None
        }
    } else {
        match parse_name(data, i + 1) {
            None => None,
            Some((mut v, j)) => {
                let ghost v0 = v@;
                v.insert(0, b);
                proof {
                    assert(v@ =~= seq![data@[i as int]] + v0);
                }
                Some((v, j))
            },
        }
    }
}

/// Executable number parser.
fn parse_num(data: &Vec<u8>, i: usize) -> (r: Option<(u128, usize)>)
    requires
        i <= data@.len(),
    ensures
        ({
            let sp = parse_num_spec(data@, i as int);
            match r {
                Some(p) => sp == Some((p.0 as nat, p.1 as int)) && i < p.1 <= data@.len(),
                None => sp is None || (sp matches Some(q) && q.0 > u128::MAX as nat),
            }
        }),
{
    let j = scan_digits(data, i);
    if j == i {
        return None;
    }
    proof {
        lemma_run_end_props(data@, i as int);
    }
    match digits_value(data, i, j) {
        Some(v) => Some((v, j)),
        None => None,
    }
}

/// Executable monetary-amount parser.
fn parse_money(data: &Vec<u8>, i: usize) -> (r: Option<(u128, usize)>)
    requires
        i <= data@.len(),
    ensures
        ({
            let sp = parse_money_spec(data@, i as int);
            match r {
                Some(p) => sp == Some((p.0 as nat, p.1 as int)) && i < p.1 <= data@.len(),
                None => sp is None || (sp matches Some(q) && q.0 > u128::MAX as nat),
            }
        }),
{
    let ghost s = data@;
    let j = scan_digits(data, i);
    if j == i {
        return None;
    }
    if data.len() - j < 6 {
        return None;
    }
    if data[j] != 0x2e {
        return None;
    }
    let mut k: usize = j + 1;
    while k < j + 6
        invariant
            data@ == s,
            s.len() <= usize::MAX,
            i <= data@.len(),
            i < j,
            j == run_end(s, i as int),
            j + 6 <= s.len(),
            s[j as int] == 0x2e,
            j + 1 <= k <= j + 6,
            forall|m: int| j + 1 <= m < k ==> is_digit(s[m]),
        decreases j + 6 - k,
    {
        if !(0x30 <= data[k] && data[k] <= 0x39) {
            proof {
                assert(!is_digit(s[k as int]));
            }
            return None;
        }
        k = k + 1;
    }
    proof {
        lemma_run_end_props(s, i as int);
    }
    let ghost wv = dec_val(s.subrange(i as int, j as int));
    let ghost fv = dec_val(s.subrange(j as int + 1, j as int + 6));
    proof {
        lemma_dec_val_bound(s.subrange(j as int + 1, j as int + 6));
        assert(pow10(0) == 1 && pow10(1) == 10 && pow10(2) == 100 && pow10(3) == 1000 && pow10(4)
            == 10000 && pow10(5) == 100000);
        assert(fv < 100000);
    }
    let w = match digits_value(data, i, j) {
        Some(w) => w,
        None => {
            proof {
                assert(wv * 100000 >= wv * 1) by (nonlinear_arith)
                    requires
                        wv >= 0,
                ;
            }
            return None;
        },
    };
    let f = match digits_value(data, j + 1, j + 6) {
        Some(f) => f,
        None => {
            proof {
                assert(false);
            }
            return None;
        },
    };
    if w > (u128::MAX - f) / 100000 {
        proof {
            lemma_mul_le_div(w as nat, 100000, (u128::MAX - f) as nat);
        }
        return None;
    }
    proof {
        lemma_mul_le_div(w as nat, 100000, (u128::MAX - f) as nat);
    }
    Some((w * 100000 + f, j + 6))
}

/// Executable record parser; `None` also covers a record whose fields do not
/// fit the executable field types.
#[verifier::rlimit(100)]
fn parse_record(data: &Vec<u8>, i: usize) -> (r: Option<(Product, usize)>)
    requires
        i <= data@.len(),
    ensures
        ({
            let sp = parse_record_spec(data@, i as int);
            match r {
                Some(p) => sp == Some((p.0@, p.1 as int)) && i < p.1 <= data@.len(),
                None => sp is None || (sp matches Some(q) && !fits(q.0)),
            }
        }),
{
    let sa = seg_a_vec();
    let i1 = match expect(data, i, &sa) {
        Some(x) => x,
        None => {
            return None;
        },
    };
    let (name, i2) = match parse_name(data, i1) {
        Some(x) => x,
        None => {
            return None;
        },
    };
    let sb = seg_b_vec();
    let i3 = match expect(data, i2, &sb) {
        Some(x) => x,
        None => {
            return None;
        },
    };
    let (q, i4) = match parse_num(data, i3) {
        Some(x) => x,
        None => {
            return None;
        },
    };
    if q > usize::MAX as u128 {
        return None;
    }
    let sc = seg_c_vec();
    let i5 = match expect(data, i4, &sc) {
        Some(x) => x,
        None => {
            return None;
        },
    };
    let (price, i6) = match parse_money(data, i5) {
        Some(x) => x,
        None => {
            return None;
        },
    };
    if price > u64::MAX as u128 {
        return None;
    }
    let sd = seg_d_vec();
    let i7 = match expect(data, i6, &sd) {
        Some(x) => x,
        None => {
            return None;
        },
    };
    let (tax, i8) = match parse_money(data, i7) {
        Some(x) => x,
        None => {
            return None;
        },
    };
    if tax > u64::MAX as u128 {
        return None;
    }
    let se = seg_e_vec();
    let i9 = match expect(data, i8, &se) {
        Some(x) => x,
        None => {
            return None;
        },
    };
    let (total, i10) = match parse_money(data, i9) {
        Some(x) => x,
        None => {
            return None;
        },
    };
    let mut brace: Vec<u8> = Vec::new();
    brace.push(0x7d);
    proof {
        assert(brace@ =~= seq![0x7du8]);
    }
    let i11 = match expect(data, i10, &brace) {
        Some(x) => x,
        None => {
            return None;
        },
    };
    let p = Product {
        product_type: name,
        quantity: q as usize,
        price_per_unit: price as u64,
        sales_tax: tax as u64,
        total_price: total,
    };
    Some((p, i11))
}

/// Executable parser for the joined records and the closing bracket.
#[verifier::rlimit(100)]
fn parse_items(data: &Vec<u8>, i: usize) -> (r: Option<(Vec<Product>, usize)>)
    requires
        i <= data@.len(),
    ensures
        ({
            let sp = parse_items_spec(data@, i as int);
            match r {
                Some(p) => sp == Some((prods_view(p.0@), p.1 as int)) && p.1 <= data@.len(),
                None => sp is None || (sp matches Some(q) && !all_fit(q.0)),
            }
        }),
    decreases data@.len() - i,
{
    let ghost sp = parse_items_spec(data@, i as int);
    match parse_record(data, i) {
        None => {
            proof {
                match parse_record_spec(data@, i as int) {
                    None => {},
                    Some((pv, j)) => {
                        if sp is Some {
                            let items = sp->Some_0.0;
                            assert(items[0] == pv);
                            assert(!fits(items[0]));
                        }
                    },
                }
            }
            None
        },
        Some((p, j)) => {
            if j < data.len() && data[j] == 0x2c {
                match parse_items(data, j + 1) {
                    None => {
                        proof {
                            let spr = parse_items_spec(data@, j as int + 1);
                            if sp is Some {
                                let items = sp->Some_0.0;
                                let rest = spr->Some_0.0;
                                assert(items == seq![p@] + rest);
                                assert(!all_fit(rest));
                                let m = choose|m: int| 0 <= m < rest.len() && !fits(#[trigger] rest[m]);
                                assert(items[m + 1] == rest[m]);
                                assert(!all_fit(items));
                            }
                        }
                        None
                    },
                    Some((mut ps, k)) => {
                        let ghost rest_v = ps@;
                        ps.insert(0, p);
                        proof {
                            assert(ps@ =~= seq![p] + rest_v);
                            assert(prods_view(ps@) =~= seq![p@] + prods_view(rest_v));
                        }
                        Some((ps, k))
                    },
                }
            } else if j < data.len() && data[j] == 0x5d {
                let mut ps: Vec<Product> = Vec::new();
                ps.push(p);
                proof {
                    assert(prods_view(ps@) =~= seq![p@]);
                }
                Some((ps, j + 1))
            } else {
                None
            }
        },
    }
}

/// Decodes a document; `None` when it is not an encoded collection, or when
/// a record in it does not fit the executable field types.
pub fn decode_collection(data: &Vec<u8>) -> (r: Option<Vec<Product>>)
    ensures
        ({
            let sp = parse_collection_spec(data@);
            match r {
                Some(ps) => sp == Some(prods_view(ps@)),
                None => sp is None || (sp matches Some(items) && !all_fit(items)),
            }
        }),
{
    let len = data.len();
    if len == 0 || data[0] != 0x5b {
        return None;
    }
    if len == 2 && data[1] == 0x5d {
        let ps: Vec<Product> = Vec::new();
        proof {
            assert(prods_view(ps@) =~= Seq::<ProductV>::empty());
        }
        return Some(ps);
    }
    match parse_items(data, 1) {
        None => None,
        Some((ps, k)) => {
            if k == len {
                Some(ps)
            } else {
                None
            }
        },
    }
}

/// What starting from the persisted file's bytes yields: the decoded
/// collection where the file held one, and the empty collection where the
/// file was absent or did not parse.
pub open spec fn loaded_spec(data: Option<Vec<u8>>) -> Seq<ProductV> {
    match data {
        Option::None => Seq::empty(),
        Option::Some(d) => match parse_collection_spec(d@) {
            Option::Some(items) => if all_fit(items) {
                items
            } else {
                Seq::empty()
            },
            Option::None => Seq::empty(),
        },
    }
}

/// Builds the starting collection from the persisted file's bytes; a missing
/// or unparsable file yields the empty collection, never an error.
pub fn load_collection(data: &Option<Vec<u8>>) -> (r: Vec<Product>)
    ensures
        prods_view(r@) == loaded_spec(*data),
{
    match data {
        Option::None => {
            let ps: Vec<Product> = Vec::new();
            proof {
                assert(prods_view(ps@) =~= Seq::<ProductV>::empty());
            }
            ps
        },
        Option::Some(d) => {
            match decode_collection(d) {
                Some(ps) => {
                    proof {
                        let items = prods_view(ps@);
                        assert forall|m: int| 0 <= m < items.len() implies fits(
                            #[trigger] items[m]) by {
                            assert(items[m] == ps@[m]@);
                        }
                    }
                    ps
                },
                None => {
                    let ps: Vec<Product> = Vec::new();
                    proof {
                        assert(prods_view(ps@) =~= Seq::<ProductV>::empty());
                    }
                    ps
                },
            }
        },
    }
}

} // verus!
