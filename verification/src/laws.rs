//! Cross-operation guarantees of the store and the codec, proved once and
//! for all collections and inputs.

use vstd::prelude::*;
use vstd::arithmetic::div_mod::lemma_fundamental_div_mod;
use crate::codec::all_fit;
use crate::codec::enc_collection;
use crate::codec::enc_items;
use crate::codec::lemma_save_load_round_trip;
use crate::codec::loaded_spec;
use crate::errors::ValidationError;
use crate::input::lemma_price_value_mod10;
use crate::input::nat_input;
use crate::input::price_value;
use crate::num::dec_val;
use crate::num::digit_val;
use crate::num::is_digit;
use crate::num::run_end;
use crate::product::ProductV;
use crate::store::add_spec;
use crate::store::delete_spec;
use crate::store::listing;

verus! {

/// After a successful `add`, the listing of the new collection ends with the
/// created record, whose sales tax is one tenth of the unit price and whose
/// total price is quantity times unit price plus the sales tax.
pub proof fn lemma_add_then_list(c: Seq<ProductV>, t: Seq<u8>, q: Seq<u8>, p: Seq<u8>)
    requires
        add_spec(c, t, q, p).1 is Ok,
    ensures
        ({
            let c2 = add_spec(c, t, q, p).0;
            let pv = add_spec(c, t, q, p).1->Ok_0;
            &&& listing(c2).len() == c.len() + 1
            &&& listing(c2).last() == ((c.len() + 1) as int, pv)
            &&& pv.sales_tax * 10 == pv.price_per_unit
            &&& pv.total_price == pv.quantity * pv.price_per_unit + pv.sales_tax
        }),
{
    lemma_price_value_mod10(p);
    lemma_fundamental_div_mod(price_value(p) as int, 10);
}

/// Saving and then loading returns the collection unchanged: when the file
/// holds the encoding of a collection, loading yields that collection, for
/// every collection including the empty one.
pub proof fn lemma_load_after_save(d: Option<Vec<u8>>, c: Seq<ProductV>)
    requires
        all_fit(c),
        d matches Some(v) && v@ == enc_collection(c),
    ensures
        loaded_spec(d) == c,
{
    lemma_save_load_round_trip(c);
}

/// Loading when no persisted file exists yields the empty collection,
/// without error.
pub proof fn lemma_load_absent()
    ensures
        loaded_spec(None::<Vec<u8>>) == Seq::<ProductV>::empty(),
{
}

/// The value of the position text "1".
proof fn lemma_pos_one()
    ensures
        nat_input(seq![0x31u8]) == Some(1nat),
{
    let pos = seq![0x31u8];
    assert(is_digit(pos[0]));
    assert(run_end(pos, 1) == 1);
    assert(run_end(pos, 0) == 1);
    assert(pos.subrange(0, 1) =~= pos);
    assert(pos.drop_last() =~= Seq::<u8>::empty());
    assert(dec_val(pos) == dec_val(pos.drop_last()) * 10 + digit_val(pos.last()));
    assert(dec_val(Seq::<u8>::empty()) == 0);
}

/// The value of the position text "2".
proof fn lemma_pos_two()
    ensures
        nat_input(seq![0x32u8]) == Some(2nat),
{
    let pos = seq![0x32u8];
    assert(is_digit(pos[0]));
    assert(run_end(pos, 1) == 1);
    assert(run_end(pos, 0) == 1);
    assert(pos.subrange(0, 1) =~= pos);
    assert(pos.drop_last() =~= Seq::<u8>::empty());
    assert(dec_val(pos) == dec_val(pos.drop_last()) * 10 + digit_val(pos.last()));
    assert(dec_val(Seq::<u8>::empty()) == 0);
}

/// Adding a record to the empty collection and then deleting position "1"
/// leaves the empty collection again: its listing is empty and its persisted
/// document is the empty list.
pub proof fn lemma_add_then_delete_only(t: Seq<u8>, q: Seq<u8>, p: Seq<u8>)
    requires
        add_spec(Seq::empty(), t, q, p).1 is Ok,
    ensures
        ({
            let c1 = add_spec(Seq::empty(), t, q, p).0;
            &&& delete_spec(c1, seq![0x31u8]).1 == Ok::<(), ValidationError>(())
            &&& delete_spec(c1, seq![0x31u8]).0 == Seq::<ProductV>::empty()
            &&& listing(delete_spec(c1, seq![0x31u8]).0).len() == 0
            &&& enc_collection(delete_spec(c1, seq![0x31u8]).0) == seq![0x5bu8, 0x5du8]
        }),
{
    let c1 = add_spec(Seq::<ProductV>::empty(), t, q, p).0;
    lemma_pos_one();
    assert(c1.len() == 1);
    assert(c1.remove(0) =~= Seq::<ProductV>::empty());
    assert(enc_items(Seq::<ProductV>::empty()) == Seq::<u8>::empty());
    assert(enc_collection(Seq::<ProductV>::empty()) =~= seq![0x5bu8, 0x5du8]);
}

/// Deleting position "2" from a three-record collection keeps the first and
/// third records, and the listing then reports them at positions 1 and 2.
pub proof fn lemma_delete_middle_of_three(c: Seq<ProductV>)
    requires
        c.len() == 3,
    ensures
        delete_spec(c, seq![0x32u8]).1 == Ok::<(), ValidationError>(()),
        delete_spec(c, seq![0x32u8]).0 == seq![c[0], c[2]],
        listing(delete_spec(c, seq![0x32u8]).0) == seq![(1int, c[0]), (2int, c[2])],
{
    lemma_pos_two();
    assert(c.remove(1) =~= seq![c[0], c[2]]);
    assert(listing(seq![c[0], c[2]]) =~= seq![(1int, c[0]), (2int, c[2])]);
}

} // verus!
