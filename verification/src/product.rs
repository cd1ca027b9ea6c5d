//! The inventory record and its mathematical model.

use vstd::prelude::*;

verus! {

/// One inventory record. The name is raw text bytes; the monetary fields
/// are fixed-point amounts scaled by `crate::input::MONEY_SCALE`, so that
/// the derived sales tax and total price are exact.
#[derive(Debug)]
pub struct Product {
    pub product_type: Vec<u8>,
    pub quantity: usize,
    pub price_per_unit: u64,
    pub sales_tax: u64,
    pub total_price: u128,
}

/// The mathematical model of a record.
pub ghost struct ProductV {
    pub product_type: Seq<u8>,
    pub quantity: nat,
    pub price_per_unit: nat,
    pub sales_tax: nat,
    pub total_price: nat,
}

impl View for Product {
    type V = ProductV;

    open spec fn view(&self) -> ProductV {
        ProductV {
            product_type: self.product_type@,
            quantity: self.quantity as nat,
            price_per_unit: self.price_per_unit as nat,
            sales_tax: self.sales_tax as nat,
            total_price: self.total_price as nat,
        }
    }
}

/// Byte-for-byte copy of a text field.
fn copy_bytes(v: &Vec<u8>) -> (r: Vec<u8>)
    ensures
        r@ == v@,
{
    let mut out: Vec<u8> = Vec::new();
    let mut k: usize = 0;
    while k < v.len()
        invariant
            k <= v@.len(),
            out@ == v@.subrange(0, k as int),
        decreases v@.len() - k,
    {
        out.push(v[k]);
        proof {
            assert(v@.subrange(0, k + 1) =~= v@.subrange(0, k as int).push(v@[k as int]));
        }
        k = k + 1;
    }
    proof {
        assert(v@.subrange(0, v@.len() as int) =~= v@);
    }
    out
}

impl Clone for Product {
    /// A clone carries the same model.
    fn clone(&self) -> (r: Self)
        ensures
            r@ == self@,
    {
        Product {
            product_type: copy_bytes(&self.product_type),
            quantity: self.quantity,
            price_per_unit: self.price_per_unit,
            sales_tax: self.sales_tax,
            total_price: self.total_price,
        }
    }
}

/// The model of a sequence of records.
pub open spec fn prods_view(ps: Seq<Product>) -> Seq<ProductV> {
    ps.map_values(|p: Product| p@)
}

} // verus!
