//! The inventory store: the authoritative ordered collection of records,
//! with validated `add`, `list` and `delete` operations.

use vstd::prelude::*;
use crate::errors::ValidationError;
use crate::input::nat_input;
use crate::input::parse_pos;
use crate::input::parse_price;
use crate::input::parse_qty;
use crate::input::price_value;
use crate::input::qty_value;
use crate::input::trim_bytes;
use crate::input::trim_spec;
use crate::product::Product;
use crate::product::ProductV;
use crate::product::prods_view;

verus! {

/// The record a successful `add` with the given raw fields creates: the
/// trimmed name, the parsed quantity and unit price, a sales tax of one
/// tenth of the unit price, and a total of quantity times unit price plus
/// the tax.
pub open spec fn new_product_spec(t: Seq<u8>, q: Seq<u8>, p: Seq<u8>) -> ProductV {
    let qty = qty_value(q);
    let price = price_value(p);
    ProductV {
        product_type: trim_spec(t),
        quantity: qty,
        price_per_unit: price,
        sales_tax: price / 10,
        total_price: qty * price + price / 10,
    }
}

/// What `add` does to a collection: the name is checked first, then the
/// quantity, then the price; on success the new record is appended.
pub open spec fn add_spec(c: Seq<ProductV>, t: Seq<u8>, q: Seq<u8>, p: Seq<u8>) -> (Seq<ProductV>,
    Result<ProductV, ValidationError>) {
    if trim_spec(t).len() == 0 {
        (c, Err(ValidationError::EmptyField))
    } else if qty_value(q) == 0 {
        (c, Err(ValidationError::InvalidQuantity))
    } else if price_value(p) == 0 {
        (c, Err(ValidationError::InvalidPrice))
    } else {
        (c.push(new_product_spec(t, q, p)), Ok(new_product_spec(t, q, p)))
    }
}

/// What `delete` does to a collection: an empty position is rejected, an
/// unparsable one is a silent no-op, a position of zero or past the end is
/// out of range, and otherwise the record at the 1-based position leaves.
pub open spec fn delete_spec(c: Seq<ProductV>, pos: Seq<u8>) -> (Seq<ProductV>, Result<
    (),
    ValidationError,
>) {
    if pos.len() == 0 {
        (c, Err(ValidationError::EmptyField))
    } else {
        match nat_input(pos) {
            Option::None => (c, Ok(())),
            Option::Some(p) => if p == 0 || p > c.len() {
                (c, Err(ValidationError::OutOfRange))
            } else {
                (c.remove(p - 1), Ok(()))
            },
        }
    }
}

/// The listing `list` returns: each record paired with its 1-based position.
pub open spec fn listing(c: Seq<ProductV>) -> Seq<(int, ProductV)> {
    Seq::new(c.len(), |i: int| (i + 1, c[i]))
}

/// The authoritative in-memory collection of records.
pub struct Store {
    products: Vec<Product>,
}

impl View for Store {
    type V = Seq<ProductV>;

    closed spec fn view(&self) -> Seq<ProductV> {
        prods_view(self.products@)
    }
}

impl Store {
    /// A store that holds no records.
    pub fn new() -> (s: Store)
        ensures
            s@ == Seq::<ProductV>::empty(),
    {
        let s = Store { products: Vec::new() };
        proof {
            assert(s@ =~= Seq::<ProductV>::empty());
        }
        s
    }

    /// A store over an existing collection, as loaded from the persisted file.
    pub fn from_products(products: Vec<Product>) -> (s: Store)
        ensures
            s@ == prods_view(products@),
    {
        Store { products }
    }

    /// The records in order, for display or persistence.
    pub fn products(&self) -> (r: &Vec<Product>)
        ensures
            prods_view(r@) == self@,
    {
        &self.products
    }

    /// Validates the three raw fields in order and, on success, appends the
    /// created record and returns a copy of it.
    pub fn add(&mut self, product_type: &Vec<u8>, quantity: &Vec<u8>, price_per_unit: &Vec<u8>)
        -> (r: Result<Product, ValidationError>)
        ensures
            final(self)@ == add_spec(old(self)@, product_type@, quantity@, price_per_unit@).0,
            match (r, add_spec(old(self)@, product_type@, quantity@, price_per_unit@).1) {
                (Ok(p), Ok(pv)) => p@ == pv,
                (Err(e), Err(ev)) => e == ev,
                _ => false,
            },
    {
        let t = trim_bytes(product_type);
        if t.len() == 0 {
            return Err(ValidationError::EmptyField);
        }
        let qty = parse_qty(quantity);
        if qty == 0 {
            return Err(ValidationError::InvalidQuantity);
        }
        let price = parse_price(price_per_unit);
        if price == 0 {
            return Err(ValidationError::InvalidPrice);
        }
        let tax = price / 10;
        proof {
            assert((qty as u128) * (price as u128) <= (u64::MAX as u128) * (u64::MAX as u128))
                by (nonlinear_arith)
                requires
                    qty as u128 <= u64::MAX as u128,
                    price as u128 <= u64::MAX as u128,
            ;
        }
        let total = (qty as u128) * (price as u128) + (tax as u128);
        let p = Product {
            product_type: t,
            quantity: qty,
            price_per_unit: price,
            sales_tax: tax,
            total_price: total,
        };
        let ghost pv = p@;
        let r = p.clone();
        self.products.push(p);
        proof {
            assert(pv == new_product_spec(product_type@, quantity@, price_per_unit@));
            assert(prods_view(self.products@) =~= prods_view(old(self).products@).push(pv));
        }
        Ok(r)
    }

    /// A snapshot of the collection, each record paired with its 1-based
    /// position in the current order.
    pub fn list(&self) -> (r: Vec<(usize, Product)>)
        ensures
            r@.len() == self@.len(),
            forall|i: int| 0 <= i < r@.len() ==> (#[trigger] r@[i]).0 == i + 1 && r@[i].1@
                == self@[i],
    {
        let mut out: Vec<(usize, Product)> = Vec::new();
        let mut k: usize = 0;
        while k < self.products.len()
            invariant
                k <= self.products@.len(),
                out@.len() == k,
                forall|i: int| 0 <= i < k ==> (#[trigger] out@[i]).0 == i + 1 && out@[i].1@
                    == self@[i],
            decreases self.products@.len() - k,
        {
            out.push((k + 1, self.products[k].clone()));
            k = k + 1;
        }
        out
    }

    /// Deletes by raw 1-based position text, as `delete_spec` says.
    pub fn delete(&mut self, position: &Vec<u8>) -> (r: Result<(), ValidationError>)
        ensures
            final(self)@ == delete_spec(old(self)@, position@).0,
            r == delete_spec(old(self)@, position@).1,
    {
        if position.len() == 0 {
            return Err(ValidationError::EmptyField);
        }
        match parse_pos(position) {
            None => Ok(()),
            Some(p) => {
                if p == 0 || p > self.products.len() {
                    return Err(ValidationError::OutOfRange);
                }
                self.products.remove(p - 1);
                proof {
                    assert(prods_view(self.products@) =~= prods_view(old(self).products@).remove(
                        p - 1));
                }
                Ok(())
            },
        }
    }
}

} // verus!
