use inventory_store::errors::ValidationError;
use inventory_store::input::MONEY_SCALE;
use inventory_store::store::Store;

const SCALE: u64 = MONEY_SCALE;

#[test]
fn add_then_list_reports_new_record_with_derived_fields() {
    let mut store = Store::new();
    let created = store
        .add(&b"Widget".to_vec(), &b"5".to_vec(), &b"10.0".to_vec())
        .expect("valid input");
    assert_eq!(created.product_type, b"Widget".to_vec());
    assert_eq!(created.quantity, 5);
    assert_eq!(created.price_per_unit, 10 * SCALE);
    assert_eq!(created.sales_tax, SCALE); // 10% of 10.0 is 1.0
    assert_eq!(created.total_price, (5 * 10 * SCALE + SCALE) as u128); // 51.0
    let listing = store.list();
    assert_eq!(listing.len(), 1);
    let (position, last) = &listing[listing.len() - 1];
    assert_eq!(*position, 1);
    assert_eq!(last.product_type, created.product_type);
    assert_eq!(last.quantity, created.quantity);
    assert_eq!(last.price_per_unit, created.price_per_unit);
    assert_eq!(last.sales_tax, created.sales_tax);
    assert_eq!(last.total_price, created.total_price);
    assert_eq!(last.sales_tax * 10, last.price_per_unit);
    assert_eq!(
        last.total_price,
        last.quantity as u128 * last.price_per_unit as u128 + last.sales_tax as u128
    );
}

#[test]
fn add_validation_order_and_errors() {
    let mut store = Store::new();
    let r = store.add(&b"".to_vec(), &b"5".to_vec(), &b"10.0".to_vec());
    assert!(matches!(r, Err(ValidationError::EmptyField)));
    let r = store.add(&b"Widget".to_vec(), &b"0".to_vec(), &b"10.0".to_vec());
    assert!(matches!(r, Err(ValidationError::InvalidQuantity)));
    let r = store.add(&b"Widget".to_vec(), &b"5".to_vec(), &b"0".to_vec());
    assert!(matches!(r, Err(ValidationError::InvalidPrice)));
    assert_eq!(store.list().len(), 0);
}

#[test]
fn delete_on_empty_collection_is_out_of_range() {
    let mut store = Store::new();
    let r = store.delete(&b"1".to_vec());
    assert!(matches!(r, Err(ValidationError::OutOfRange)));
}

#[test]
fn add_then_delete_only_record_leaves_empty_collection() {
    let mut store = Store::new();
    store
        .add(&b"Widget".to_vec(), &b"5".to_vec(), &b"10.0".to_vec())
        .expect("valid input");
    let r = store.delete(&b"1".to_vec());
    assert!(matches!(r, Ok(())));
    assert_eq!(store.list().len(), 0);
    let doc = inventory_store::codec::encode_collection(store.products());
    assert_eq!(doc, b"[]".to_vec());
}

#[test]
fn delete_middle_of_three_shifts_positions() {
    let mut store = Store::new();
    store.add(&b"A".to_vec(), &b"1".to_vec(), &b"1".to_vec()).expect("valid");
    store.add(&b"B".to_vec(), &b"2".to_vec(), &b"2".to_vec()).expect("valid");
    store.add(&b"C".to_vec(), &b"3".to_vec(), &b"3".to_vec()).expect("valid");
    let r = store.delete(&b"2".to_vec());
    assert!(matches!(r, Ok(())));
    let listing = store.list();
    assert_eq!(listing.len(), 2);
    assert_eq!(listing[0].0, 1);
    assert_eq!(listing[0].1.product_type, b"A".to_vec());
    assert_eq!(listing[1].0, 2);
    assert_eq!(listing[1].1.product_type, b"C".to_vec());
}

#[test]
fn delete_with_unparsable_position_is_silent_no_op() {
    let mut store = Store::new();
    store.add(&b"Widget".to_vec(), &b"5".to_vec(), &b"10.0".to_vec()).expect("valid");
    let r = store.delete(&b"abc".to_vec());
    assert!(matches!(r, Ok(())));
    assert_eq!(store.list().len(), 1);
}

#[test]
fn delete_position_errors() {
    let mut store = Store::new();
    store.add(&b"Widget".to_vec(), &b"5".to_vec(), &b"10.0".to_vec()).expect("valid");
    assert!(matches!(store.delete(&b"".to_vec()), Err(ValidationError::EmptyField)));
    assert!(matches!(store.delete(&b"0".to_vec()), Err(ValidationError::OutOfRange)));
    assert!(matches!(store.delete(&b"2".to_vec()), Err(ValidationError::OutOfRange)));
    assert_eq!(store.list().len(), 1);
    assert!(matches!(store.delete(&b"+1".to_vec()), Ok(())));
    assert_eq!(store.list().len(), 0);
}

#[test]
fn quantity_grammar() {
    let mut store = Store::new();
    let created = store
        .add(&b"Widget".to_vec(), &b"+5".to_vec(), &b"1".to_vec())
        .expect("signed quantity parses");
    assert_eq!(created.quantity, 5);
    for bad in [&b"abc"[..], b"5.0", b"-5", b" 5", b"00x"] {
        let r = store.add(&b"Widget".to_vec(), &bad.to_vec(), &b"1".to_vec());
        assert!(matches!(r, Err(ValidationError::InvalidQuantity)));
    }
}

#[test]
fn price_grammar() {
    let mut store = Store::new();
    let created = store
        .add(&b"Widget".to_vec(), &b"1".to_vec(), &b"10.".to_vec())
        .expect("trailing dot parses");
    assert_eq!(created.price_per_unit, 10 * SCALE);
    let created = store
        .add(&b"Widget".to_vec(), &b"1".to_vec(), &b".5".to_vec())
        .expect("leading dot parses");
    assert_eq!(created.price_per_unit, SCALE / 2);
    let created = store
        .add(&b"Widget".to_vec(), &b"1".to_vec(), &b"0.0001".to_vec())
        .expect("four decimals parse");
    assert_eq!(created.price_per_unit, 10);
    assert_eq!(created.sales_tax, 1);
    for bad in [&b"-1"[..], b"1e3", b"0.0", b".", b"0.00001", b"1,5", b""] {
        let r = store.add(&b"Widget".to_vec(), &b"1".to_vec(), &bad.to_vec());
        assert!(matches!(r, Err(ValidationError::InvalidPrice)), "{:?}", bad);
    }
}

#[test]
fn quantity_and_price_bounds() {
    let mut store = Store::new();
    let created = store
        .add(
            &b"Widget".to_vec(),
            &b"18446744073709551615".to_vec(), // largest usize on this target
            &b"0.0001".to_vec(),
        )
        .expect("largest quantity parses");
    assert_eq!(created.quantity, usize::MAX);
    assert_eq!(created.price_per_unit, 10);
    assert_eq!(created.sales_tax, 1);
    assert_eq!(created.total_price, usize::MAX as u128 * 10 + 1);
    let r = store.add(
        &b"Widget".to_vec(),
        &b"18446744073709551616".to_vec(), // one past the largest usize
        &b"1".to_vec(),
    );
    assert!(matches!(r, Err(ValidationError::InvalidQuantity)));
    let created = store
        .add(&b"Widget".to_vec(), &b"1".to_vec(), &b"184467440737095".to_vec())
        .expect("largest whole price parses");
    assert_eq!(created.price_per_unit, 184467440737095 * SCALE);
    let r = store.add(&b"Widget".to_vec(), &b"1".to_vec(), &b"184467440737096".to_vec());
    assert!(matches!(r, Err(ValidationError::InvalidPrice)));
}

#[test]
fn store_survives_save_and_load() {
    let mut store = Store::new();
    store.add(&b"Widget".to_vec(), &b"5".to_vec(), &b"10.0".to_vec()).expect("valid");
    store.add(&b"Gadget".to_vec(), &b"2".to_vec(), &b"0.25".to_vec()).expect("valid");
    let doc = inventory_store::codec::encode_collection(store.products());
    let reloaded = Store::from_products(inventory_store::codec::load_collection(&Some(doc)));
    let before = store.list();
    let after = reloaded.list();
    assert_eq!(before.len(), after.len());
    for (b, a) in before.iter().zip(after.iter()) {
        assert_eq!(b.0, a.0);
        assert_eq!(b.1.product_type, a.1.product_type);
        assert_eq!(b.1.quantity, a.1.quantity);
        assert_eq!(b.1.price_per_unit, a.1.price_per_unit);
        assert_eq!(b.1.sales_tax, a.1.sales_tax);
        assert_eq!(b.1.total_price, a.1.total_price);
    }
}

#[test]
fn product_type_is_trimmed() {
    let mut store = Store::new();
    let created = store
        .add(&b"  Widget  ".to_vec(), &b"1".to_vec(), &b"1".to_vec())
        .expect("valid after trim");
    assert_eq!(created.product_type, b"Widget".to_vec());
    let r = store.add(&b"   ".to_vec(), &b"1".to_vec(), &b"1".to_vec());
    assert!(matches!(r, Err(ValidationError::EmptyField)));
}
