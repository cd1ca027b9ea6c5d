use inventory_store::codec::decode_collection;
use inventory_store::codec::encode_collection;
use inventory_store::codec::load_collection;
use inventory_store::store::Store;

fn sample_store() -> Store {
    let mut store = Store::new();
    store.add(&b"Widget".to_vec(), &b"5".to_vec(), &b"10.0".to_vec()).expect("valid");
    store
        .add(&b"say \"hi\" \\ there".to_vec(), &b"2".to_vec(), &b"0.25".to_vec())
        .expect("valid");
    store
}

#[test]
fn encode_one_record_exact_document() {
    let mut store = Store::new();
    store.add(&b"Widget".to_vec(), &b"5".to_vec(), &b"10.0".to_vec()).expect("valid");
    let doc = encode_collection(store.products());
    let expected = "[{\"product_type\":\"Widget\",\"quantity\":5,\"price_per_unit\":10.00000,\"sales_tax\":1.00000,\"total_price\":51.00000}]";
    assert_eq!(doc, expected.as_bytes().to_vec());
}

#[test]
fn round_trip_preserves_collection() {
    let store = sample_store();
    let doc = encode_collection(store.products());
    let decoded = decode_collection(&doc).expect("an encoded collection decodes");
    let before = store.products();
    assert_eq!(decoded.len(), before.len());
    for (d, o) in decoded.iter().zip(before.iter()) {
        assert_eq!(d.product_type, o.product_type);
        assert_eq!(d.quantity, o.quantity);
        assert_eq!(d.price_per_unit, o.price_per_unit);
        assert_eq!(d.sales_tax, o.sales_tax);
        assert_eq!(d.total_price, o.total_price);
    }
}

#[test]
fn round_trip_preserves_empty_collection() {
    let store = Store::new();
    let doc = encode_collection(store.products());
    assert_eq!(doc, b"[]".to_vec());
    let decoded = decode_collection(&doc).expect("the empty document decodes");
    assert_eq!(decoded.len(), 0);
}

#[test]
fn corrupt_documents_do_not_decode() {
    for bad in [
        &b""[..],
        b"[",
        b"]",
        b"{}",
        b"[{}]",
        b"[]x",
        b"[{\"product_type\":\"a\"}]",
        b"not a document",
        b"[{\"product_type\":\"a\",\"quantity\":1,\"price_per_unit\":1.00000,\"sales_tax\":0.10000,\"total_price\":1.10000}",
    ] {
        assert!(decode_collection(&bad.to_vec()).is_none(), "{:?}", bad);
    }
}

#[test]
fn loading_nothing_or_garbage_yields_empty_collection() {
    assert_eq!(load_collection(&None).len(), 0);
    assert_eq!(load_collection(&Some(b"garbage".to_vec())).len(), 0);
    let store = sample_store();
    let doc = encode_collection(store.products());
    assert_eq!(load_collection(&Some(doc)).len(), 2);
}

#[test]
fn encoded_document_is_valid_json() {
    let store = sample_store();
    let doc = encode_collection(store.products());
    let value: serde_json::Value =
        serde_json::from_slice(&doc).expect("the document parses as ordinary JSON");
    let records = value.as_array().expect("a list");
    assert_eq!(records.len(), 2);
    assert_eq!(records[0]["product_type"].as_str(), Some("Widget"));
    assert_eq!(records[0]["quantity"].as_u64(), Some(5));
    assert_eq!(records[0]["price_per_unit"].as_f64(), Some(10.0));
    assert_eq!(records[0]["sales_tax"].as_f64(), Some(1.0));
    assert_eq!(records[0]["total_price"].as_f64(), Some(51.0));
    assert_eq!(records[1]["product_type"].as_str(), Some("say \"hi\" \\ there"));
    assert_eq!(records[1]["price_per_unit"].as_f64(), Some(0.25));
}
