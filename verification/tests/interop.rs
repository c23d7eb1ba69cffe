//! The wire text must interoperate with a general-purpose JSON
//! implementation: what the library writes parses as JSON with the
//! expected fields, and compact JSON written by one decodes.

use file_client::codec::{decode_listing, encode_content};
use file_client::entities::FileContent;

#[test]
fn envelope_text_is_valid_json() {
    let e = FileContent::new("x.bin".to_string(), vec![1, 2, 3]);
    let t = encode_content(&e);
    let v: serde_json::Value = serde_json::from_str(&t).unwrap();
    assert_eq!(v.get("name").unwrap().as_str().unwrap(), "x.bin");
    let arr = v.get("content").unwrap().as_array().unwrap();
    assert_eq!(arr.len(), 3);
    assert_eq!(arr[0].as_u64().unwrap(), 1);
    assert_eq!(arr[1].as_u64().unwrap(), 2);
    assert_eq!(arr[2].as_u64().unwrap(), 3);
}

#[test]
fn escaped_envelope_text_is_valid_json() {
    let e = FileContent::new("we\"ird\\name".to_string(), vec![]);
    let t = encode_content(&e);
    let v: serde_json::Value = serde_json::from_str(&t).unwrap();
    assert_eq!(v.get("name").unwrap().as_str().unwrap(), "we\"ird\\name");
    assert_eq!(v.get("content").unwrap().as_array().unwrap().len(), 0);
}

#[test]
fn compact_json_listing_decodes() {
    let mut m1 = serde_json::Map::new();
    m1.insert("id".to_string(), serde_json::Value::from(1));
    m1.insert("name".to_string(), serde_json::Value::from("a.txt"));
    let mut m2 = serde_json::Map::new();
    m2.insert("id".to_string(), serde_json::Value::from(2));
    m2.insert("name".to_string(), serde_json::Value::from("b.txt"));
    let v = serde_json::Value::Array(vec![
        serde_json::Value::Object(m1),
        serde_json::Value::Object(m2),
    ]);
    let body = serde_json::to_string(&v).unwrap();
    let files = decode_listing(&body).unwrap();
    assert_eq!(files.len(), 2);
    assert_eq!(files[0].id, 1);
    assert_eq!(files[0].name, "a.txt");
    assert_eq!(files[1].id, 2);
    assert_eq!(files[1].name, "b.txt");
}
