use file_client::codec::{decode_content, decode_listing, encode_content};
use file_client::entities::FileContent;
use file_client::ops::list_lines;

#[test]
fn envelope_encodes_canonically() {
    let e = FileContent::new("x.bin".to_string(), vec![1, 2, 3]);
    assert_eq!(encode_content(&e), "{\"name\":\"x.bin\",\"content\":[1,2,3]}");
}

#[test]
fn empty_content_encodes_as_empty_array() {
    let e = FileContent::new("a".to_string(), vec![]);
    assert_eq!(encode_content(&e), "{\"name\":\"a\",\"content\":[]}");
}

#[test]
fn envelope_round_trips() {
    let e = FileContent::new("report.csv".to_string(), vec![0, 255, 7, 128]);
    let t = encode_content(&e);
    let d = decode_content(&t).unwrap();
    assert_eq!(d.name, "report.csv");
    assert_eq!(d.content, vec![0, 255, 7, 128]);
}

#[test]
fn envelope_round_trips_with_escapes() {
    let e = FileContent::new("we\"ird\\name".to_string(), vec![9]);
    let t = encode_content(&e);
    let d = decode_content(&t).unwrap();
    assert_eq!(d.name, "we\"ird\\name");
    assert_eq!(d.content, vec![9]);
}

#[test]
fn envelope_round_trips_empty() {
    let e = FileContent::new("a".to_string(), vec![]);
    let t = encode_content(&e);
    let d = decode_content(&t).unwrap();
    assert_eq!(d.name, "a");
    assert_eq!(d.content, Vec::<u8>::new());
}

#[test]
fn decode_content_reads_exact_envelope() {
    let d = decode_content("{\"name\":\"x.bin\",\"content\":[1,2,3]}").unwrap();
    assert_eq!(d.name, "x.bin");
    assert_eq!(d.content, vec![1, 2, 3]);
}

#[test]
fn decode_content_rejects_malformed_text() {
    assert!(decode_content("").is_err());
    assert!(decode_content("{not json").is_err());
    assert!(decode_content("{\"name\":\"x\"}").is_err());
    assert!(decode_content("{\"content\":[1]}").is_err());
    assert!(decode_content("{\"name\":\"x\",\"content\":[1,2,3]}x").is_err());
    assert!(decode_content("{\"name\":\"x\",\"content\":[1,]}").is_err());
}

#[test]
fn decode_content_rejects_values_above_byte_range() {
    assert!(decode_content("{\"name\":\"x\",\"content\":[256]}").is_err());
    assert!(decode_content("{\"name\":\"x\",\"content\":[255]}").is_ok());
    assert!(decode_content("{\"name\":\"x\",\"content\":[99999999999]}").is_err());
}

#[test]
fn decode_content_accepts_leading_zeros() {
    let d = decode_content("{\"name\":\"x\",\"content\":[007,0]}").unwrap();
    assert_eq!(d.content, vec![7, 0]);
}

#[test]
fn decode_listing_keeps_server_order() {
    let body = "[{\"id\":1,\"name\":\"a.txt\"},{\"id\":2,\"name\":\"b.txt\"}]";
    let files = decode_listing(body).unwrap();
    assert_eq!(files.len(), 2);
    assert_eq!(files[0].id, 1);
    assert_eq!(files[0].name, "a.txt");
    assert_eq!(files[1].id, 2);
    assert_eq!(files[1].name, "b.txt");
}

#[test]
fn listing_prints_two_lines_in_order() {
    let body = "[{\"id\":1,\"name\":\"a.txt\"},{\"id\":2,\"name\":\"b.txt\"}]";
    let files = decode_listing(body).unwrap();
    let lines = list_lines(&files);
    assert_eq!(lines.len(), 2);
    assert_eq!(lines[0], "1 - a.txt");
    assert_eq!(lines[1], "2 - b.txt");
}

#[test]
fn decode_listing_reads_empty_listing() {
    let files = decode_listing("[]").unwrap();
    assert!(files.is_empty());
}

#[test]
fn decode_listing_rejects_malformed_text() {
    assert!(decode_listing("{not json").is_err());
    assert!(decode_listing("").is_err());
    assert!(decode_listing("[{\"id\":1}]").is_err());
    assert!(decode_listing("[{\"name\":\"a\"}]").is_err());
    assert!(decode_listing("[{\"id\":1,\"name\":\"a\"},]").is_err());
    assert!(decode_listing("[{\"id\":1,\"name\":\"a\"}]x").is_err());
}

#[test]
fn decode_listing_respects_identifier_range() {
    let files = decode_listing("[{\"id\":-2147483648,\"name\":\"a\"}]").unwrap();
    assert_eq!(files[0].id, -2147483648);
    let files = decode_listing("[{\"id\":2147483647,\"name\":\"a\"}]").unwrap();
    assert_eq!(files[0].id, 2147483647);
    assert!(decode_listing("[{\"id\":2147483648,\"name\":\"a\"}]").is_err());
    assert!(decode_listing("[{\"id\":-2147483649,\"name\":\"a\"}]").is_err());
}
