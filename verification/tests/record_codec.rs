use laim::record::Record;

fn sample() -> Record {
    Record::new(7, 42, 123456789, 4, 5, 3)
}

#[test]
fn new_keeps_fields() {
    let r = sample();
    assert_eq!(r.position, 7);
    assert_eq!(r.score, 42);
    assert_eq!(r.millis, 123456789);
    assert_eq!(r.rows, 4);
    assert_eq!(r.columns, 5);
    assert_eq!(r.active, 3);
}

#[test]
fn bytes_round_trip() {
    let r = sample();
    let bytes = r.to_bytes();
    assert_eq!(bytes.len(), 36);
    assert_eq!(Record::from_bytes(&bytes), Some(r));
}

#[test]
fn bytes_layout_is_little_endian() {
    let r = Record::new(1, 0x0102, 0, 2, 3, 1);
    let bytes = r.to_bytes();
    assert_eq!(bytes[0], 1);
    assert_eq!(bytes[1], 0);
    assert_eq!(bytes[4], 0x02);
    assert_eq!(bytes[5], 0x01);
    assert_eq!(bytes[24], 2);
    assert_eq!(bytes[28], 3);
    assert_eq!(bytes[32], 1);
}

#[test]
fn from_bytes_rejects_wrong_length() {
    assert_eq!(Record::from_bytes(&[]), None);
    assert_eq!(Record::from_bytes(&[0u8; 35]), None);
    assert_eq!(Record::from_bytes(&[0u8; 37]), None);
}

#[test]
fn string_round_trip() {
    let r = sample();
    let s = r.to_string();
    assert_eq!(Record::from_str(&s), Some(r));
}

#[test]
fn to_string_is_unpadded_base64() {
    let s = Record::new(1, 2, 3, 3, 3, 2).to_string();
    assert_eq!(s, "AQAAAAIAAAADAAAAAAAAAAAAAAAAAAAAAwAAAAMAAAACAAAA");
    let s2 = sample().to_string();
    assert_eq!(s2, "BwAAACoAAAAVzVsHAAAAAAAAAAAAAAAABAAAAAUAAAADAAAA");
}

#[test]
fn from_str_rejects_garbage() {
    assert_eq!(Record::from_str(""), None);
    assert_eq!(Record::from_str("not base64!!"), None);
    // valid base64, wrong decoded length
    assert_eq!(Record::from_str("AQID"), None);
    // padded form is refused by the unpadded engine
    assert_eq!(
        Record::from_str("AQAAAAIAAAADAAAAAAAAAAAAAAAAAAAAAwAAAAMAAAACAAAA=="),
        None
    );
}

#[test]
fn large_millis_survives() {
    let r = Record::new(1, 1, u128::MAX, 2, 2, 1);
    assert_eq!(Record::from_bytes(&r.to_bytes()), Some(r));
    assert_eq!(Record::from_str(&r.to_string()), Some(r));
}
