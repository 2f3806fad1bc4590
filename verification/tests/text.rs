use flexi_cad::text::{push_decimal, push_escaped, push_hex, push_uuid};

#[test]
fn decimals() {
    let mut s = String::from("n=");
    push_decimal(&mut s, 0);
    assert_eq!(s, "n=0");
    let mut s = String::new();
    push_decimal(&mut s, 1234567890);
    assert_eq!(s, "1234567890");
    let mut s = String::new();
    push_decimal(&mut s, u128::MAX);
    assert_eq!(s, u128::MAX.to_string());
}

#[test]
fn escaping_as_a_quoted_string() {
    let mut s = String::new();
    push_escaped(&mut s, "C:\\drawings\\\"a\"\n\t\r\0\x01\x7f é");
    assert_eq!(s, "C:\\\\drawings\\\\\\\"a\\\"\\n\\t\\r\\0\\u{1}\\u{7f} é");
    let path = "C:\\x\"y\"\n";
    let mut t = String::new();
    push_escaped(&mut t, path);
    assert_eq!(format!("\"{}\"", t), format!("{:?}", path));
}

#[test]
fn hexadecimal() {
    let mut s = String::new();
    push_hex(&mut s, 0);
    push_hex(&mut s, 255);
    push_hex(&mut s, 0x10ffff);
    assert_eq!(s, "0ff10ffff");
}

#[test]
fn identifiers_are_written_as_uuids() {
    let mut s = String::new();
    push_uuid(&mut s, 0x936da01f9abd4d9d80c702af85c822a8);
    assert_eq!(s, "936da01f-9abd-4d9d-80c7-02af85c822a8");
    let mut s = String::from("id ");
    push_uuid(&mut s, 1);
    assert_eq!(s, "id 00000000-0000-0000-0000-000000000001");
    let n = uuid::Uuid::new_v4();
    let mut s = String::new();
    push_uuid(&mut s, n.as_u128());
    assert_eq!(s, format!("{:?}", n));
}
