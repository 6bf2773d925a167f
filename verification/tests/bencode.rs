use mesh_share::bencode::{bencode_bytes, bencode_dict, bencode_int, bencode_list};

#[test]
fn bencode_int_writes_decimal() {
    assert_eq!(bencode_int(42), b"i42e".to_vec());
    assert_eq!(bencode_int(0), b"i0e".to_vec());
    assert_eq!(bencode_int(-7), b"i-7e".to_vec());
    assert_eq!(bencode_int(i64::MIN), b"i-9223372036854775808e".to_vec());
}

#[test]
fn bencode_bytes_prefixes_length() {
    assert_eq!(bencode_bytes(b"spam"), b"4:spam".to_vec());
    assert_eq!(bencode_bytes(b""), b"0:".to_vec());
}

#[test]
fn bencode_list_wraps_items() {
    assert_eq!(bencode_list(vec![bencode_bytes(b"a"), bencode_int(1)]), b"l1:ai1ee".to_vec());
    assert_eq!(bencode_list(vec![]), b"le".to_vec());
}

#[test]
fn bencode_dict_sorts_keys() {
    let d = bencode_dict(vec![("zeta", bencode_int(1)), ("alpha", bencode_bytes(b"x")), ("mid", bencode_int(2))]);
    assert_eq!(d, b"d5:alpha1:x3:midi2e4:zetai1ee".to_vec());
}

#[test]
fn bencode_dict_keeps_order_of_equal_keys() {
    let d = bencode_dict(vec![("k", bencode_int(1)), ("a", bencode_int(0)), ("k", bencode_int(2))]);
    assert_eq!(d, b"d1:ai0e1:ki1e1:ki2ee".to_vec());
}

#[test]
fn bencode_dict_orders_prefix_first() {
    let d = bencode_dict(vec![("ab", bencode_int(2)), ("a", bencode_int(1))]);
    assert_eq!(d, b"d1:ai1e2:abi2ee".to_vec());
}

#[test]
fn bencode_dict_ignores_entry_order() {
    let a = bencode_dict(vec![("piece length", bencode_int(4)), ("name", bencode_bytes(b"f")), ("length", bencode_int(9))]);
    let b = bencode_dict(vec![("length", bencode_int(9)), ("piece length", bencode_int(4)), ("name", bencode_bytes(b"f"))]);
    assert_eq!(a, b);
    assert_eq!(a, b"d6:lengthi9e4:name1:f12:piece lengthi4ee".to_vec());
}
