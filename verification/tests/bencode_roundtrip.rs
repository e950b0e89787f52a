use torrent_parser::bencode::Bencode;
use torrent_parser::decode::decode;

#[test]
fn integer_decodes() {
    let (v, used) = decode(b"i42e").unwrap();
    assert!(matches!(v, Bencode::Integer(42)));
    assert_eq!(used, 4);
}

#[test]
fn negative_integer_decodes() {
    let (v, used) = decode(b"i-7e").unwrap();
    assert!(matches!(v, Bencode::Integer(-7)));
    assert_eq!(used, 4);
}

#[test]
fn zero_decodes() {
    let (v, _) = decode(b"i0e").unwrap();
    assert!(matches!(v, Bencode::Integer(0)));
}

#[test]
fn integer_leading_zero_rejected() {
    assert!(decode(b"i01e").is_none());
}

#[test]
fn negative_zero_rejected() {
    assert!(decode(b"i-0e").is_none());
    assert!(decode(b"i-01e").is_none());
}

#[test]
fn empty_integer_rejected() {
    assert!(decode(b"ie").is_none());
    assert!(decode(b"i-e").is_none());
}

#[test]
fn extreme_integers() {
    let (v, _) = decode(b"i9223372036854775807e").unwrap();
    assert!(matches!(v, Bencode::Integer(i64::MAX)));
    let (v, _) = decode(b"i-9223372036854775808e").unwrap();
    assert!(matches!(v, Bencode::Integer(i64::MIN)));
    assert!(decode(b"i9223372036854775808e").is_none());
    assert!(decode(b"i-9223372036854775809e").is_none());
}

#[test]
fn byte_string_decodes() {
    let (v, used) = decode(b"4:spam").unwrap();
    assert_eq!(v.byte_string().unwrap(), b"spam".to_vec());
    assert_eq!(used, 6);
}

#[test]
fn empty_byte_string_decodes() {
    let (v, used) = decode(b"0:").unwrap();
    assert_eq!(v.byte_string().unwrap(), Vec::<u8>::new());
    assert_eq!(used, 2);
}

#[test]
fn string_length_leading_zero_rejected() {
    assert!(decode(b"01:a").is_none());
}

#[test]
fn truncated_byte_string_rejected() {
    assert!(decode(b"5:ab").is_none());
    assert!(decode(b"4:").is_none());
}

#[test]
fn list_keeps_order() {
    let (v, used) = decode(b"l4:spami42ee").unwrap();
    assert_eq!(used, 12);
    let mut items = v.list().unwrap();
    assert_eq!(items.len(), 2);
    assert_eq!(items.remove(0).byte_string().unwrap(), b"spam".to_vec());
    assert_eq!(items.remove(0).number().unwrap(), 42);
}

#[test]
fn empty_list_decodes() {
    let (v, used) = decode(b"le").unwrap();
    assert_eq!(v.list().unwrap().len(), 0);
    assert_eq!(used, 2);
}

#[test]
fn dictionary_keeps_order() {
    let (v, used) = decode(b"d3:cow3:moo4:spami7ee").unwrap();
    assert_eq!(used, 21);
    let mut entries = v.dict().unwrap();
    assert_eq!(entries.len(), 2);
    let (k0, v0) = entries.remove(0);
    let (k1, v1) = entries.remove(0);
    assert_eq!(k0, b"cow".to_vec());
    assert_eq!(v0.byte_string().unwrap(), b"moo".to_vec());
    assert_eq!(k1, b"spam".to_vec());
    assert_eq!(v1.number().unwrap(), 7);
}

#[test]
fn duplicate_keys_rejected() {
    assert!(decode(b"d3:cowi1e3:cowi2ee").is_none());
}

#[test]
fn dictionary_key_must_be_string() {
    assert!(decode(b"di1ei2ee").is_none());
}

#[test]
fn unknown_leading_byte_rejected() {
    assert!(decode(b"x").is_none());
    assert!(decode(b"").is_none());
}

#[test]
fn unterminated_list_rejected() {
    assert!(decode(b"li1e").is_none());
}

#[test]
fn trailing_bytes_are_left() {
    let (v, used) = decode(b"i5exyz").unwrap();
    assert!(matches!(v, Bencode::Integer(5)));
    assert_eq!(used, 3);
}

#[test]
fn nested_values_round_trip() {
    let bytes = b"d1:ad1:bli1ei-2eee1:c2:xye";
    let (v, used) = decode(bytes).unwrap();
    assert_eq!(used, bytes.len());
    let mut entries = v.dict().unwrap();
    assert_eq!(entries.len(), 2);
    let mut inner = entries.remove(0).1.dict().unwrap();
    let mut nums = inner.remove(0).1.list().unwrap();
    assert_eq!(nums.remove(0).number().unwrap(), 1);
    assert_eq!(nums.remove(0).number().unwrap(), -2);
    assert_eq!(entries.remove(0).1.byte_string().unwrap(), b"xy".to_vec());
}

#[test]
fn accessors_reject_other_variants() {
    assert!(Bencode::Integer(3).dict().is_none());
    assert!(Bencode::Integer(3).list().is_none());
    assert!(Bencode::Integer(3).byte_string().is_none());
    assert_eq!(Bencode::Integer(3).number().unwrap(), 3);
    assert!(Bencode::ByteString(b"x".to_vec()).number().is_none());
    assert!(Bencode::List(vec![]).dict().is_none());
    assert!(Bencode::Dictionary(vec![]).list().is_none());
}

#[test]
fn nesting_beyond_depth_cap_rejected() {
    // 3000 opened lists overrun the depth bound long before they end.
    let mut bytes = vec![b'l'; 3000];
    bytes.push(b'e');
    assert!(decode(&bytes).is_none());
}

#[test]
fn moderate_nesting_accepted() {
    let mut bytes = vec![b'l'; 100];
    bytes.extend_from_slice(&vec![b'e'; 100]);
    let (_, used) = decode(&bytes).unwrap();
    assert_eq!(used, 200);
}
