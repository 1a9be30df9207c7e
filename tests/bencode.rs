use bittorrent_peer::bencode::{decode_bencoded_value, BencodeValue};

fn integer(v: &BencodeValue) -> i64 {
    match v {
        BencodeValue::Integer(n) => *n,
        other => panic!("not an integer: {:?}", other),
    }
}

fn bytes(v: &BencodeValue) -> &[u8] {
    match v {
        BencodeValue::Bytes(b) => b,
        other => panic!("not a byte string: {:?}", other),
    }
}

#[test]
fn decodes_integers() {
    let (v, n) = decode_bencoded_value(b"i52e").unwrap();
    assert_eq!((integer(&v), n), (52, 4));
    let (v, n) = decode_bencoded_value(b"i-43erest").unwrap();
    assert_eq!((integer(&v), n), (-43, 5));
    let (v, _) = decode_bencoded_value(b"i-9223372036854775808e").unwrap();
    assert_eq!(integer(&v), i64::MIN);
    let (v, _) = decode_bencoded_value(b"i9223372036854775807e").unwrap();
    assert_eq!(integer(&v), i64::MAX);
}

#[test]
fn rejects_bad_integers() {
    assert!(decode_bencoded_value(b"i52").is_none());
    assert!(decode_bencoded_value(b"ie").is_none());
    assert!(decode_bencoded_value(b"i-e").is_none());
    assert!(decode_bencoded_value(b"i1x2e").is_none());
    assert!(decode_bencoded_value(b"i9223372036854775808e").is_none());
}

#[test]
fn decodes_byte_strings() {
    let (v, n) = decode_bencoded_value(b"5:hello").unwrap();
    assert_eq!(bytes(&v), b"hello");
    assert_eq!(n, 7);
    let (v, n) = decode_bencoded_value(b"0:").unwrap();
    assert!(bytes(&v).is_empty());
    assert_eq!(n, 2);
    assert!(decode_bencoded_value(b"5:hi").is_none());
    assert!(decode_bencoded_value(b"5hello").is_none());
}

#[test]
fn decodes_nested_lists() {
    let (v, n) = decode_bencoded_value(b"li25el3:fooi-43ee5:helloe").unwrap();
    assert_eq!(n, 25);
    match v {
        BencodeValue::List(items) => {
            assert_eq!(items.len(), 3);
            assert_eq!(integer(&items[0]), 25);
            match &items[1] {
                BencodeValue::List(inner) => {
                    assert_eq!(bytes(&inner[0]), b"foo");
                    assert_eq!(integer(&inner[1]), -43);
                }
                other => panic!("not a list: {:?}", other),
            }
            assert_eq!(bytes(&items[2]), b"hello");
        }
        other => panic!("not a list: {:?}", other),
    }
}

#[test]
fn decodes_dictionaries() {
    let (v, n) = decode_bencoded_value(b"d3:foo3:bar5:helloi52ee").unwrap();
    assert_eq!(n, 23);
    match v {
        BencodeValue::Dict(entries) => {
            assert_eq!(entries.len(), 2);
            assert_eq!(entries[0].0, b"foo".to_vec());
            assert_eq!(bytes(&entries[0].1), b"bar");
            assert_eq!(entries[1].0, b"hello".to_vec());
            assert_eq!(integer(&entries[1].1), 52);
        }
        other => panic!("not a dictionary: {:?}", other),
    }
}

#[test]
fn rejects_malformed_containers() {
    assert!(decode_bencoded_value(b"l5:hello").is_none());
    assert!(decode_bencoded_value(b"di1e3:fooe").is_none());
    assert!(decode_bencoded_value(b"d3:fooe").is_none());
    assert!(decode_bencoded_value(b"x").is_none());
    assert!(decode_bencoded_value(b"").is_none());
}

#[test]
fn empty_containers() {
    let (v, n) = decode_bencoded_value(b"le").unwrap();
    assert!(matches!(v, BencodeValue::List(ref l) if l.is_empty()));
    assert_eq!(n, 2);
    let (v, _) = decode_bencoded_value(b"de").unwrap();
    assert!(matches!(v, BencodeValue::Dict(ref d) if d.is_empty()));
}
