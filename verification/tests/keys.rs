use quake3::error::Error;
use quake3::info::{Key, Value};

#[test]
fn key_keeps_its_bytes() {
    let key = Key::new(b"map".to_vec()).unwrap();
    assert_eq!(key.as_bytes(), b"map");
    assert_eq!(key.into_bytes(), b"map".to_vec());
}

#[test]
fn key_rejects_no_bytes() {
    assert_eq!(Key::new(Vec::new()), Err(Error::InvalidKey));
}

#[test]
fn key_rejects_the_delimiter() {
    assert_eq!(Key::new(b"\\".to_vec()), Err(Error::InvalidKey));
    assert_eq!(Key::new(b"ma\\p".to_vec()), Err(Error::InvalidKey));
    assert_eq!(Key::new(b"\\map".to_vec()), Err(Error::InvalidKey));
    assert_eq!(Key::new(b"map\\".to_vec()), Err(Error::InvalidKey));
}

#[test]
fn key_accepts_other_bytes() {
    assert!(Key::new(vec![0]).is_ok());
    assert!(Key::new(vec![0xff, b'/', b' ']).is_ok());
    assert!(Key::new(b"long name".to_vec()).is_ok());
}

#[test]
fn keys_are_equal_by_bytes() {
    let a = Key::new(b"map".to_vec()).unwrap();
    let b = Key::new(b"map".to_vec()).unwrap();
    let c = Key::new(b"Map".to_vec()).unwrap();
    let d = Key::new(b"ma".to_vec()).unwrap();
    assert_eq!(a, b);
    assert_ne!(a, c);
    assert_ne!(a, d);
}

#[test]
fn key_is_indexed_like_its_bytes() {
    let key = Key::new(b"fraglimit".to_vec()).unwrap();
    assert_eq!(key[0], b'f');
    assert_eq!(key[8], b't');
    assert_eq!(&key[..4], b"frag");
    assert_eq!(&key[4..], b"limit");
    assert_eq!(&key[..], b"fraglimit");
}

#[test]
fn value_keeps_its_bytes() {
    let value = Value::new(b"The Longest Yard".to_vec()).unwrap();
    assert_eq!(value.as_bytes(), b"The Longest Yard");
    assert_eq!(value.into_bytes(), b"The Longest Yard".to_vec());
}

#[test]
fn value_may_be_empty() {
    let value = Value::new(Vec::new()).unwrap();
    assert_eq!(value.as_bytes(), b"");
}

#[test]
fn value_rejects_the_delimiter() {
    assert_eq!(Value::new(b"\\".to_vec()), Err(Error::InvalidValue));
    assert_eq!(Value::new(b"a\\b".to_vec()), Err(Error::InvalidValue));
}

#[test]
fn value_accepts_bytes_that_are_no_text() {
    let value = Value::new(vec![0xff, 0xfe, 0x00]).unwrap();
    assert_eq!(value.as_bytes(), &[0xff, 0xfe, 0x00]);
}

#[test]
fn values_are_equal_by_bytes() {
    let a = Value::new(b"20".to_vec()).unwrap();
    let b = Value::new(b"20".to_vec()).unwrap();
    let c = Value::new(b"21".to_vec()).unwrap();
    assert_eq!(a, b);
    assert_ne!(a, c);
}

#[test]
fn value_is_indexed_like_its_bytes() {
    let value = Value::new(b"q3dm17".to_vec()).unwrap();
    assert_eq!(value[1], b'3');
    assert_eq!(&value[2..4], b"dm");
}
