use encoded_uri::encoder::{Fragment, Path, Query};
use encoded_uri::estr::{Decode, EStr};
use encoded_uri::estring::EString;

#[test]
fn revalidate_constructed_slices() {
    let e = EStr::<Path>::new("a/b%20c");
    assert!(e.revalidate());
    let q = EStr::<Query>::new("k=v&x=%41");
    assert!(q.revalidate());
    let f = EStr::<Fragment>::new("");
    assert!(f.revalidate());
}

#[test]
fn try_new_accepts_valid() {
    assert!(EStr::<Path>::try_new("a/b/c").is_some());
    assert!(EStr::<Query>::try_new("k=v?x").is_some());
    assert!(EStr::<Path>::try_new("%C2%A1Hola%21").is_some());
}

#[test]
fn try_new_rejects_invalid() {
    assert!(EStr::<Path>::try_new("a b").is_none());
    assert!(EStr::<Path>::try_new("a%2").is_none());
    assert!(EStr::<Path>::try_new("a%GG").is_none());
    assert!(EStr::<Path>::try_new("caf\u{e9}").is_none());
    assert!(EStr::<Query>::try_new("a#b").is_none());
}

#[test]
fn decode_with_escapes() {
    let dec = EStr::<Path>::new("%C2%A1Hola%21").decode();
    assert!(matches!(dec, Decode::Owned(_)));
    assert_eq!(dec.as_bytes(), &[0xc2, 0xa1, 0x48, 0x6f, 0x6c, 0x61, 0x21]);
    assert_eq!(dec.into_string().unwrap(), "\u{a1}Hola!");
}

#[test]
fn decode_escape_free_is_borrowed_identity() {
    let e = EStr::<Path>::new("plain/text");
    let dec = e.decode();
    assert!(matches!(dec, Decode::Borrowed(_)));
    assert_eq!(dec.as_bytes(), b"plain/text");
    assert_eq!(e.decode().into_bytes(), b"plain/text".to_vec());
}

#[test]
fn decode_lower_case_hex() {
    let dec = EStr::<Query>::new("%2f%3A").decode();
    assert_eq!(dec.as_bytes(), b"/:");
}

#[test]
fn into_string_rejects_invalid_utf8() {
    let dec = EStr::<Query>::new("%FF").decode();
    let err = dec.into_string().unwrap_err();
    assert_eq!(err, vec![0xff]);
}

#[test]
fn into_string_lossy_replaces_invalid_utf8() {
    let dec = EStr::<Query>::new("a%FFb").decode();
    assert_eq!(dec.into_string_lossy(), "a\u{fffd}b");
}

#[test]
fn as_str_round_trips_text() {
    let e = EStr::<Path>::new("a/b%20c");
    assert_eq!(e.as_str(), "a/b%20c");
    assert_eq!(e.as_bytes(), b"a/b%20c");
    assert_eq!(e.len(), 7);
}

#[test]
fn encode_then_decode_round_trip() {
    let mut s = EString::<Query>::new();
    s.encode_bytes(b"a b%/\xFF\x00~end");
    let enc = s.as_estr();
    assert!(enc.revalidate());
    let dec = enc.decode();
    assert_eq!(dec.as_bytes(), b"a b%/\xFF\x00~end");
}

#[test]
fn encode_leaves_allowed_bytes_alone() {
    let mut s = EString::<Path>::new();
    s.encode_bytes(b"abc123-._~");
    assert_eq!(s.as_estr().as_str(), "abc123-._~");
}

#[test]
fn encode_uses_upper_case_hex() {
    let mut s = EString::<Path>::new();
    s.encode_bytes(b" ");
    assert_eq!(s.as_estr().as_str(), "%20");
    let mut t = EString::<Path>::new();
    t.encode_bytes(b"\xFF");
    assert_eq!(t.as_estr().as_str(), "%FF");
}

#[test]
fn estring_push_estr_appends() {
    let mut s = EString::<Path>::new();
    assert_eq!(s.len(), 0);
    s.push_estr(&EStr::<Path>::new("a/b"));
    s.push_estr(&EStr::<Path>::new("%20c"));
    assert_eq!(s.as_estr().as_str(), "a/b%20c");
}

#[test]
fn comparison_does_not_normalize() {
    let a = EStr::<Path>::new("%41");
    let b = EStr::<Path>::new("A");
    assert!(a != b);
    assert_eq!(a.decode().into_bytes(), b.decode().into_bytes());
}

#[test]
fn to_estring_copies_the_slice() {
    let e = EStr::<Path>::new("a/%41");
    let s = e.to_estring();
    assert_eq!(s.as_estr().as_str(), "a/%41");
    assert!(s.as_estr() == e);
}

#[test]
fn default_is_empty() {
    let e = <EStr<Path>>::default();
    assert_eq!(e.as_str(), "");
    assert_eq!(e.len(), 0);
}

#[test]
fn equality_is_raw_bytes() {
    let a = EStr::<Path>::new("a%2Fb");
    let b = EStr::<Path>::new("a%2Fb");
    assert!(a == b);
    let c = EStr::<Path>::new("a%2fb");
    assert!(a != c);
}
