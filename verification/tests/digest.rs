use summdb::types::Digest;

fn text_of(b: u8) -> String {
    format!("sha256:{}", format!("{:02x}", b).repeat(32))
}

#[test]
fn digest_displays_as_lower_hex() {
    let mut arr = [0u8; 32];
    arr[0] = 0xab;
    arr[31] = 0x01;
    let s = Digest::from_array(arr).to_string();
    assert_eq!(s.len(), 71);
    assert!(s.starts_with("sha256:ab00"));
    assert!(s.ends_with("0001"));
}

#[test]
fn digest_text_round_trips() {
    for b in [0u8, 1, 0x7f, 0xff] {
        let d = Digest::from_array([b; 32]);
        assert_eq!(Digest::parse(&d.to_string()).unwrap(), d);
    }
    let mut arr = [0u8; 32];
    for (i, x) in arr.iter_mut().enumerate() {
        *x = (i * 7) as u8;
    }
    let d = Digest::from_array(arr);
    assert_eq!(Digest::parse(&d.to_string()).unwrap().as_bytes(), &arr);
}

#[test]
fn digest_parse_accepts_upper_hex() {
    let upper = format!("sha256:{}", "AB".repeat(32));
    assert_eq!(Digest::parse(&upper).unwrap(), Digest::from_array([0xab; 32]));
    assert_eq!(Digest::parse(&text_of(0x5c)).unwrap(), Digest::from_array([0x5c; 32]));
}

#[test]
fn digest_parse_errors() {
    assert_eq!(Digest::parse("md5:abc").unwrap_err(), "digest must start with 'sha256:': md5:abc");
    assert_eq!(Digest::parse("sha256:abc").unwrap_err(), "sha256 digest must be 64 hex chars: sha256:abc");
    let bad = format!("sha256:{}zz", "00".repeat(31));
    assert_eq!(
        Digest::parse(&bad).unwrap_err(),
        format!("invalid hex in digest {bad}: invalid digit found in string")
    );
}

#[test]
fn digest_parse_plus_sign_pair() {
    // A two-character field "+f" is read as the number 15, as from_str_radix does.
    let s = format!("sha256:+f{}", "00".repeat(31));
    let mut arr = [0u8; 32];
    arr[0] = 15;
    assert_eq!(Digest::parse(&s).unwrap(), Digest::from_array(arr));
}

#[test]
fn digest_from_slice() {
    let v = vec![3u8; 32];
    assert_eq!(Digest::from_slice(&v).unwrap(), Digest::from_array([3; 32]));
    assert_eq!(Digest::from_slice(&[1, 2]).unwrap_err(), "expected 32 bytes, got 2");
    assert_eq!(Digest::from_slice(&[0u8; 33]).unwrap_err(), "expected 32 bytes, got 33");
}

#[test]
fn hex_order_matches_byte_order() {
    let a = Digest::from_array([1; 32]);
    let b = Digest::from_array([2; 32]);
    assert!(a.to_string() < b.to_string());
    assert!(a.as_bytes() < b.as_bytes());
}
