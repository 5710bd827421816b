use summdb::keys::{
    layer_key, manifest_body_key, manifest_key, manifest_prefix, parse_repo_intern_reverse_key,
    parse_tag_key_suffix, repo_intern_forward_key, repo_intern_reverse_key, repo_intern_reverse_prefix,
    tag_key, tag_prefix,
};
use summdb::types::Digest;

fn digest(b: u8) -> Digest {
    Digest::from_array([b; 32])
}

#[test]
fn tag_key_layout() {
    let k = tag_key(0x0102_0304, "latest");
    assert_eq!(&k[..5], &[b'T', 1, 2, 3, 4]);
    assert_eq!(&k[5..], b"latest");
    assert_eq!(tag_prefix(0x0102_0304), vec![b'T', 1, 2, 3, 4]);
}

#[test]
fn manifest_and_body_keys() {
    let d = digest(7);
    let m = manifest_key(5, &d);
    assert_eq!(m.len(), 37);
    assert_eq!(&m[..5], &[b'M', 0, 0, 0, 5]);
    assert_eq!(&m[5..], &[7u8; 32]);
    let b = manifest_body_key(5, &d);
    assert_eq!(b[0], b'B');
    assert_eq!(&b[1..], &m[1..]);
    assert_eq!(manifest_prefix(5), vec![b'M', 0, 0, 0, 5]);
    let l = layer_key(&d);
    assert_eq!(l.len(), 33);
    assert_eq!(l[0], b'L');
}

#[test]
fn interner_keys_roundtrip() {
    assert_eq!(repo_intern_forward_key("library/alpine"), b"RIlibrary/alpine".to_vec());
    let k = repo_intern_reverse_key(258);
    assert_eq!(k, vec![b'I', b'R', 0, 0, 1, 2]);
    assert_eq!(parse_repo_intern_reverse_key(&k), Some(258));
    assert_eq!(repo_intern_reverse_prefix(), b"IR".to_vec());
    assert_eq!(parse_repo_intern_reverse_key(b"IR\x00\x00\x01"), None);
    assert_eq!(parse_repo_intern_reverse_key(b"RI\x00\x00\x01\x02"), None);
}

#[test]
fn tag_suffix_roundtrip() {
    let k = tag_key(9, "v1.2.3");
    assert_eq!(parse_tag_key_suffix(&k), Some("v1.2.3"));
    assert_eq!(parse_tag_key_suffix(b"T\x00\x00"), None);
    assert_eq!(parse_tag_key_suffix(b"M\x00\x00\x00\x09x"), None);
    assert_eq!(parse_tag_key_suffix(b"T\x00\x00\x00\x09\xff"), None);
    assert_eq!(parse_tag_key_suffix(b"T\x00\x00\x00\x09"), Some(""));
}

#[test]
fn keys_sort_by_digest_within_repo() {
    let a = manifest_key(1, &digest(1));
    let b = manifest_key(1, &digest(2));
    let c = manifest_key(2, &digest(0));
    assert!(a < b);
    assert!(b < c);
}
