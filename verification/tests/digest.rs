use mathlib::big_int::digest::expand_message;
use mathlib::big_int::u1024::U1024;
use mathlib::field::config::{DefaultFieldConfig, FieldConfig};
use mathlib::field::element::FieldElement;

#[test]
fn test_digest_u1024_deterministic() {
    let input = b"test message";
    let hash1 = U1024::from_hash(input);
    let hash2 = U1024::from_hash(input);

    assert_eq!(hash1, hash2, "Hashing must be deterministic");
    assert_ne!(hash1, U1024::zero(), "Hash shouldn't be zero (probability is low)");
}

#[test]
fn test_digest_u1024_domain_separation() {
    let input = b"same message";
    let domain1 = b"app_v1";
    let domain2 = b"app_v2";

    let hash1 = U1024::from_hash_with_domain(domain1, input);
    let hash2 = U1024::from_hash_with_domain(domain2, input);

    assert_ne!(hash1, hash2, "Different domains must produce different hashes");
}

#[test]
fn test_digest_field_element() {
    // The field hash is the integer hash, encoded.
    let input = b"field element input";
    let fe: FieldElement<DefaultFieldConfig> = FieldElement::from_hash(input);

    let u_hash = U1024::from_hash(input);
    let fe_manual = FieldElement::<DefaultFieldConfig>::new(u_hash);

    assert_eq!(fe, fe_manual);
    assert_eq!(fe.to_u1024(), fe_manual.to_u1024());
}

#[test]
fn test_digest_vectors() {
    // The same input gives the same integer on every call.
    let input = b"mathlib";
    let hash = U1024::from_hash(input);

    let hash2 = U1024::from_hash(input);
    assert_eq!(hash, hash2);
}

#[test]
fn expansion_matches_published_vector() {
    // expand_message_xmd, SHA-256, 128 bytes, message "abc".
    let out = expand_message(b"QUUX-V01-CS02-with-expander-SHA256-128", b"abc");
    assert_eq!(out.len(), 128);
    assert_eq!(&out[..8], &[0xab, 0xba, 0x86, 0xa6, 0x12, 0x9e, 0x36, 0x6f]);
    assert_eq!(&out[120..], &[0x99, 0xb0, 0x50, 0x9b, 0x4c, 0x89, 0x5f, 0x40]);

    let v = U1024::from_hash_with_domain(b"QUUX-V01-CS02-with-expander-SHA256-128", b"abc");
    let expected: [u64; 16] = [
        0x99b0509b4c895f40,
        0xe8afc50303a22c0f,
        0x25cd1b941ad4ec65,
        0x058e77b7b72a2984,
        0xa6a1e60583e2cb00,
        0x0ca9dc8a1ac1c07e,
        0x2da7ec2b8221b17b,
        0xbbecbac65d747d3d,
        0x359a5c4e07985635,
        0x90f95b664ee0afa5,
        0xa73cf6a5674ef1d8,
        0x647e6c3163d40b76,
        0xfe4b32d6c7b6437a,
        0x0120d8996c88aee2,
        0xc877aab32fc4ffc7,
        0xabba86a6129e366f,
    ];
    assert_eq!(v.0, expected);
}

#[test]
fn long_tags_are_hashed_first() {
    let tag = vec![b'x'; 300];
    let v = U1024::from_hash_with_domain(&tag, b"abc");
    assert_eq!(v.0[0], 0xe744167eb153b8c8);
}

#[test]
fn default_tag_vector() {
    let v = U1024::from_hash(b"test message");
    assert_eq!(v.0[0], 0x2099da370cfa028f);
    assert_eq!(v, U1024::from_hash_with_domain(b"mathlib-U1024-XMD:SHA-256", b"test message"));
}

#[test]
fn bytes_are_read_most_significant_first() {
    let mut bytes = [0u8; 128];
    bytes[127] = 1;
    bytes[119] = 2;
    bytes[0] = 0x80;
    let v = U1024::from_be_bytes(&bytes);
    assert_eq!(v.0[0], 1);
    assert_eq!(v.0[1], 2);
    assert_eq!(v.0[15], 0x8000_0000_0000_0000);
}

#[test]
fn field_hash_is_reduced() {
    let fe: FieldElement<DefaultFieldConfig> = FieldElement::from_hash(b"abc");
    let q = DefaultFieldConfig::modulus();
    assert!(fe.to_u1024().lt(&q));
}
