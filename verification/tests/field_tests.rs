use mathlib::big_int::u1024::U1024;
use mathlib::field::config::{DefaultFieldConfig, FieldConfig};
use mathlib::field::element::FieldElement;

type Fe = FieldElement<DefaultFieldConfig>;

#[test]
fn field_roundtrip_small() {
    let a = Fe::from_u64(5);
    let b = Fe::from_u64(7);
    assert_eq!(a.to_u1024().0[0], 5);
    assert_eq!(a.add(b).to_u1024().0[0], 12);
    assert_eq!(a.mul(b).to_u1024().0[0], 35);
    assert_eq!(b.sub(a).to_u1024().0[0], 2);
    assert!(a.sub(a).is_zero());
    assert!(a.add(a.neg()).is_zero());
    assert_eq!(Fe::one().to_u1024().0[0], 1);
    let c = U1024::from_u64(3);
    assert_eq!((c + c).0[0], 6);
}

fn modulus() -> U1024 {
    DefaultFieldConfig::modulus()
}

#[test]
fn one_is_not_the_literal_one() {
    // The stored representative of 1 is R mod q; its value is 1.
    assert_eq!(Fe::one().to_u1024(), U1024::one());
    assert_eq!(Fe::zero().to_u1024(), U1024::zero());
    assert!(Fe::zero().is_zero());
    assert!(!Fe::one().is_zero());
}

#[test]
fn values_are_reduced() {
    let q = modulus();
    assert!(Fe::new(q).is_zero());
    let (q_plus_five, _) = q.carrying_add(&U1024::from_u64(5));
    assert_eq!(Fe::new(q_plus_five).to_u1024(), U1024::from_u64(5));
    let (q_minus_one, _) = q.borrowing_sub(&U1024::one());
    let top = Fe::new(q_minus_one);
    assert_eq!(top.to_u1024(), q_minus_one);
    // (q - 1) + 1 = 0, (q - 1)^2 = 1, -(1) = q - 1
    assert!(top.add(Fe::one()).is_zero());
    assert_eq!(top.mul(top).to_u1024(), U1024::one());
    assert_eq!(Fe::one().neg().to_u1024(), q_minus_one);
    assert_eq!(Fe::zero().sub(Fe::one()).to_u1024(), q_minus_one);
    assert!(Fe::zero().neg().is_zero());
}

#[test]
fn large_products() {
    // 2^64 * 2^64 = 2^128
    let mut a = U1024::zero();
    a.0[1] = 1;
    let mut expected = U1024::zero();
    expected.0[2] = 1;
    let x = Fe::new(a);
    assert_eq!(x.mul(x).to_u1024(), expected);
    // 2^1023 * 2 = 2^1024 = 1951 * 2^32 - 1 (mod q)
    let mut high = U1024::zero();
    high.0[15] = 1 << 63;
    let y = Fe::new(high).mul(Fe::from_u64(2));
    assert_eq!(y.to_u1024(), U1024::from_u64(1951 * (1u64 << 32) - 1));
}

#[test]
fn default_configuration_constants() {
    let q = DefaultFieldConfig::modulus();
    assert_eq!(q.0[0], 0xfffff86100000001);
    assert_eq!(q.0[15], u64::MAX);
    assert_eq!(DefaultFieldConfig::two_adicity(), 32);
    assert_eq!(q.0[0].wrapping_mul(DefaultFieldConfig::neg_inverse()), u64::MAX);
    // The root has order 2^32: 31 squarings give -1, one more gives 1.
    let mut r = Fe::new(DefaultFieldConfig::root_of_unity());
    for _ in 0..31 {
        r = r.mul(r);
    }
    assert_eq!(r.to_u1024(), Fe::one().neg().to_u1024());
    assert_eq!(r.mul(r).to_u1024(), U1024::one());
    // R^2 mod q = (1951 * 2^32 - 1)^2
    let c = Fe::from_u64(1951 * (1u64 << 32) - 1);
    assert_eq!(DefaultFieldConfig::radix_squared(), c.mul(c).to_u1024());
}

#[test]
fn representatives_are_montgomery_encodings() {
    // 1 is stored as R mod q = 1951 * 2^32 - 1, and 0 as 0.
    assert_eq!(Fe::one().montgomery_repr(), U1024::from_u64(1951 * (1u64 << 32) - 1));
    assert_eq!(Fe::zero().montgomery_repr(), U1024::zero());
    // 2 is stored as 2 R mod q.
    let r = Fe::one().montgomery_repr();
    assert_eq!(Fe::from_u64(2).montgomery_repr(), r + r);
    assert!(Fe::from_u64(2).montgomery_repr() != U1024::from_u64(2));
}

#[test]
fn full_width_arithmetic() {
    let a = U1024([
        0xf2a74de452e6b438, 0x6513270e269e0d37, 0x0c5c7fd0a6a3a450, 0xd23f0824128b2f33,
        0x1818e811892f902b, 0x9531985d5d9dc9f8, 0xe8e25d940ed90475, 0x36f675cc81e74ef5,
        0x1600a35a099950d8, 0x6b0d549b6f03675a, 0x3d9c172411e20b8f, 0x8d116ece1738f7d9,
        0x0f21ddb66cad4a26, 0x90c192cfd3ac94af, 0xf28c105d1fb17c23, 0xa170b33839263059,
    ]);
    let b = U1024([
        0x953f48f1a09f76b5, 0x0fd630f1f29d0da9, 0x95e60af593bd04cf, 0x0cb1e29c658cda14,
        0x3898d190f9ebdacc, 0x8e81973e0becd7b0, 0x2217beaddbc496cb, 0x6b4cb2424a23d596,
        0x8a6a63ec24ede6a4, 0x922766581e27a1c0, 0x8f6d05584ef8aa38, 0xae97ba94d0eda82f,
        0x1a61dbe22e44158b, 0x923a736994e3bf91, 0x301850c5a38fd547, 0x18f135d25f557203,
    ]);
    let x = Fe::new(a);
    let y = Fe::new(b);
    // Values computed independently with arbitrary-precision integers.
    assert_eq!(x.to_u1024(), U1024([
        0xf2a74de452e6b438, 0x6513270e269e0d37, 0x0c5c7fd0a6a3a450, 0xd23f0824128b2f33,
        0x1818e811892f902b, 0x9531985d5d9dc9f8, 0xe8e25d940ed90475, 0x36f675cc81e74ef5,
        0x1600a35a099950d8, 0x6b0d549b6f03675a, 0x3d9c172411e20b8f, 0x8d116ece1738f7d9,
        0x0f21ddb66cad4a26, 0x90c192cfd3ac94af, 0xf28c105d1fb17c23, 0xa170b33839263059,
    ]));
    assert_eq!((x * y).to_u1024(), U1024([
        0x43203790a1f30b0d, 0xb72b81eeebdca291, 0xda7b0b9d31ab80b2, 0x575108c4a257ee87,
        0xa9162cec4ded7075, 0x7d64895a0134c882, 0xe16f9c04a2d6790d, 0xb045e281d9644890,
        0x39091d4aa3a4d527, 0xfda444e8b8cfa1cf, 0x9fabe61d6296f681, 0x193e072125fbce1a,
        0x95a5e8585b8d6b24, 0x57d38ae0267ce5cf, 0x303b3a378eac9d5a, 0x88d0dde19ffeb869,
    ]));
    assert_eq!((x + y).to_u1024(), U1024([
        0x87e696d5f3862aed, 0x74e95800193b1ae1, 0xa2428ac63a60a91f, 0xdef0eac078180947,
        0x50b1b9a2831b6af7, 0x23b32f9b698aa1a8, 0x0afa1c41ea9d9b41, 0xa243280ecc0b248c,
        0xa06b07462e87377c, 0xfd34baf38d2b091a, 0xcd091c7c60dab5c7, 0x3ba92962e826a008,
        0x2983b9989af15fb2, 0x22fc063968905440, 0x22a46122c341516b, 0xba61e90a987ba25d,
    ]));
    assert_eq!((x - y).to_u1024(), U1024([
        0x5d6804f2b2473d83, 0x553cf61c3400ff8e, 0x767674db12e69f81, 0xc58d2587acfe551e,
        0xdf8016808f43b55f, 0x06b0011f51b0f247, 0xc6ca9ee633146daa, 0xcba9c38a37c3795f,
        0x8b963f6de4ab6a33, 0xd8e5ee4350dbc599, 0xae2f11cbc2e96156, 0xde79b439464b4fa9,
        0xf4c001d43e69349a, 0xfe871f663ec8d51d, 0xc273bf977c21a6db, 0x887f7d65d9d0be56,
    ]));
    assert_eq!((y - x).to_u1024(), U1024([
        0xa297f36e4db8c27e, 0xaac309e3cbff0071, 0x89898b24ed19607e, 0x3a72da785301aae1,
        0x207fe97f70bc4aa0, 0xf94ffee0ae4f0db8, 0x39356119cceb9255, 0x34563c75c83c86a0,
        0x7469c0921b5495cc, 0x271a11bcaf243a66, 0x51d0ee343d169ea9, 0x21864bc6b9b4b056,
        0x0b3ffe2bc196cb65, 0x0178e099c1372ae2, 0x3d8c406883de5924, 0x7780829a262f41a9,
    ]));
    assert_eq!((-x).to_u1024(), U1024([
        0x0d58aa7cad194bc9, 0x9aecd8f1d961f2c8, 0xf3a3802f595c5baf, 0x2dc0f7dbed74d0cc,
        0xe7e717ee76d06fd4, 0x6ace67a2a2623607, 0x171da26bf126fb8a, 0xc9098a337e18b10a,
        0xe9ff5ca5f666af27, 0x94f2ab6490fc98a5, 0xc263e8dbee1df470, 0x72ee9131e8c70826,
        0xf0de22499352b5d9, 0x6f3e6d302c536b50, 0x0d73efa2e04e83dc, 0x5e8f4cc7c6d9cfa6,
    ]));
    let (lo, hi) = a.widening_mul(&b);
    assert_eq!(lo, U1024([
        0xa2786749e2f73b98, 0x8a904729c9e472e5, 0xefd0b3db97c1502f, 0x6cc6385524f00838,
        0xbe0d29891af1ce08, 0xd1180161900934ad, 0x904f3e0a1d2eca8b, 0xfea37c0413c4a93d,
        0x9e1cacb16b9761ca, 0x57976978d9edd7e2, 0xb4ad22385d238fdb, 0xec07cc0aa58ef770,
        0x8a75d1c5fc879fb6, 0x9d6c2b53a2bfddac, 0xa52ac5a56ce53fe7, 0xc3b688c87f793990,
    ]));
    assert_eq!(hi, U1024([
        0xde46229661515719, 0xefc9be03d68cf9f5, 0xac5d1a25d894eebc, 0x7f6fb9541c22601e,
        0x53ffcaf30179c595, 0x23592744b9401e23, 0x98cea594deca963e, 0x0f534e14c9404a3a,
        0xf72e75ee93d29d0d, 0x727c4c80ec32fb4b, 0xe56b2f427bd7a3e1, 0x1fe1ad9aeb705503,
        0xc773e80599e4443b, 0x45bed75788983a8c, 0x4e16803a67a3c6a7, 0x0fbaadd6fcf5be43,
    ]));
    assert_eq!(a.shr1(), U1024([
        0xf953a6f229735a1c, 0x32899387134f069b, 0x862e3fe85351d228, 0xe91f841209459799,
        0x0c0c7408c497c815, 0xca98cc2eaecee4fc, 0xf4712eca076c823a, 0x1b7b3ae640f3a77a,
        0x0b0051ad04cca86c, 0xb586aa4db781b3ad, 0x9ece0b9208f105c7, 0x4688b7670b9c7bec,
        0x8790eedb3656a513, 0xc860c967e9d64a57, 0xf946082e8fd8be11, 0x50b8599c1c93182c,
    ]));
    assert_eq!(a.lt(&b), false);
}
