//! Hashing bytes to 1024-bit integers: the `expand_message_xmd`
//! construction over SHA-256, with a domain separation tag.

use sha2::{Digest, Sha256};
use vstd::prelude::*;
use crate::big_int::u1024::U1024;

verus! {

/// The SHA-256 digest of `data`, as the `sha2` crate computes it.
pub uninterp spec fn sha256(data: Seq<u8>) -> Seq<u8>;

/// The SHA-256 digest of `data`.
///
/// Wraps `sha2::Sha256::digest`: the result is the function's 32-byte
/// output for these bytes.
#[verifier::external_body]
fn sha256_digest(data: &[u8]) -> (r: Vec<u8>)
    ensures
        r@ == sha256(data@),
        r@.len() == 32,
{
    Sha256::digest(data).to_vec()
}

/// The tag under which [`U1024::from_hash`] hashes: `mathlib-U1024-XMD:SHA-256`.
pub open spec fn default_domain() -> Seq<u8> {
    seq![
        0x6du8, 0x61, 0x74, 0x68, 0x6c, 0x69, 0x62, 0x2d, 0x55, 0x31, 0x30, 0x32, 0x34, 0x2d,
        0x58, 0x4d, 0x44, 0x3a, 0x53, 0x48, 0x41, 0x2d, 0x32, 0x35, 0x36,
    ]
}

/// `H2C-OVERSIZE-DST-`: what a tag of more than 255 bytes is hashed under.
pub open spec fn oversize_prefix() -> Seq<u8> {
    seq![
        0x48u8, 0x32, 0x43, 0x2d, 0x4f, 0x56, 0x45, 0x52, 0x53, 0x49, 0x5a, 0x45, 0x2d, 0x44,
        0x53, 0x54, 0x2d,
    ]
}

/// The tag as it enters the expansion: itself if it has at most 255
/// bytes, else its digest under the oversize prefix.
pub open spec fn effective_domain(domain: Seq<u8>) -> Seq<u8> {
    if domain.len() > 255 {
        sha256(oversize_prefix() + domain)
    } else {
        domain
    }
}

/// The bytewise exclusive or of two strings of one length.
pub open spec fn xor_bytes(a: Seq<u8>, b: Seq<u8>) -> Seq<u8> {
    Seq::new(a.len(), |i: int| a[i] ^ b[i])
}

/// Block `i >= 1` of the expansion, from block 0 and the block before.
pub open spec fn next_block(b0: Seq<u8>, before: Seq<u8>, i: u8, tag: Seq<u8>) -> Seq<u8> {
    sha256(xor_bytes(b0, before) + seq![i] + tag)
}

/// The 128 bytes that `msg` expands to under `domain`: four chained
/// SHA-256 blocks over the length-suffixed tag.
pub open spec fn expand_message_spec(domain: Seq<u8>, msg: Seq<u8>) -> Seq<u8> {
    let dst = effective_domain(domain);
    let tag = dst.push(dst.len() as u8);
    let b0 = sha256(Seq::new(64, |i: int| 0u8) + msg + seq![0u8, 128u8, 0u8] + tag);
    let b1 = sha256(b0 + seq![1u8] + tag);
    let b2 = next_block(b0, b1, 2, tag);
    let b3 = next_block(b0, b2, 3, tag);
    let b4 = next_block(b0, b3, 4, tag);
    b1 + b2 + b3 + b4
}

/// The big-endian value of `len` bytes from position `at`.
pub open spec fn be_value(s: Seq<u8>, at: int, len: nat) -> nat
    decreases len,
{
    if len == 0 {
        0
    } else {
        be_value(s, at, (len - 1) as nat) * 256 + s[at + len - 1] as nat
    }
}

/// The limbs of the integer that 128 bytes denote, most significant
/// byte first: limb `j` is the word at byte `8 * (15 - j)`.
pub open spec fn limbs_of_bytes(s: Seq<u8>) -> Seq<u64> {
    Seq::new(16, |j: int| be_value(s, 8 * (15 - j), 8) as u64)
}

/// Appends `src` to `dst`.
fn append(dst: &mut Vec<u8>, src: &[u8])
    ensures
        final(dst)@ == old(dst)@ + src@,
{
    let ghost start = dst@;
    let mut i: usize = 0;
    while i < src.len()
        invariant
            i <= src@.len(),
            dst@ == start + src@.subrange(0, i as int),
        decreases src@.len() - i,
    {
        dst.push(src[i]);
        i += 1;
        assert(dst@ =~= start + src@.subrange(0, i as int));
    }
    assert(src@.subrange(0, src@.len() as int) =~= src@);
}

/// The big-endian word at position `at`.
fn be_word(s: &[u8], at: usize) -> (r: u64)
    requires
        at + 8 <= s@.len(),
    ensures
        r == be_value(s@, at as int, 8),
{
    reveal_with_fuel(be_value, 9);
    let w0: u64 = s[at] as u64;
    let w1: u64 = w0 * 256 + s[at + 1] as u64;
    let w2: u64 = w1 * 256 + s[at + 2] as u64;
    let w3: u64 = w2 * 256 + s[at + 3] as u64;
    let w4: u64 = w3 * 256 + s[at + 4] as u64;
    let w5: u64 = w4 * 256 + s[at + 5] as u64;
    let w6: u64 = w5 * 256 + s[at + 6] as u64;
    let w7: u64 = w6 * 256 + s[at + 7] as u64;
    w7
}

/// What `msg` expands to under `domain`.
pub fn expand_message(domain: &[u8], msg: &[u8]) -> (r: Vec<u8>)
    ensures
        r@ == expand_message_spec(domain@, msg@),
        r@.len() == 128,
{
    let mut dst: Vec<u8> = Vec::new();
    if domain.len() > 255 {
        let mut long: Vec<u8> = vec![
            0x48u8, 0x32, 0x43, 0x2d, 0x4f, 0x56, 0x45, 0x52, 0x53, 0x49, 0x5a, 0x45, 0x2d, 0x44,
            0x53, 0x54, 0x2d,
        ];
        assert(long@ =~= oversize_prefix());
        append(&mut long, domain);
        dst = sha256_digest(long.as_slice());
    } else {
        append(&mut dst, domain);
        assert(dst@ =~= domain@);
    }
    let ghost bare = dst@;
    let dst_len: u8 = dst.len() as u8;
    dst.push(dst_len);
    let ghost tag = dst@;
    assert(tag == bare.push(bare.len() as u8));

    let mut first: Vec<u8> = Vec::new();
    let mut i: usize = 0;
    while i < 64
        invariant
            i <= 64,
            first@ == Seq::new(i as nat, |k: int| 0u8),
        decreases 64 - i,
    {
        first.push(0);
        i += 1;
        assert(first@ =~= Seq::new(i as nat, |k: int| 0u8));
    }
    append(&mut first, msg);
    first.push(0);
    first.push(128);
    first.push(0);
    assert(first@ =~= Seq::new(64, |k: int| 0u8) + msg@ + seq![0u8, 128u8, 0u8]);
    append(&mut first, dst.as_slice());
    let b0 = sha256_digest(first.as_slice());

    let mut second: Vec<u8> = Vec::new();
    append(&mut second, b0.as_slice());
    second.push(1);
    assert(second@ =~= b0@ + seq![1u8]);
    append(&mut second, dst.as_slice());
    let b1 = sha256_digest(second.as_slice());
    let b2 = chain_block(&b0, &b1, 2, &dst);
    let b3 = chain_block(&b0, &b2, 3, &dst);
    let b4 = chain_block(&b0, &b3, 4, &dst);

    let mut out: Vec<u8> = Vec::new();
    append(&mut out, b1.as_slice());
    append(&mut out, b2.as_slice());
    append(&mut out, b3.as_slice());
    append(&mut out, b4.as_slice());
    assert(out@ =~= b1@ + b2@ + b3@ + b4@);
    out
}

/// Block `i` of the expansion.
fn chain_block(b0: &Vec<u8>, before: &Vec<u8>, i: u8, tag: &Vec<u8>) -> (r: Vec<u8>)
    requires
        b0@.len() == 32,
        before@.len() == 32,
    ensures
        r@ == next_block(b0@, before@, i, tag@),
        r@.len() == 32,
{
    let mut input: Vec<u8> = Vec::new();
    let mut k: usize = 0;
    while k < 32
        invariant
            k <= 32,
            b0@.len() == 32,
            before@.len() == 32,
            input@ == Seq::new(k as nat, |j: int| b0@[j] ^ before@[j]),
        decreases 32 - k,
    {
        input.push(b0[k] ^ before[k]);
        k += 1;
        assert(input@ =~= Seq::new(k as nat, |j: int| b0@[j] ^ before@[j]));
    }
    assert(input@ =~= xor_bytes(b0@, before@));
    input.push(i);
    assert(input@ =~= xor_bytes(b0@, before@) + seq![i]);
    append(&mut input, tag.as_slice());
    sha256_digest(input.as_slice())
}

impl U1024 {
    /// The integer that 128 bytes denote, most significant byte first.
    pub fn from_be_bytes(bytes: &[u8]) -> (r: Self)
        requires
            bytes@.len() == 128,
        ensures
            r.0@ == limbs_of_bytes(bytes@),
    {
        let mut limbs = [0u64; 16];
        let mut j: usize = 0;
        while j < 16
            invariant
                j <= 16,
                bytes@.len() == 128,
                forall|k: int| 0 <= k < j ==> limbs@[k] == be_value(bytes@, 8 * (15 - k), 8) as u64,
            decreases 16 - j,
        {
            limbs[j] = be_word(bytes, 8 * (15 - j));
            j += 1;
        }
        assert(limbs@ =~= limbs_of_bytes(bytes@));
        U1024(limbs)
    }

    /// The integer that `input` hashes to under the tag `domain`:
    /// deterministic, and separated by tag.
    pub fn from_hash_with_domain(domain: &[u8], input: &[u8]) -> (r: Self)
        ensures
            r.0@ == limbs_of_bytes(expand_message_spec(domain@, input@)),
    {
        let bytes = expand_message(domain, input);
        Self::from_be_bytes(bytes.as_slice())
    }

    /// The integer that `input` hashes to under the library's own tag.
    pub fn from_hash(input: &[u8]) -> (r: Self)
        ensures
            r.0@ == limbs_of_bytes(expand_message_spec(default_domain(), input@)),
    {
        let domain: Vec<u8> = vec![
            0x6du8, 0x61, 0x74, 0x68, 0x6c, 0x69, 0x62, 0x2d, 0x55, 0x31, 0x30, 0x32, 0x34, 0x2d,
            0x58, 0x4d, 0x44, 0x3a, 0x53, 0x48, 0x41, 0x2d, 0x32, 0x35, 0x36,
        ];
        assert(domain@ =~= default_domain());
        Self::from_hash_with_domain(domain.as_slice(), input)
    }
}

} // verus!
