//! The cheap digest behind session hashes and unkeyed fingerprints.
use crate::text;
use vstd::prelude::*;
use vstd::string::*;
use vstd::utf8::*;

verus! {

pub const FNV_PRIME: u64 = 0x0000_0100_0000_01b3;

pub const FNV_OFFSET: u64 = 0xcbf2_9ce4_8422_2325;

pub const FNV_SECOND_SEED: u64 = 0x8422_2325_cbf2_9ce4;

/// The 64-bit FNV-1a hash of `bytes` from a given seed: each byte is mixed in
/// by exclusive or, and the result multiplied by the prime modulo 2^64.
pub open spec fn fnv(bytes: Seq<u8>, seed: u64) -> u64
    decreases bytes.len(),
{
    if bytes.len() == 0 {
        seed
    } else {
        let mixed = fnv(bytes.drop_last(), seed) ^ (bytes.last() as u64);
        ((mixed as nat * FNV_PRIME as nat) % 0x1_0000_0000_0000_0000) as u64
    }
}

pub fn fnv1a64_seed(bytes: &[u8], seed: u64) -> (hash: u64)
    ensures
        hash == fnv(bytes@, seed),
{
    let mut hash: u64 = seed;
    let mut i: usize = 0;
    assert(bytes@.take(0) =~= Seq::<u8>::empty());
    while i < bytes.len()
        invariant
            i <= bytes@.len(),
            hash == fnv(bytes@.take(i as int), seed),
        decreases bytes@.len() - i,
    {
        assert(bytes@.take(i as int + 1).drop_last() =~= bytes@.take(i as int));
        hash = hash ^ (bytes[i] as u64);
        hash = hash.wrapping_mul(FNV_PRIME);
        i = i + 1;
    }
    assert(bytes@.take(bytes@.len() as int) =~= bytes@);
    hash
}

pub fn fnv1a64(bytes: &[u8]) -> (hash: u64)
    ensures
        hash == fnv(bytes@, FNV_OFFSET),
{
    fnv1a64_seed(bytes, FNV_OFFSET)
}

/// Two hashes of `bytes` in hexadecimal.
pub open spec fn plain_fingerprint(bytes: Seq<u8>) -> Seq<char> {
    text::hex_fixed(fnv(bytes, FNV_OFFSET) as nat, 16) + text::hex_fixed(
        fnv(bytes, FNV_SECOND_SEED) as nat,
        16,
    )
}

pub fn fingerprint_bytes(bytes: &[u8]) -> (r: String)
    ensures
        r@ == plain_fingerprint(bytes@),
{
    let mut r = text::hex_fixed_of(fnv1a64(bytes), 16);
    let second = text::hex_fixed_of(fnv1a64_seed(bytes, FNV_SECOND_SEED), 16);
    r.append(second.as_str());
    r
}

/// What the fingerprint of a message is taken of: its role and its content,
/// with a zero byte between them.
pub open spec fn message_input(role: Seq<char>, content: Seq<char>) -> Seq<u8> {
    encode_utf8(role).push(0u8) + encode_utf8(content)
}

/// Appends `more` to `bytes`.
pub fn extend_bytes(bytes: &mut Vec<u8>, more: &[u8])
    ensures
        final(bytes)@ == old(bytes)@ + more@,
{
    let mut i: usize = 0;
    let ghost start = bytes@;
    assert(start + more@.take(0) =~= start);
    while i < more.len()
        invariant
            i <= more@.len(),
            bytes@ == start + more@.take(i as int),
        decreases more@.len() - i,
    {
        bytes.push(more[i]);
        i = i + 1;
        assert(bytes@ =~= start + more@.take(i as int));
    }
    assert(more@.take(more@.len() as int) =~= more@);
}

pub fn message_fingerprint_input(role: &str, content: &str) -> (bytes: Vec<u8>)
    ensures
        bytes@ == message_input(role@, content@),
{
    let mut bytes: Vec<u8> = role.as_bytes_vec();
    bytes.push(0);
    extend_bytes(&mut bytes, content.as_bytes());
    bytes
}

/// What the fingerprint of a tool result is taken of: the tool, its arguments
/// as JSON text, and the content, with zero bytes between them.
pub open spec fn tool_input(tool: Seq<char>, arguments: Seq<char>, content: Seq<char>) -> Seq<u8> {
    (encode_utf8(tool).push(0u8) + encode_utf8(arguments)).push(0u8) + encode_utf8(content)
}

pub fn tool_result_fingerprint_input(tool: &str, arguments: &str, content: &str) -> (bytes: Vec<u8>)
    ensures
        bytes@ == tool_input(tool@, arguments@, content@),
{
    let mut bytes: Vec<u8> = tool.as_bytes_vec();
    bytes.push(0);
    extend_bytes(&mut bytes, arguments.as_bytes());
    bytes.push(0);
    extend_bytes(&mut bytes, content.as_bytes());
    bytes
}

} // verus!
