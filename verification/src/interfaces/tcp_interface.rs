//! Decoding of the little-endian byte fields that the controller sends.

use vstd::prelude::*;
use vstd::utf8::{valid_utf8, decode_utf8};
use vstd::slice::slice_to_vec;

verus! {

/// The unsigned number whose little-endian bytes are `s`.
pub open spec fn le_value(s: Seq<u8>) -> nat
    decreases s.len(),
{
    if s.len() == 0 {
        0
    } else {
        s[0] as nat + 256 * le_value(s.drop_first())
    }
}

/// 256 to the power `k`.
pub open spec fn pow256(k: nat) -> nat
    decreases k,
{
    if k == 0 {
        1
    } else {
        256 * pow256((k - 1) as nat)
    }
}

/// The value of `k` little-endian bytes is below `256^k`.
pub proof fn lemma_le_value_bound(s: Seq<u8>)
    ensures
        le_value(s) < pow256(s.len()),
    decreases s.len(),
{
    if s.len() > 0 {
        lemma_le_value_bound(s.drop_first());
        let r = le_value(s.drop_first());
        let p = pow256(s.drop_first().len());
        assert(s[0] as nat + 256 * r < 256 * p) by (nonlinear_arith)
            requires
                r < p,
                s[0] < 256,
        ;
    }
}

/// The `k` little-endian bytes of `x`, as `u64::to_le_bytes` writes them for
/// `k == 8`.
pub open spec fn le_bytes_of(x: nat, k: nat) -> Seq<u8>
    decreases k,
{
    if k == 0 {
        seq![]
    } else {
        seq![(x % 256) as u8] + le_bytes_of(x / 256, (k - 1) as nat)
    }
}

/// Reading back the little-endian bytes of a number gives the number: the
/// size prefix that the sender writes with `to_le_bytes` is what
/// `le_bytes_to_u64` decodes.
pub proof fn lemma_le_bytes_round_trip(x: nat, k: nat)
    requires
        x < pow256(k),
    ensures
        le_bytes_of(x, k).len() == k,
        le_value(le_bytes_of(x, k)) == x,
    decreases k,
{
    if k > 0 {
        let p = pow256((k - 1) as nat);
        assert(x / 256 < p) by (nonlinear_arith)
            requires
                x < 256 * p,
        ;
        lemma_le_bytes_round_trip(x / 256, (k - 1) as nat);
        let s = le_bytes_of(x, k);
        assert(s.drop_first() =~= le_bytes_of(x / 256, (k - 1) as nat));
        assert(s[0] == (x % 256) as u8);
        assert(x % 256 + 256 * (x / 256) == x) by (nonlinear_arith);
    }
}

/// The eight-byte little-endian length that precedes every message sent to
/// the controller.
pub fn message_size_prefix(len: usize) -> (bytes: Vec<u8>)
    ensures
        bytes@ == le_bytes_of(len as nat, 8),
        le_value(bytes@) == len,
{
    let mut bytes: Vec<u8> = Vec::new();
    let mut rest: u64 = len as u64;
    let mut i: usize = 0;
    while i < 8
        invariant
            i <= 8,
            le_bytes_of(len as nat, 8) == bytes@ + le_bytes_of(rest as nat, (8 - i) as nat),
        decreases 8 - i,
    {
        let ghost before = bytes@;
        proof {
            let k = (8 - i) as nat;
            assert(le_bytes_of(rest as nat, k) == seq![(rest % 256) as u8] + le_bytes_of(
                (rest / 256) as nat,
                (k - 1) as nat,
            ));
        }
        bytes.push((rest % 256) as u8);
        assert(bytes@ == before.push((rest % 256) as u8));
        assert(bytes@ + le_bytes_of((rest / 256) as nat, (8 - i - 1) as nat) =~= before + (seq![
            (rest % 256) as u8,
        ] + le_bytes_of((rest / 256) as nat, (8 - i - 1) as nat)));
        rest = rest / 256;
        i = i + 1;
    }
    assert(bytes@ + le_bytes_of(rest as nat, 0) =~= bytes@);
    proof {
        assert(pow256(8) == 0x1_0000_0000_0000_0000) by {
            reveal_with_fuel(pow256, 9);
        }
        lemma_le_bytes_round_trip(len as nat, 8);
    }
    bytes
}

/// The signed and unsigned readings of the same bytes agree modulo `2^64`.
pub proof fn lemma_le_signed_unsigned(s: Seq<u8>)
    requires
        s.len() == 8,
    ensures
        i64::MIN <= le_signed_value(s) <= i64::MAX,
        le_signed_value(s) == le_value(s) || le_signed_value(s) == le_value(s)
            - 0x1_0000_0000_0000_0000,
{
    lemma_le_value_bound(s);
    assert(pow256(8) == 0x1_0000_0000_0000_0000) by {
        reveal_with_fuel(pow256, 9);
    }
}

/// The two's complement reading of eight little-endian bytes.
pub open spec fn le_signed_value(s: Seq<u8>) -> int {
    if le_value(s) < 0x8000_0000_0000_0000 {
        le_value(s) as int
    } else {
        le_value(s) - 0x1_0000_0000_0000_0000
    }
}

/// The unsigned 64-bit number of eight little-endian bytes.
pub fn le_bytes_to_u64(slice: &[u8]) -> (r: u64)
    requires
        slice@.len() == 8,
    ensures
        r as nat == le_value(slice@),
{
    let mut acc: u64 = 0;
    let mut i: usize = 8;
    assert(pow256(8) == 0x1_0000_0000_0000_0000) by {
        reveal_with_fuel(pow256, 9);
    }
    while i > 0
        invariant
            i <= 8,
            slice@.len() == 8,
            acc as nat == le_value(slice@.subrange(i as int, 8)),
            pow256(8) == 0x1_0000_0000_0000_0000,
        decreases i,
    {
        let ghost rest = slice@.subrange(i as int, 8);
        let ghost next = slice@.subrange(i - 1, 8);
        proof {
            assert(next.drop_first() =~= rest);
            assert(next[0] == slice@[i - 1]);
            lemma_le_value_bound(next);
            lemma_pow256_mono(next.len(), 8);
        }
        acc = acc * 256 + slice[i - 1] as u64;
        i = i - 1;
    }
    assert(slice@.subrange(0, 8) =~= slice@);
    acc
}

/// Powers of 256 grow with the exponent.
proof fn lemma_pow256_mono(a: nat, b: nat)
    requires
        a <= b,
    ensures
        pow256(a) <= pow256(b),
    decreases b,
{
    if a < b {
        lemma_pow256_mono(a, (b - 1) as nat);
    }
}

/// The signed 64-bit number of eight little-endian bytes.
pub fn le_bytes_to_i64(slice: &[u8]) -> (r: i64)
    requires
        slice@.len() == 8,
    ensures
        r as int == le_signed_value(slice@),
{
    let u = le_bytes_to_u64(slice);
    if u <= 0x7fff_ffff_ffff_ffff {
        u as i64
    } else {
        let below: u64 = u64::MAX - u;
        -(below as i64) - 1
    }
}

/// `String::from_utf8` of std: succeeds exactly when the bytes are valid
/// UTF-8, and then holds the characters they encode.
#[verifier::external_body]
fn string_from_utf8(bytes: Vec<u8>) -> (r: Result<String, std::string::FromUtf8Error>)
    ensures
        r is Ok <==> valid_utf8(bytes@),
        r matches Ok(s) ==> s@ == decode_utf8(bytes@),
{
    String::from_utf8(bytes)
}

#[verifier::external_type_specification]
#[verifier::external_body]
pub struct ExFromUtf8Error(std::string::FromUtf8Error);

/// The text of UTF-8 encoded bytes.
pub fn le_bytes_to_string(slice: &[u8]) -> (s: String)
    requires
        valid_utf8(slice@),
    ensures
        s@ == decode_utf8(slice@),
{
    match string_from_utf8(slice_to_vec(slice)) {
        Ok(s) => s,
        Err(_) => {
            assert(false);
            String::new()
        },
    }
}

} // verus!
