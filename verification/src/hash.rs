//! A fixed 64-bit hash of a byte string (FNV-1a), and its text: sixteen
//! lowercase hexadecimal digits.

use vstd::prelude::*;

verus! {

/// The value from which the hash of every string starts.
pub const OFFSET_BASIS: u64 = 0xcbf29ce484222325;

/// The number by which the hash is multiplied after each byte.
pub const PRIME: u64 = 0x100000001b3;

/// The hash of `s`: starting from the offset basis, each byte in turn is
/// combined into the hash by exclusive or, and the hash multiplied by the
/// prime, both on 64 bits.
pub open spec fn fnv1a(s: Seq<u8>) -> u64
    decreases s.len(),
{
    if s.len() == 0 {
        0xcbf29ce484222325u64
    } else {
        (fnv1a(s.drop_last()) ^ (s.last() as u64)).wrapping_mul(0x100000001b3u64)
    }
}

/// The hexadecimal digit of a number below sixteen.
pub open spec fn hex_digit(d: int) -> u8 {
    if d < 10 {
        (48 + d) as u8
    } else {
        (87 + d) as u8
    }
}

/// The last `n` hexadecimal digits of `h`.
pub open spec fn hex(h: int, n: nat) -> Seq<u8>
    decreases n,
{
    if n == 0 {
        Seq::empty()
    } else {
        hex(h / 16, (n - 1) as nat).push(hex_digit(h % 16))
    }
}

/// The sixteen hexadecimal digits of the hash of `s`.
pub open spec fn digest(s: Seq<u8>) -> Seq<u8> {
    hex(fnv1a(s) as int, 16)
}

/// `hex` gives as many digits as asked for.
pub proof fn lemma_hex_len(h: int, n: nat)
    ensures
        hex(h, n).len() == n,
    decreases n,
{
    if n > 0 {
        lemma_hex_len(h / 16, (n - 1) as nat);
    }
}

/// The hash of `s`.
pub fn hash_bytes(s: &[u8]) -> (r: u64)
    ensures
        r == fnv1a(s@),
{
    let mut h: u64 = OFFSET_BASIS;
    let mut i: usize = 0;
    proof {
        assert(s@.take(0) =~= Seq::<u8>::empty());
    }
    while i < s.len()
        invariant
            i <= s.len(),
            h == fnv1a(s@.take(i as int)),
        decreases s.len() - i,
    {
        proof {
            let t = s@.take(i + 1);
            assert(t.drop_last() =~= s@.take(i as int));
            assert(t.last() == s@[i as int]);
        }
        h = (h ^ (s[i] as u64)).wrapping_mul(PRIME);
        i += 1;
    }
    proof {
        assert(s@.take(s.len() as int) =~= s@);
    }
    h
}

/// Appends the last `n` hexadecimal digits of `h`.
pub fn push_hex(out: &mut Vec<u8>, h: u64, n: u8)
    ensures
        final(out)@ == old(out)@ + hex(h as int, n as nat),
    decreases n,
{
    if n > 0 {
        push_hex(out, h / 16, n - 1);
        let d: u8 = (h % 16) as u8;
        let c: u8 = if d < 10 {
            48 + d
        } else {
            87 + d
        };
        out.push(c);
        proof {
            assert(out@ =~= old(out)@ + hex(h as int, n as nat));
        }
    } else {
        proof {
            assert(out@ =~= old(out)@ + hex(h as int, 0));
        }
    }
}

/// The sixteen hexadecimal digits of the hash of `s`.
pub fn to_hash_identifier(s: &[u8]) -> (r: Vec<u8>)
    ensures
        r@ == digest(s@),
        r@.len() == 16,
{
    let mut out: Vec<u8> = Vec::new();
    push_hex(&mut out, hash_bytes(s), 16);
    proof {
        lemma_hex_len(fnv1a(s@) as int, 16);
    }
    out
}

} // verus!
