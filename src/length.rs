use vstd::prelude::*;
use vstd::arithmetic::power::*;
use crate::header::{ByteLength, byte_count, max_count};

verus! {

/// `n` written big-endian in exactly `k` bytes (higher bytes dropped).
pub open spec fn be_bytes(n: nat, k: nat) -> Seq<u8>
    decreases k,
{
    if k == 0 {
        Seq::empty()
    } else {
        be_bytes(n / 256, (k - 1) as nat).push((n % 256) as u8)
    }
}

/// The unsigned number that `s` holds big-endian.
pub open spec fn be_value(s: Seq<u8>) -> nat
    decreases s.len(),
{
    if s.len() == 0 {
        0
    } else {
        be_value(s.drop_last()) * 256 + s.last() as nat
    }
}

/// A big-endian number of `k` bytes is below `256^k`.
pub proof fn lemma_be_value_bound(s: Seq<u8>)
    ensures
        be_value(s) < pow(256, s.len()),
    decreases s.len(),
{
    reveal(pow);
    if s.len() > 0 {
        lemma_be_value_bound(s.drop_last());
        let a = be_value(s.drop_last());
        let p = pow(256, (s.len() - 1) as nat);
        assert(a * 256 + s.last() < p * 256) by (nonlinear_arith)
            requires
                a < p,
                s.last() < 256,
        ;
    }
}

/// Writing `n` in `k` bytes and reading it back gives `n` when it fits.
pub proof fn lemma_be_round_trip(n: nat, k: nat)
    requires
        n < pow(256, k),
    ensures
        be_value(be_bytes(n, k)) == n,
        be_bytes(n, k).len() == k,
    decreases k,
{
    reveal(pow);
    if k > 0 {
        let q = n / 256;
        let p = pow(256, (k - 1) as nat);
        assert(q < p) by (nonlinear_arith)
            requires
                n < 256 * p,
                q == n / 256,
        ;
        lemma_be_round_trip(q, (k - 1) as nat);
        let s = be_bytes(n, k);
        assert(s.drop_last() =~= be_bytes(q, (k - 1) as nat));
        assert(n == q * 256 + n % 256);
    } else {
        assert(n == 0);
    }
}

/// The largest count of each width is one below a power of 256.
pub proof fn lemma_max_count(w: ByteLength)
    ensures
        max_count(w) + 1 == pow(256, byte_count(w)),
{
    reveal_with_fuel(pow, 9);
}

/// Writes `n` big-endian in as many bytes as `w` stands for.
pub fn encode_length(n: u64, w: ByteLength) -> (r: Vec<u8>)
    requires
        n <= max_count(w),
    ensures
        r@ == be_bytes(n as nat, byte_count(w)),
        be_value(r@) == n,
        r@.len() == byte_count(w),
{
    proof {
        lemma_max_count(w);
        lemma_be_round_trip(n as nat, byte_count(w));
    }
    be_encode(n, w.as_byte_count())
}

fn be_encode(n: u64, k: usize) -> (r: Vec<u8>)
    requires
        k <= 8,
    ensures
        r@ == be_bytes(n as nat, k as nat),
    decreases k,
{
    if k == 0 {
        Vec::new()
    } else {
        let mut v = be_encode(n / 256, k - 1);
        v.push((n % 256) as u8);
        v
    }
}

/// Reads the `k`-byte big-endian number that starts at `start`.
pub fn decode_length(s: &[u8], start: usize, k: usize) -> (r: u64)
    requires
        k <= 8,
        start + k <= s@.len(),
    ensures
        r == be_value(s@.subrange(start as int, start + k)),
{
    let len = s.len();
    let mut acc: u64 = 0;
    let mut i: usize = 0;
    while i < k
        invariant
            len == s@.len(),
            k <= 8,
            start + k <= s@.len(),
            i <= k,
            acc == be_value(s@.subrange(start as int, start + i)),
        decreases k - i,
    {
        proof {
            let t = s@.subrange(start as int, start + i);
            lemma_be_value_bound(t);
            lemma_pow_increases(256, i as nat, 7);
            reveal_with_fuel(pow, 8);
            assert(acc * 256 + 255 <= 0xFFFF_FFFF_FFFF_FFFF) by (nonlinear_arith)
                requires
                    acc < pow(256, i as nat),
                    pow(256, i as nat) <= pow(256, 7),
                    pow(256, 7) == 0x100_0000_0000_0000,
            ;
            assert(s@.subrange(start as int, start + i + 1).drop_last() =~= t);
        }
        acc = acc * 256 + s[start + i] as u64;
        i = i + 1;
    }
    acc
}

} // verus!
