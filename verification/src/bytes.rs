//! Little-endian byte images of unsigned numbers, with the arithmetic
//! facts the codec needs: the image has the requested length, reading it
//! back yields the number, and every byte string is the image of the
//! number it denotes.

use vstd::prelude::*;

verus! {

/// The little-endian byte image of `v`, exactly `n` bytes long
/// (low byte first; high bits beyond `n` bytes are cut off).
pub open spec fn le_bytes(v: nat, n: nat) -> Seq<u8>
    decreases n,
{
    if n == 0 {
        Seq::empty()
    } else {
        seq![(v % 256) as u8] + le_bytes(v / 256, (n - 1) as nat)
    }
}

/// The number a little-endian byte string denotes.
pub open spec fn from_le(s: Seq<u8>) -> nat
    decreases s.len(),
{
    if s.len() == 0 {
        0
    } else {
        (s[0] + 256 * from_le(s.skip(1))) as nat
    }
}

/// 256 to the `n`th power: the number of values `n` bytes can hold.
pub open spec fn pow256(n: nat) -> nat
    decreases n,
{
    if n == 0 {
        1
    } else {
        256 * pow256((n - 1) as nat)
    }
}

pub proof fn lemma_le_bytes_len(v: nat, n: nat)
    ensures
        le_bytes(v, n).len() == n,
    decreases n,
{
    if n > 0 {
        lemma_le_bytes_len(v / 256, (n - 1) as nat);
    }
}

pub proof fn lemma_pow256_pos(n: nat)
    ensures
        pow256(n) >= 1,
    decreases n,
{
    if n > 0 {
        lemma_pow256_pos((n - 1) as nat);
    }
}

pub proof fn lemma_pow256_mono(a: nat, b: nat)
    requires
        a <= b,
    ensures
        pow256(a) <= pow256(b),
    decreases b,
{
    if a < b {
        lemma_pow256_mono(a, (b - 1) as nat);
        lemma_pow256_pos((b - 1) as nat);
    }
}

pub proof fn lemma_from_le_bound(s: Seq<u8>)
    ensures
        from_le(s) < pow256(s.len()),
    decreases s.len(),
{
    if s.len() > 0 {
        lemma_from_le_bound(s.skip(1));
    }
}

/// Reading the image of `v` back gives `v`, whenever `v` fits in `n` bytes.
pub proof fn lemma_from_le_of_le_bytes(v: nat, n: nat)
    requires
        v < pow256(n),
    ensures
        from_le(le_bytes(v, n)) == v,
    decreases n,
{
    if n > 0 {
        lemma_le_bytes_len(v / 256, (n - 1) as nat);
        assert(le_bytes(v, n).skip(1) =~= le_bytes(v / 256, (n - 1) as nat));
        lemma_from_le_of_le_bytes(v / 256, (n - 1) as nat);
    }
}

/// Every byte string is the image of the number it denotes.
pub proof fn lemma_le_bytes_of_from_le(s: Seq<u8>)
    ensures
        le_bytes(from_le(s), s.len()) == s,
    decreases s.len(),
{
    if s.len() > 0 {
        lemma_le_bytes_of_from_le(s.skip(1));
        lemma_le_bytes_len(from_le(s), s.len());
        assert(le_bytes(from_le(s), s.len()) =~= s);
    }
}

/// Sixteen bytes hold exactly the values of a 128-bit number.
pub proof fn lemma_pow256_16()
    ensures
        pow256(16) == 0x100000000000000000000000000000000,
{
    reveal_with_fuel(pow256, 17);
}

/// Two numbers with the same `n`-byte image are equal.
pub proof fn lemma_le_bytes_injective(a: nat, b: nat, n: nat)
    requires
        a < pow256(n),
        b < pow256(n),
        le_bytes(a, n) == le_bytes(b, n),
    ensures
        a == b,
{
    lemma_from_le_of_le_bytes(a, n);
    lemma_from_le_of_le_bytes(b, n);
}

/// Builds the `n`-byte little-endian image of `v`.
pub fn le_vec(v: u128, n: usize) -> (out: Vec<u8>)
    ensures
        out@ == le_bytes(v as nat, n as nat),
{
    let mut out: Vec<u8> = Vec::new();
    let mut cur: u128 = v;
    let mut i: usize = 0;
    proof {
        assert(le_bytes(v as nat, n as nat) =~= out@ + le_bytes(cur as nat, (n - i) as nat));
    }
    while i < n
        invariant
            i <= n,
            out@.len() == i,
            le_bytes(v as nat, n as nat) == out@ + le_bytes(cur as nat, (n - i) as nat),
        decreases n - i,
    {
        let ghost prev = out@;
        let ghost pcur = cur as nat;
        out.push((cur % 256) as u8);
        cur = cur / 256;
        i = i + 1;
        proof {
            assert(le_bytes(pcur, (n - i + 1) as nat) == seq![(pcur % 256) as u8] + le_bytes(
                pcur / 256,
                (n - i) as nat,
            ));
            assert(prev + le_bytes(pcur, (n - i + 1) as nat) =~= out@ + le_bytes(
                cur as nat,
                (n - i) as nat,
            ));
        }
    }
    proof {
        lemma_le_bytes_len(v as nat, n as nat);
        assert(le_bytes(v as nat, n as nat) =~= out@);
    }
    out
}

/// Reads a little-endian byte string of at most 16 bytes back as a number.
pub fn le_val(b: &[u8]) -> (v: u128)
    requires
        b@.len() <= 16,
    ensures
        v as nat == from_le(b@),
{
    let n = b.len();
    let mut v: u128 = 0;
    let mut i: usize = n;
    proof {
        assert(b@.skip(n as int) =~= Seq::<u8>::empty());
        assert(pow256(0) == 1);
    }
    while i > 0
        invariant
            i <= n,
            n == b@.len(),
            n <= 16,
            v as nat == from_le(b@.skip(i as int)),
        decreases i,
    {
        proof {
            lemma_from_le_bound(b@.skip(i as int));
            lemma_pow256_mono((n - i + 1) as nat, 16);
            lemma_pow256_16();
            assert(b@.skip(i - 1)[0] == b@[i - 1]);
            assert(b@.skip(i - 1).skip(1) =~= b@.skip(i as int));
        }
        v = v * 256 + (b[i - 1] as u128);
        i = i - 1;
    }
    proof {
        assert(b@.skip(0) =~= b@);
    }
    v
}

} // verus!
