//! Little-endian integers inside byte sequences.

use vstd::prelude::*;

verus! {

/// `256` to the power `n`.
pub open spec fn pow256(n: nat) -> nat
    decreases n,
{
    if n == 0 {
        1
    } else {
        256 * pow256((n - 1) as nat)
    }
}

/// The unsigned little-endian integer held by the `n` bytes of `s` that start at `i`.
pub open spec fn le_value(s: Seq<u8>, i: int, n: nat) -> nat
    decreases n,
{
    if n == 0 {
        0
    } else {
        s[i] as nat + 256 * le_value(s, i + 1, (n - 1) as nat)
    }
}

/// The `n` little-endian bytes that encode the low `8 * n` bits of `v`.
pub open spec fn le_bytes(v: nat, n: nat) -> Seq<u8>
    decreases n,
{
    if n == 0 {
        Seq::empty()
    } else {
        seq![(v % 256) as u8] + le_bytes(v / 256, (n - 1) as nat)
    }
}

/// `s` with the bytes from `at` on replaced by `b`; the length is unchanged when
/// `b` fits.
pub open spec fn splice(s: Seq<u8>, at: int, b: Seq<u8>) -> Seq<u8> {
    s.take(at) + b + s.skip(at + b.len())
}

pub proof fn lemma_pow256_facts()
    ensures
        pow256(1) == 0x100,
        pow256(2) == 0x1_0000,
        pow256(4) == 0x1_0000_0000,
        pow256(7) == 0x100_0000_0000_0000,
        pow256(8) == 0x1_0000_0000_0000_0000,
{
    reveal_with_fuel(pow256, 9);
}

pub proof fn lemma_pow256_mono(a: nat, b: nat)
    requires
        a <= b,
    ensures
        pow256(a) <= pow256(b),
        pow256(a) >= 1,
    decreases b,
{
    if b > 0 {
        lemma_pow256_mono(0, (b - 1) as nat);
        if a < b {
            lemma_pow256_mono(a, (b - 1) as nat);
        }
    }
}

pub proof fn lemma_le_value_bound(s: Seq<u8>, i: int, n: nat)
    ensures
        le_value(s, i, n) < pow256(n),
    decreases n,
{
    if n > 0 {
        lemma_le_value_bound(s, i + 1, (n - 1) as nat);
    }
}

/// `le_value` reads only the bytes in its window.
pub proof fn lemma_le_value_frame(s1: Seq<u8>, i1: int, s2: Seq<u8>, i2: int, n: nat)
    requires
        forall|k: int| 0 <= k < n ==> #[trigger] s1[i1 + k] == s2[i2 + k],
    ensures
        le_value(s1, i1, n) == le_value(s2, i2, n),
    decreases n,
{
    if n > 0 {
        assert(s1[i1 + 0] == s2[i2 + 0]);
        assert forall|k: int| 0 <= k < n - 1 implies #[trigger] s1[(i1 + 1) + k] == s2[(i2 + 1)
            + k] by {
            assert(s1[i1 + (k + 1)] == s2[i2 + (k + 1)]);
        }
        lemma_le_value_frame(s1, i1 + 1, s2, i2 + 1, (n - 1) as nat);
    }
}

pub proof fn lemma_le_bytes_len(v: nat, n: nat)
    ensures
        le_bytes(v, n).len() == n,
    decreases n,
{
    if n > 0 {
        lemma_le_bytes_len(v / 256, (n - 1) as nat);
    }
}

/// Decoding the encoding of `v` gives back `v` modulo `256^n`.
pub proof fn law_le_roundtrip(v: nat, n: nat)
    ensures
        le_value(le_bytes(v, n), 0, n) == v % pow256(n),
    decreases n,
{
    if n > 0 {
        let b = le_bytes(v, n);
        let rest = le_bytes(v / 256, (n - 1) as nat);
        lemma_le_bytes_len(v / 256, (n - 1) as nat);
        law_le_roundtrip(v / 256, (n - 1) as nat);
        assert forall|k: int| 0 <= k < n - 1 implies #[trigger] b[1 + k] == rest[0 + k] by {}
        lemma_le_value_frame(b, 1, rest, 0, (n - 1) as nat);
        lemma_pow256_mono(0, (n - 1) as nat);
        vstd::arithmetic::div_mod::lemma_mod_breakdown(v as int, 256, pow256((n - 1) as nat) as int);
    }
}

/// Encoding the integer read from a window gives back the window's bytes.
pub proof fn law_le_bytes_of_value(s: Seq<u8>, i: int, n: nat)
    requires
        0 <= i,
        i + n <= s.len(),
    ensures
        le_bytes(le_value(s, i, n), n) == s.subrange(i, i + n),
    decreases n,
{
    if n > 0 {
        law_le_bytes_of_value(s, i + 1, (n - 1) as nat);
        let x = le_value(s, i + 1, (n - 1) as nat);
        let v = le_value(s, i, n);
        assert(v % 256 == s[i] as nat);
        assert(v / 256 == x);
        assert(le_bytes(v, n) =~= s.subrange(i, i + n));
    }
}

/// The unsigned little-endian integer held by `n <= 8` bytes of `bytes` at `pos`.
pub fn read_le(bytes: &[u8], pos: usize, n: usize) -> (v: u64)
    requires
        n <= 8,
        pos + n <= bytes@.len(),
    ensures
        v == le_value(bytes@, pos as int, n as nat),
{
    let len = bytes.len();
    let mut acc: u64 = 0;
    let mut k: usize = n;
    proof {
        lemma_pow256_facts();
    }
    while k > 0
        invariant
            k <= n <= 8,
            pos + n <= bytes@.len(),
            len == bytes@.len(),
            acc == le_value(bytes@, pos + k, (n - k) as nat),
            acc < pow256((n - k) as nat),
            pow256(7) == 0x100_0000_0000_0000,
        decreases k,
    {
        k -= 1;
        proof {
            lemma_pow256_mono((n - k - 1) as nat, 7);
        }
        acc = acc * 256 + bytes[pos + k] as u64;
    }
    acc
}

/// Writes the `n <= 8` little-endian bytes of `v` into `buf` at `pos`.
pub fn write_le(buf: &mut Vec<u8>, pos: usize, v: u64, n: usize)
    requires
        n <= 8,
        pos + n <= old(buf)@.len(),
    ensures
        final(buf)@ == splice(old(buf)@, pos as int, le_bytes(v as nat, n as nat)),
        final(buf)@.len() == old(buf)@.len(),
{
    let ghost s0 = buf@;
    let len = buf.len();
    let mut x: u64 = v;
    let mut k: usize = 0;
    proof {
        lemma_le_bytes_len(v as nat, n as nat);
    }
    while k < n
        invariant
            k <= n <= 8,
            pos + n <= s0.len(),
            buf@.len() == s0.len(),
            len == s0.len(),
            le_bytes(v as nat, n as nat).len() == n,
            le_bytes(v as nat, n as nat) == buf@.subrange(pos as int, pos + k) + le_bytes(
                x as nat,
                (n - k) as nat,
            ),
            forall|j: int| 0 <= j < s0.len() && !(pos <= j < pos + k) ==> buf@[j] == s0[j],
        decreases n - k,
    {
        let ghost before = buf@;
        let b = (x % 256) as u8;
        buf.set(pos + k, b);
        proof {
            let tail = le_bytes(x as nat, (n - k) as nat);
            assert(tail == seq![b] + le_bytes((x / 256) as nat, (n - k - 1) as nat));
            assert(buf@.subrange(pos as int, pos + k + 1) =~= before.subrange(pos as int, pos + k)
                + seq![b]);
            assert(le_bytes(v as nat, n as nat) =~= buf@.subrange(pos as int, pos + k + 1)
                + le_bytes((x / 256) as nat, (n - k - 1) as nat));
        }
        x = x / 256;
        k += 1;
    }
    assert(buf@ =~= splice(s0, pos as int, le_bytes(v as nat, n as nat)));
}

} // verus!
