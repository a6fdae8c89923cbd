//! Little-endian integer encoding used by the save-file records.
use vstd::prelude::*;

verus! {

/// `256` raised to the power `n`.
pub open spec fn pow256(n: nat) -> int
    decreases n,
{
    if n == 0 {
        1
    } else {
        256 * pow256((n - 1) as nat)
    }
}

/// The `n` low-order bytes of `v`, least significant first.
pub open spec fn le_bytes(v: int, n: nat) -> Seq<u8>
    decreases n,
{
    if n == 0 {
        Seq::empty()
    } else {
        seq![(v % 256) as u8] + le_bytes(v / 256, (n - 1) as nat)
    }
}

/// The unsigned value of a little-endian byte string.
pub open spec fn le_value(s: Seq<u8>) -> int
    decreases s.len(),
{
    if s.len() == 0 {
        0
    } else {
        s[0] + 256 * le_value(s.drop_first())
    }
}

/// The two's-complement bit pattern of a 32-bit signed value.
pub open spec fn i32_bits(x: i32) -> int {
    if x >= 0 {
        x as int
    } else {
        x + 0x1_0000_0000
    }
}

/// The signed 32-bit value of a bit pattern.
pub open spec fn i32_of_bits(u: int) -> int {
    if u < 0x8000_0000 {
        u
    } else {
        u - 0x1_0000_0000
    }
}

pub proof fn lemma_pow256_values()
    ensures
        pow256(0) == 1,
        pow256(1) == 0x100,
        pow256(2) == 0x1_0000,
        pow256(3) == 0x100_0000,
        pow256(4) == 0x1_0000_0000,
        pow256(5) == 0x100_0000_0000,
        pow256(6) == 0x1_0000_0000_0000,
        pow256(7) == 0x100_0000_0000_0000,
        pow256(8) == 0x1_0000_0000_0000_0000,
{
    reveal_with_fuel(pow256, 9);
}

pub proof fn lemma_le_bytes_len(v: int, n: nat)
    ensures
        le_bytes(v, n).len() == n,
    decreases n,
{
    if n > 0 {
        lemma_le_bytes_len(v / 256, (n - 1) as nat);
    }
}

/// Reading back the bytes of a value that fits gives the value.
pub proof fn lemma_le_round_trip(v: int, n: nat)
    requires
        0 <= v < pow256(n),
    ensures
        le_value(le_bytes(v, n)) == v,
        le_bytes(v, n).len() == n,
    decreases n,
{
    lemma_le_bytes_len(v, n);
    if n > 0 {
        lemma_le_round_trip(v / 256, (n - 1) as nat);
        let s = le_bytes(v, n);
        assert(s.drop_first() =~= le_bytes(v / 256, (n - 1) as nat));
    }
}

/// A byte string's value fits in as many bytes as it has.
pub proof fn lemma_le_value_bound(s: Seq<u8>)
    ensures
        0 <= le_value(s) < pow256(s.len()),
    decreases s.len(),
{
    if s.len() > 0 {
        lemma_le_value_bound(s.drop_first());
    }
}

/// Writing the value of a byte string gives the byte string back.
pub proof fn lemma_le_bytes_of_value(s: Seq<u8>)
    ensures
        le_bytes(le_value(s), s.len()) == s,
    decreases s.len(),
{
    if s.len() > 0 {
        lemma_le_bytes_of_value(s.drop_first());
        lemma_le_value_bound(s.drop_first());
        let v = le_value(s);
        assert(v % 256 == s[0]);
        assert(v / 256 == le_value(s.drop_first()));
        assert(le_bytes(v, s.len()) =~= s);
    }
}

pub proof fn lemma_i32_bits_round_trip(x: i32)
    ensures
        0 <= i32_bits(x) < 0x1_0000_0000,
        i32_of_bits(i32_bits(x)) == x,
{
}

/// Appends the `n` low-order bytes of `v`, least significant first.
pub fn push_le(out: &mut Vec<u8>, v: u64, n: usize)
    requires
        n <= 8,
    ensures
        final(out)@ == old(out)@ + le_bytes(v as int, n as nat),
{
    let ghost start = out@;
    let mut x = v;
    let mut i: usize = 0;
    proof {
        assert(start + le_bytes(v as int, n as nat) == out@ + le_bytes(x as int, n as nat));
    }
    while i < n
        invariant
            i <= n,
            out@ + le_bytes(x as int, (n - i) as nat) == start + le_bytes(v as int, n as nat),
        decreases n - i,
    {
        let ghost rest = (n - i - 1) as nat;
        proof {
            assert(le_bytes(x as int, (n - i) as nat) == seq![(x % 256) as u8] + le_bytes(
                x as int / 256,
                rest,
            ));
        }
        out.push((x % 256) as u8);
        proof {
            assert(out@ + le_bytes(x as int / 256, rest) =~= start + le_bytes(v as int, n as nat));
        }
        x = x / 256;
        i = i + 1;
    }
    proof {
        assert(le_bytes(x as int, 0) =~= Seq::<u8>::empty());
        assert(out@ =~= out@ + le_bytes(x as int, 0));
    }
}

/// Reads the little-endian value of the `n` bytes of `s` starting at `start`.
pub fn read_le(s: &[u8], start: usize, n: usize) -> (r: u64)
    requires
        n <= 8,
        start + n <= s@.len(),
    ensures
        r == le_value(s@.subrange(start as int, start + n)),
{
    let ghost sub = s@.subrange(start as int, start + n);
    let len = s.len();
    let mut acc: u64 = 0;
    let mut k: usize = n;
    proof {
        assert(sub.subrange(n as int, n as int) =~= Seq::<u8>::empty());
    }
    while k > 0
        invariant
            k <= n <= 8,
            start + n <= s@.len(),
            len == s@.len(),
            sub == s@.subrange(start as int, start + n),
            acc == le_value(sub.subrange(k as int, n as int)),
        decreases k,
    {
        proof {
            lemma_le_value_bound(sub.subrange(k as int, n as int));
            lemma_pow256_values();
            lemma_pow256_mono((n - k) as nat, 7);
            assert(sub.subrange(k - 1, n as int).drop_first() =~= sub.subrange(k as int, n as int));
            assert(sub.subrange(k as int, n as int).len() == n - k);
            assert(acc < 0x100_0000_0000_0000);
        }
        acc = acc * 256 + s[start + k - 1] as u64;
        k = k - 1;
    }
    proof {
        assert(sub.subrange(0, n as int) =~= sub);
    }
    acc
}

pub proof fn lemma_pow256_mono(a: nat, b: nat)
    requires
        a <= b,
    ensures
        pow256(a) <= pow256(b),
        pow256(a) >= 1,
    decreases b,
{
    if b > a {
        lemma_pow256_mono(a, (b - 1) as nat);
    } else if a > 0 {
        lemma_pow256_mono((a - 1) as nat, (a - 1) as nat);
    }
}

/// The bit pattern of a 32-bit signed value.
pub fn i32_to_bits(x: i32) -> (u: u32)
    ensures
        u == i32_bits(x),
{
    if x >= 0 {
        x as u32
    } else {
        (x as i64 + 0x1_0000_0000i64) as u32
    }
}

/// The signed 32-bit value of a bit pattern.
pub fn i32_from_bits(u: u32) -> (x: i32)
    ensures
        x == i32_of_bits(u as int),
{
    if u < 0x8000_0000 {
        u as i32
    } else {
        (u as i64 - 0x1_0000_0000i64) as i32
    }
}

} // verus!
