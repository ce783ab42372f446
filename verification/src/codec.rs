//! Little-endian byte strings for the integers that cross the boundary to
//! user memory and to the disk.

use vstd::prelude::*;

verus! {

/// The `n` low bytes of `x`, the lowest first.
pub open spec fn le_bytes(x: int, n: nat) -> Seq<u8>
    decreases n,
{
    if n == 0 {
        Seq::empty()
    } else {
        seq![(x % 256) as u8] + le_bytes(x / 256, (n - 1) as nat)
    }
}

/// The number that a byte string spells, the lowest byte first.
pub open spec fn le_value(bytes: Seq<u8>) -> int
    decreases bytes.len(),
{
    if bytes.len() == 0 {
        0
    } else {
        bytes[0] as int + 256 * le_value(bytes.drop_first())
    }
}

/// 256 to the power `n`.
pub open spec fn pow256(n: nat) -> int
    decreases n,
{
    if n == 0 {
        1
    } else {
        256 * pow256((n - 1) as nat)
    }
}

/// `le_bytes` gives `n` bytes.
pub proof fn lemma_le_bytes_len(x: int, n: nat)
    ensures
        le_bytes(x, n).len() == n,
    decreases n,
{
    if n > 0 {
        lemma_le_bytes_len(x / 256, (n - 1) as nat);
    }
}

/// A number that fits in `n` bytes is read back from them.
pub proof fn lemma_le_round_trip(x: int, n: nat)
    requires
        0 <= x < pow256(n),
    ensures
        le_value(le_bytes(x, n)) == x,
    decreases n,
{
    if n > 0 {
        let rest = le_bytes(x / 256, (n - 1) as nat);
        let all = le_bytes(x, n);
        assert(all.drop_first() =~= rest);
        assert(0 <= x / 256 < pow256((n - 1) as nat)) by (nonlinear_arith)
            requires
                0 <= x < 256 * pow256((n - 1) as nat),
        ;
        lemma_le_round_trip(x / 256, (n - 1) as nat);
        assert(all[0] == (x % 256) as u8);
    }
}

/// The value of `n` bytes fits in `n` bytes, and its bytes are those.
pub proof fn lemma_le_value_bytes(bytes: Seq<u8>)
    ensures
        0 <= le_value(bytes) < pow256(bytes.len()),
        le_bytes(le_value(bytes), bytes.len()) == bytes,
    decreases bytes.len(),
{
    if bytes.len() > 0 {
        let rest = bytes.drop_first();
        lemma_le_value_bytes(rest);
        let v = le_value(bytes);
        let r = le_value(rest);
        assert(v == bytes[0] as int + 256 * r);
        assert(v / 256 == r && v % 256 == bytes[0] as int);
        assert(v < 256 * pow256(rest.len())) by (nonlinear_arith)
            requires
                v == bytes[0] as int + 256 * r,
                bytes[0] < 256,
                r < pow256(rest.len()),
                r >= 0,
        ;
        assert(le_bytes(v, bytes.len()) =~= bytes);
    }
}

/// The powers of 256 that the kernel's integers end at.
pub proof fn lemma_pow256()
    ensures
        pow256(0) == 1,
        pow256(1) == 0x100,
        pow256(2) == 0x1_0000,
        pow256(4) == 0x1_0000_0000,
        pow256(8) == 0x1_0000_0000_0000_0000,
{
    reveal_with_fuel(pow256, 9);
}

/// The `n` low bytes of `x`, the lowest first.
pub fn to_le_bytes(x: u64, n: usize) -> (bytes: Vec<u8>)
    ensures
        bytes@ == le_bytes(x as int, n as nat),
        bytes@.len() == n,
{
    let mut out: Vec<u8> = Vec::new();
    let mut rest: u64 = x;
    let mut i: usize = 0;
    proof {
        lemma_le_bytes_len(x as int, n as nat);
    }
    while i < n
        invariant
            i <= n,
            out@.len() == i,
            le_bytes(x as int, n as nat) == out@ + le_bytes(rest as int, (n - i) as nat),
        decreases n - i,
    {
        proof {
            let tail = le_bytes(rest as int, (n - i) as nat);
            assert(tail == seq![(rest as int % 256) as u8] + le_bytes(
                rest as int / 256,
                (n - i - 1) as nat,
            ));
            assert(out@.push((rest % 256) as u8) + le_bytes(rest as int / 256, (n - i - 1) as nat)
                =~= out@ + tail);
        }
        out.push((rest % 256) as u8);
        rest = rest / 256;
        i = i + 1;
    }
    assert(out@ + le_bytes(rest as int, 0) =~= out@);
    out
}

/// The number that at most eight bytes spell, the lowest byte first.
pub fn from_le_bytes(bytes: &Vec<u8>) -> (x: u64)
    requires
        bytes@.len() <= 8,
    ensures
        x == le_value(bytes@),
{
    let n: usize = bytes.len();
    let mut x: u64 = 0;
    let mut i: usize = n;
    proof {
        assert(bytes@.skip(n as int) =~= Seq::<u8>::empty());
        lemma_pow256();
    }
    while i > 0
        invariant
            i <= n,
            n == bytes@.len(),
            n <= 8,
            x == le_value(bytes@.skip(i as int)),
        decreases i,
    {
        proof {
            let tail = bytes@.skip(i as int - 1);
            assert(tail.drop_first() =~= bytes@.skip(i as int));
            assert(tail[0] == bytes@[i as int - 1]);
            lemma_le_value_bytes(bytes@.skip(i as int));
            lemma_pow_monotonic((n - i) as nat, 7);
            reveal_with_fuel(pow256, 9);
        }
        i = i - 1;
        x = x * 256 + bytes[i] as u64;
    }
    assert(bytes@.skip(0) =~= bytes@);
    x
}

/// The powers of 256 grow.
pub proof fn lemma_pow_monotonic(a: nat, b: nat)
    requires
        a <= b,
    ensures
        0 < pow256(a) <= pow256(b),
    decreases b,
{
    if a < b {
        lemma_pow_monotonic(a, (b - 1) as nat);
    } else if a > 0 {
        lemma_pow_monotonic((a - 1) as nat, (b - 1) as nat);
    }
}

/// Whether two byte strings are the same.
pub fn bytes_eq(a: &Vec<u8>, b: &Vec<u8>) -> (same: bool)
    ensures
        same == (a@ == b@),
{
    if a.len() != b.len() {
        return false;
    }
    let mut i: usize = 0;
    while i < a.len()
        invariant
            i <= a@.len(),
            a@.len() == b@.len(),
            forall|j: int| 0 <= j < i ==> a@[j] == b@[j],
        decreases a@.len() - i,
    {
        if a[i] != b[i] {
            return false;
        }
        i = i + 1;
    }
    assert(a@ =~= b@);
    true
}

/// The signed number that the bits of `x` stand for, in two's
/// complement: `x` itself as far as signed numbers go, and below zero
/// from there on, with the largest `x` for -1.
pub open spec fn signed_of(x: usize) -> int {
    if x <= isize::MAX {
        x as int
    } else {
        x - usize::MAX - 1
    }
}

/// Reads a register as a signed number.
pub fn to_signed(x: usize) -> (r: isize)
    ensures
        r == signed_of(x),
{
    if x <= isize::MAX as usize {
        x as isize
    } else {
        let below: usize = usize::MAX - x;
        -(below as isize) - 1
    }
}

/// The number that the low 32 bits of `x` stand for.
pub open spec fn low32_of(x: usize) -> int {
    x as int % 0x1_0000_0000
}

/// Reads the low 32 bits of a register.
pub fn to_low32(x: usize) -> (r: u32)
    ensures
        r == low32_of(x),
{
    let wide: u64 = x as u64;
    (wide % 0x1_0000_0000) as u32
}

/// The signed number that the low 32 bits of `x` stand for, in two's
/// complement.
pub open spec fn signed32_of(x: usize) -> int {
    if low32_of(x) < 0x8000_0000 {
        low32_of(x)
    } else {
        low32_of(x) - 0x1_0000_0000
    }
}

/// Reads the low 32 bits of a register as a signed number.
pub fn to_signed32(x: usize) -> (r: i32)
    ensures
        r == signed32_of(x),
{
    let low: u32 = to_low32(x);
    if low < 0x8000_0000 {
        low as i32
    } else {
        let below: u32 = 0xffff_ffff - low;
        -(below as i32) - 1
    }
}

} // verus!
