//! Fixed-width integers as bytes, and ASCII case folding.

use vstd::prelude::*;
use crate::order::{strictly_below, strictly_below_at, strictly_below_extends};

verus! {

/// 256 to the power `n`.
pub open spec fn pow256(n: nat) -> nat
    decreases n,
{
    if n == 0 {
        1
    } else {
        256 * pow256((n - 1) as nat)
    }
}

/// The `n` low-order bytes of `x`, most significant first.
pub open spec fn be_bytes(x: nat, n: nat) -> Seq<u8>
    decreases n,
{
    if n == 0 {
        Seq::empty()
    } else {
        be_bytes(x / 256, (n - 1) as nat).push((x % 256) as u8)
    }
}

/// The number whose bytes, most significant first, are `s`.
pub open spec fn be_value(s: Seq<u8>) -> nat
    decreases s.len(),
{
    if s.len() == 0 {
        0
    } else {
        be_value(s.drop_last()) * 256 + s.last() as nat
    }
}

/// The `n` low-order bytes of `x`, least significant first.
pub open spec fn le_bytes(x: nat, n: nat) -> Seq<u8> {
    be_bytes(x, n).reverse()
}

/// The number whose bytes, least significant first, are `s`.
pub open spec fn le_value(s: Seq<u8>) -> nat {
    be_value(s.reverse())
}

/// The two's complement of a signed number.
pub open spec fn twos_complement(x: i64) -> nat {
    if x >= 0 {
        x as nat
    } else {
        (x + 0x1_0000_0000_0000_0000) as nat
    }
}

pub proof fn be_bytes_len(x: nat, n: nat)
    ensures
        be_bytes(x, n).len() == n,
    decreases n,
{
    if n > 0 {
        be_bytes_len(x / 256, (n - 1) as nat);
    }
}

/// Reading back the bytes of a number gives the number.
pub proof fn be_round_trip(x: nat, n: nat)
    requires
        x < pow256(n),
    ensures
        be_value(be_bytes(x, n)) == x,
    decreases n,
{
    if n > 0 {
        be_round_trip(x / 256, (n - 1) as nat);
        assert(be_bytes(x, n).drop_last() =~= be_bytes(x / 256, (n - 1) as nat));
    }
}

/// Writing the number that was read gives the bytes.
pub proof fn be_value_round_trip(s: Seq<u8>)
    ensures
        be_value(s) < pow256(s.len()),
        be_bytes(be_value(s), s.len()) == s,
    decreases s.len(),
{
    if s.len() > 0 {
        be_value_round_trip(s.drop_last());
        assert(be_bytes(be_value(s), s.len()) =~= s.drop_last().push(s.last()));
        assert(s.drop_last().push(s.last()) =~= s);
    } else {
        assert(be_bytes(0, 0) =~= s);
    }
}

pub proof fn le_round_trip(x: nat, n: nat)
    requires
        x < pow256(n),
    ensures
        le_bytes(x, n).len() == n,
        le_value(le_bytes(x, n)) == x,
{
    be_bytes_len(x, n);
    be_round_trip(x, n);
    assert(be_bytes(x, n).reverse().reverse() =~= be_bytes(x, n));
}

pub proof fn le_value_round_trip(s: Seq<u8>)
    ensures
        le_value(s) < pow256(s.len()),
        le_bytes(le_value(s), s.len()) == s,
{
    be_value_round_trip(s.reverse());
    assert(s.reverse().reverse() =~= s);
}

/// The byte order of equally wide big-endian numbers is their numeric order.
pub proof fn be_bytes_ordered(x: nat, y: nat, n: nat)
    requires
        x < y,
        y < pow256(n),
    ensures
        strictly_below(be_bytes(x, n), be_bytes(y, n)),
    decreases n,
{
    if n > 0 {
        let m = (n - 1) as nat;
        let a = be_bytes(x / 256, m);
        let b = be_bytes(y / 256, m);
        if x / 256 < y / 256 {
            be_bytes_ordered(x / 256, y / 256, m);
            strictly_below_extends(a, b, seq![(x % 256) as u8], seq![(y % 256) as u8]);
            assert(a + seq![(x % 256) as u8] =~= be_bytes(x, n));
            assert(b + seq![(y % 256) as u8] =~= be_bytes(y, n));
        } else {
            be_bytes_len(x / 256, m);
            assert(strictly_below_at(be_bytes(x, n), be_bytes(y, n), m as int));
        }
    }
}

pub proof fn pow256_values()
    ensures
        pow256(1) == 0x100,
        pow256(2) == 0x1_0000,
        pow256(4) == 0x1_0000_0000,
        pow256(8) == 0x1_0000_0000_0000_0000,
{
    reveal_with_fuel(pow256, 9);
}

proof fn pow256_monotonic(m: nat, n: nat)
    requires
        m <= n,
    ensures
        pow256(m) <= pow256(n),
    decreases n,
{
    if m < n {
        pow256_monotonic(m, (n - 1) as nat);
    }
}

/// Appends the `width` low-order bytes of `x`, most significant first.
pub fn put_be(output: &mut Vec<u8>, x: u64, width: usize)
    ensures
        final(output)@ == old(output)@ + be_bytes(x as nat, width as nat),
    decreases width,
{
    if width > 0 {
        put_be(output, x / 256, width - 1);
        output.push((x % 256) as u8);
    }
    assert(output@ =~= old(output)@ + be_bytes(x as nat, width as nat));
}

/// Appends the `width` low-order bytes of `x`, least significant first.
pub fn put_le(output: &mut Vec<u8>, x: u64, width: usize)
    ensures
        final(output)@ == old(output)@ + le_bytes(x as nat, width as nat),
    decreases width,
{
    let ghost before = output@;
    if width > 0 {
        output.push((x % 256) as u8);
        put_le(output, x / 256, width - 1);
    }
    proof {
        be_bytes_len(x as nat, width as nat);
        if width > 0 {
            be_bytes_len(x as nat / 256, (width - 1) as nat);
        }
    }
    assert(output@ =~= before + le_bytes(x as nat, width as nat));
}

/// Appends the bytes of a wide number, least significant first.
pub fn put_le_wide(output: &mut Vec<u8>, x: u128, width: usize)
    ensures
        final(output)@ == old(output)@ + le_bytes(x as nat, width as nat),
    decreases width,
{
    let ghost before = output@;
    if width > 0 {
        output.push((x % 256) as u8);
        put_le_wide(output, x / 256, width - 1);
    }
    proof {
        be_bytes_len(x as nat, width as nat);
        if width > 0 {
            be_bytes_len(x as nat / 256, (width - 1) as nat);
        }
    }
    assert(output@ =~= before + le_bytes(x as nat, width as nat));
}

/// Reads a big-endian number of at most eight bytes.
pub fn get_be(input: &[u8]) -> (x: u64)
    requires
        input@.len() <= 8,
    ensures
        x == be_value(input@),
{
    let mut x: u64 = 0;
    let mut i: usize = 0;
    while i < input.len()
        invariant
            i <= input@.len() <= 8,
            x == be_value(input@.take(i as int)),
        decreases input@.len() - i,
    {
        proof {
            be_value_round_trip(input@.take(i as int));
            pow256_monotonic(i as nat, 7);
            reveal_with_fuel(pow256, 8);
            assert(input@.take(i + 1).drop_last() =~= input@.take(i as int));
        }
        x = x * 256 + input[i] as u64;
        i = i + 1;
    }
    assert(input@.take(i as int) =~= input@);
    x
}

/// Reads a little-endian number of at most eight bytes.
pub fn get_le(input: &[u8]) -> (x: u64)
    requires
        input@.len() <= 8,
    ensures
        x == le_value(input@),
{
    let mut x: u64 = 0;
    let mut i: usize = input.len();
    while i > 0
        invariant
            i <= input@.len() <= 8,
            x == be_value(input@.reverse().take(input@.len() - i)),
        decreases i,
    {
        let ghost done = input@.len() - i;
        proof {
            be_value_round_trip(input@.reverse().take(done));
            pow256_monotonic(done as nat, 7);
            reveal_with_fuel(pow256, 8);
            assert(input@.reverse().take(done + 1).drop_last() =~= input@.reverse().take(done));
        }
        i = i - 1;
        x = x * 256 + input[i] as u64;
    }
    assert(input@.reverse().take(input@.len() as int) =~= input@.reverse());
    x
}

/// Appends bytes.
pub fn put_bytes(output: &mut Vec<u8>, bytes: &[u8])
    ensures
        final(output)@ == old(output)@ + bytes@,
{
    output.extend_from_slice(bytes);
    assert(output@ =~= old(output)@ + bytes@);
}

/// The two's complement of a signed number.
pub fn unsigned_of(x: i64) -> (u: u64)
    ensures
        u == twos_complement(x),
{
    if x >= 0 {
        x as u64
    } else {
        (x as i128 + 0x1_0000_0000_0000_0000) as u64
    }
}

/// The signed number with the given two's complement.
pub fn signed_of(u: u64) -> (x: i64)
    ensures
        twos_complement(x) == u,
{
    if u < 0x8000_0000_0000_0000 {
        u as i64
    } else {
        (u as i128 - 0x1_0000_0000_0000_0000) as i64
    }
}

/// A byte with ASCII capitals made small.
pub open spec fn fold_byte(b: u8) -> u8 {
    if 65 <= b <= 90 {
        (b + 32) as u8
    } else {
        b
    }
}

/// Bytes with ASCII capitals made small.
pub open spec fn fold_bytes(s: Seq<u8>) -> Seq<u8> {
    Seq::new(s.len(), |i: int| fold_byte(s[i]))
}

/// Makes ASCII capitals small.
pub fn to_lower(bytes: &[u8]) -> (folded: Vec<u8>)
    ensures
        folded@ == fold_bytes(bytes@),
{
    let mut folded: Vec<u8> = Vec::with_capacity(bytes.len());
    let mut i: usize = 0;
    while i < bytes.len()
        invariant
            i <= bytes@.len(),
            folded@ == fold_bytes(bytes@).take(i as int),
        decreases bytes@.len() - i,
    {
        let b: u8 = bytes[i];
        if b >= 65 && b <= 90 {
            folded.push(b + 32);
        } else {
            folded.push(b);
        }
        i = i + 1;
        assert(folded@ =~= fold_bytes(bytes@).take(i as int));
    }
    assert(fold_bytes(bytes@).take(i as int) =~= fold_bytes(bytes@));
    folded
}

/// Sixteen bytes from a position on.
pub fn array_of_16(bytes: &[u8], start: usize) -> (array: [u8; 16])
    requires
        start + 16 <= bytes@.len(),
    ensures
        array@ == bytes@.subrange(start as int, start + 16),
{
    let mut array: [u8; 16] = [0u8; 16];
    let len: usize = bytes.len();
    let mut i: usize = 0;
    while i < 16
        invariant
            i <= 16,
            start + 16 <= bytes@.len(),
            len == bytes@.len(),
            forall|j: int| 0 <= j < i ==> array@[j] == bytes@[start + j],
        decreases 16 - i,
    {
        array[i] = bytes[start + i];
        i = i + 1;
    }
    assert(array@ =~= bytes@.subrange(start as int, start + 16));
    array
}

/// Thirty-two bytes from a position on.
pub fn array_of_32(bytes: &[u8], start: usize) -> (array: [u8; 32])
    requires
        start + 32 <= bytes@.len(),
    ensures
        array@ == bytes@.subrange(start as int, start + 32),
{
    let mut array: [u8; 32] = [0u8; 32];
    let len: usize = bytes.len();
    let mut i: usize = 0;
    while i < 32
        invariant
            i <= 32,
            start + 32 <= bytes@.len(),
            len == bytes@.len(),
            forall|j: int| 0 <= j < i ==> array@[j] == bytes@[start + j],
        decreases 32 - i,
    {
        array[i] = bytes[start + i];
        i = i + 1;
    }
    assert(array@ =~= bytes@.subrange(start as int, start + 32));
    array
}

} // verus!
