//! Integers as bytes.
use vstd::prelude::*;

verus! {

/// The lowest `n` bytes of `x`, the lowest first.
pub open spec fn le_bytes(x: nat, n: nat) -> Seq<u8>
    decreases n,
{
    if n == 0 {
        Seq::empty()
    } else {
        seq![(x % 256) as u8] + le_bytes(x / 256, (n - 1) as nat)
    }
}

/// The integer that bytes write, the lowest byte first.
pub open spec fn le_value(s: Seq<u8>) -> nat
    decreases s.len(),
{
    if s.len() == 0 {
        0
    } else {
        (s[0] + 256 * le_value(s.subrange(1, s.len() as int))) as nat
    }
}

/// The lowest `n` bytes of `x`, the highest first.
pub open spec fn be_bytes(x: nat, n: nat) -> Seq<u8>
    decreases n,
{
    if n == 0 {
        Seq::empty()
    } else {
        be_bytes(x / 256, (n - 1) as nat).push((x % 256) as u8)
    }
}

/// The integer that bytes write, the highest byte first.
pub open spec fn be_value(s: Seq<u8>) -> nat
    decreases s.len(),
{
    if s.len() == 0 {
        0
    } else {
        (be_value(s.drop_last()) * 256 + s.last()) as nat
    }
}

/// How many integers `n` bytes can write.
pub open spec fn limit(n: nat) -> nat
    decreases n,
{
    if n == 0 {
        1
    } else {
        256 * limit((n - 1) as nat)
    }
}

/// The integers that one, two, four, eight and sixteen bytes can write.
pub proof fn lemma_limits()
    ensures
        limit(1) == 0x100,
        limit(2) == 0x1_0000,
        limit(4) == 0x1_0000_0000,
        limit(8) == 0x1_0000_0000_0000_0000,
        limit(16) == 0x1_0000_0000_0000_0000 * 0x1_0000_0000_0000_0000,
{
    reveal_with_fuel(limit, 17);
}

/// A signed integer in `n` bytes, read without its sign.
pub open spec fn twos_complement(i: int, n: nat) -> nat {
    (if i < 0 { limit(n) + i } else { i }) as nat
}

/// Writing takes the number of bytes that was asked for.
pub proof fn lemma_be_len(x: nat, n: nat)
    ensures
        be_bytes(x, n).len() == n,
    decreases n,
{
    if n > 0 {
        lemma_be_len(x / 256, (n - 1) as nat);
    }
}

/// Reading back what was written gives the integer.
pub proof fn lemma_be_value_of_bytes(x: nat, n: nat)
    requires
        x < limit(n),
    ensures
        be_value(be_bytes(x, n)) == x,
    decreases n,
{
    if n > 0 {
        let front = be_bytes(x / 256, (n - 1) as nat);
        lemma_be_value_of_bytes(x / 256, (n - 1) as nat);
        assert(be_bytes(x, n).drop_last() =~= front);
    }
}

/// Writing what was read gives the bytes.
pub proof fn lemma_be_bytes_of_value(s: Seq<u8>)
    ensures
        be_bytes(be_value(s), s.len()) == s,
        be_value(s) < limit(s.len()),
    decreases s.len(),
{
    if s.len() > 0 {
        lemma_be_bytes_of_value(s.drop_last());
        let v = be_value(s);
        assert(v / 256 == be_value(s.drop_last()));
        assert(v % 256 == s.last());
        assert(be_bytes(v, s.len()) =~= s);
    }
}

/// Appends the lowest `n` bytes of `x`, the highest first.
pub fn push_be(out: &mut Vec<u8>, x: u64, n: u32)
    ensures
        final(out)@ == old(out)@ + be_bytes(x as nat, n as nat),
    decreases n,
{
    if n > 0 {
        push_be(out, x / 256, n - 1);
        out.push((x % 256) as u8);
    }
}

/// Appends the lowest `n` bytes of `x`, the lowest first.
pub fn push_le(out: &mut Vec<u8>, x: u128, n: u32)
    ensures
        final(out)@ == old(out)@ + le_bytes(x as nat, n as nat),
    decreases n,
{
    if n > 0 {
        out.push((x % 256) as u8);
        push_le(out, x / 256, n - 1);
    }
}

/// Reads eight bytes from `at` on, the highest first.
pub fn read_be(bytes: &[u8], at: usize) -> (x: u64)
    requires
        at + 8 <= bytes@.len(),
    ensures
        x == be_value(bytes@.subrange(at as int, at + 8)),
{
    let end: usize = bytes.len();
    let mut x: u64 = 0;
    let mut i: usize = 0;
    while i < 8
        invariant
            i <= 8,
            end == bytes@.len(),
            at + 8 <= end,
            x == be_value(bytes@.subrange(at as int, at + i)),
            x < limit(i as nat),
        decreases 8 - i,
    {
        proof {
            let next = bytes@.subrange(at as int, at + i + 1);
            assert(next.drop_last() =~= bytes@.subrange(at as int, at + i));
            assert(next.last() == bytes@[at + i]);
            reveal_with_fuel(limit, 9);
            lemma_be_bytes_of_value(next);
        }
        x = x * 256 + bytes[at + i] as u64;
        i = i + 1;
    }
    x
}

/// Reads the first eight bytes, the lowest first.
pub fn read_le(bytes: &[u8]) -> (x: u64)
    requires
        8 <= bytes@.len(),
    ensures
        x == le_value(bytes@.subrange(0, 8)),
{
    let mut x: u64 = 0;
    let mut i: usize = 8;
    proof {
        lemma_limits();
    }
    while i > 0
        invariant
            i <= 8,
            8 <= bytes@.len(),
            x == le_value(bytes@.subrange(i as int, 8)),
            x < limit((8 - i) as nat),
        decreases i,
    {
        proof {
            let next = bytes@.subrange(i - 1, 8);
            assert(next.subrange(1, next.len() as int) =~= bytes@.subrange(i as int, 8));
            assert(next[0] == bytes@[i - 1]);
            reveal_with_fuel(limit, 9);
        }
        x = x * 256 + bytes[i - 1] as u64;
        i = i - 1;
    }
    x
}

/// Written with the lowest byte first, an integer reads back as itself, and its
/// bytes stand in the reverse order of those with the highest byte first.
pub proof fn lemma_le_value_of_bytes(x: nat, n: nat)
    requires
        x < limit(n),
    ensures
        le_value(le_bytes(x, n)) == x,
        le_bytes(x, n).len() == n,
        forall|i: int| 0 <= i < n ==> #[trigger] le_bytes(x, n)[i] == be_bytes(x, n)[n - 1 - i],
    decreases n,
{
    if n > 0 {
        let s = le_bytes(x, n);
        let rest = le_bytes(x / 256, (n - 1) as nat);
        let front = be_bytes(x / 256, (n - 1) as nat);
        lemma_le_value_of_bytes(x / 256, (n - 1) as nat);
        lemma_be_len(x / 256, (n - 1) as nat);
        assert(s.subrange(1, s.len() as int) =~= rest);
        assert forall|i: int| 0 <= i < n implies #[trigger] s[i] == be_bytes(x, n)[n - 1 - i] by {
            if i > 0 {
                assert(s[i] == rest[i - 1]);
                assert(rest[i - 1] == front[(n - 1) - 1 - (i - 1)]);
            }
        }
    }
}

/// The two's complement of a negative integer is what it lacks of the first
/// integer that its bytes cannot write, and that of any other is itself.
pub proof fn lemma_twos_complement(i: int, n: nat)
    requires
        -limit(n) <= 2 * i < limit(n),
    ensures
        0 <= twos_complement(i, n) < limit(n),
        i >= 0 ==> twos_complement(i, n) == i,
        i < 0 ==> twos_complement(i, n) - i == limit(n),
        i < 0 <==> 2 * twos_complement(i, n) >= limit(n),
{
}

} // verus!
