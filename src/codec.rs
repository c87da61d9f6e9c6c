//! Fixed-width little-endian integers in byte buffers.

use vstd::prelude::*;
use vstd::arithmetic::div_mod::{lemma_div_denominator, lemma_mod_breakdown};

verus! {

/// `256` to the power `k`: the weight of the byte at position `k` of a
/// little-endian number.
pub open spec fn byte_weight(k: nat) -> nat
    decreases k,
{
    if k == 0 {
        1
    } else {
        256 * byte_weight((k - 1) as nat)
    }
}

/// The number that the bytes `s` spell, least significant byte first.
pub open spec fn le_value(s: Seq<u8>) -> nat
    decreases s.len(),
{
    if s.len() == 0 {
        0
    } else {
        s[0] as nat + 256 * le_value(s.drop_first())
    }
}

/// The `n` low bytes of `v`, least significant byte first.
pub open spec fn le_bytes(v: nat, n: nat) -> Seq<u8> {
    Seq::new(n, |k: int| ((v / byte_weight(k as nat)) % 256) as u8)
}

pub proof fn lemma_byte_weight_positive(k: nat)
    ensures
        byte_weight(k) > 0,
    decreases k,
{
    if k > 0 {
        lemma_byte_weight_positive((k - 1) as nat);
    }
}

pub proof fn lemma_byte_weight_monotonic(j: nat, k: nat)
    requires
        j <= k,
    ensures
        byte_weight(j) <= byte_weight(k),
    decreases k,
{
    if j < k {
        lemma_byte_weight_monotonic(j, (k - 1) as nat);
        lemma_byte_weight_positive((k - 1) as nat);
    }
}

/// Eight bytes span exactly the range of `u64`.
pub proof fn lemma_byte_weight_eight()
    ensures
        byte_weight(8) == 0x1_0000_0000_0000_0000,
{
    reveal_with_fuel(byte_weight, 9);
}

/// Four bytes span exactly the range of `u32`.
pub proof fn lemma_byte_weight_four()
    ensures
        byte_weight(4) == 0x1_0000_0000,
{
    reveal_with_fuel(byte_weight, 5);
}

/// A little-endian number of `n` bytes is below `256^n`.
pub proof fn lemma_le_value_bound(s: Seq<u8>)
    ensures
        le_value(s) < byte_weight(s.len()),
    decreases s.len(),
{
    if s.len() > 0 {
        lemma_le_value_bound(s.drop_first());
    }
}

/// Reading back the `n` low bytes of `v` gives `v` modulo `256^n`.
pub proof fn lemma_le_value_of_bytes(v: nat, n: nat)
    ensures
        le_value(le_bytes(v, n)) == v % byte_weight(n),
    decreases n,
{
    if n > 0 {
        let m = (n - 1) as nat;
        let tail = le_bytes(v / 256, m);
        assert forall|k: int| 0 <= k < m implies #[trigger] le_bytes(v, n).drop_first()[k] == tail[k] by {
            lemma_byte_weight_positive(k as nat);
            lemma_div_denominator(v as int, 256, byte_weight(k as nat) as int);
        }
        assert(le_bytes(v, n).drop_first() =~= tail);
        lemma_le_value_of_bytes(v / 256, m);
        lemma_byte_weight_positive(m);
        lemma_mod_breakdown(v as int, 256, byte_weight(m) as int);
        assert(byte_weight(0) == 1);
        assert(v / byte_weight(0) == v);
        assert(le_bytes(v, n)[0] == (v % 256) as u8);
        assert(byte_weight(n) == 256 * byte_weight(m));
    } else {
        assert(byte_weight(0) == 1);
    }
}

/// Reads the `width`-byte little-endian number at `addr`; `None` where the
/// bytes do not all lie inside `memory`.
pub fn read_le(memory: &[u8], addr: usize, width: usize) -> (r: Option<u64>)
    requires
        width <= 8,
    ensures
        r is Some <==> addr + width <= memory@.len(),
        r is Some ==> r.unwrap() as nat == le_value(memory@.subrange(addr as int, addr + width)),
{
    if addr > memory.len() || width > memory.len() - addr {
        return None;
    }
    let mut value: u64 = 0;
    let mut i: usize = width;
    while i > 0
        invariant
            i <= width <= 8,
            addr + width <= memory.len(),
            value as nat == le_value(memory@.subrange(addr + i, addr + width)),
            value < byte_weight((width - i) as nat),
        decreases i,
    {
        i = i - 1;
        let ghost s = memory@.subrange(addr + i, addr + width);
        assert(s.drop_first() =~= memory@.subrange(addr + i + 1, addr + width));
        proof {
            lemma_byte_weight_monotonic((width - i) as nat, 8);
            lemma_byte_weight_eight();
        }
        assert(value * 256 + memory@[addr + i] < byte_weight((width - i) as nat)) by (nonlinear_arith)
            requires
                value < byte_weight((width - i - 1) as nat),
                byte_weight((width - i) as nat) == 256 * byte_weight((width - i - 1) as nat),
                memory@[addr + i] < 256,
        ;
        value = value * 256 + memory[addr + i] as u64;
    }
    assert(memory@.subrange(addr as int, addr + width) =~= memory@.subrange(addr + 0, addr + width));
    Some(value)
}

/// Writes the `width` low bytes of `value` at `addr`, least significant
/// first; `None`, with `memory` untouched, where they do not all fit.
pub fn write_le(memory: &mut Vec<u8>, addr: usize, width: usize, value: u64) -> (r: Option<()>)
    requires
        width <= 8,
    ensures
        r is Some <==> addr + width <= old(memory)@.len(),
        r is Some ==> final(memory)@ == old(memory)@.subrange(0, addr as int) + le_bytes(value as nat, width as nat)
            + old(memory)@.subrange(addr + width, old(memory)@.len() as int),
        r is None ==> final(memory)@ == old(memory)@,
{
    if addr > memory.len() || width > memory.len() - addr {
        return None;
    }
    let ghost start = memory@;
    let mut rest: u64 = value;
    let mut k: usize = 0;
    assert(byte_weight(0) == 1);
    while k < width
        invariant
            k <= width <= 8,
            addr + width <= start.len(),
            memory.len() == start.len(),
            rest as nat == value as nat / byte_weight(k as nat),
            forall|j: int| 0 <= j < addr || addr + k <= j < start.len() ==> memory@[j] == start[j],
            forall|j: int| 0 <= j < k ==> #[trigger] memory@[addr + j] == le_bytes(value as nat, width as nat)[j],
        decreases width - k,
    {
        memory.set(addr + k, (rest % 256) as u8);
        proof {
            lemma_byte_weight_positive(k as nat);
            lemma_div_denominator(value as int, byte_weight(k as nat) as int, 256);
        }
        rest = rest / 256;
        k = k + 1;
    }
    let ghost expected = start.subrange(0, addr as int) + le_bytes(value as nat, width as nat)
        + start.subrange(addr + width, start.len() as int);
    assert forall|j: int| 0 <= j < start.len() implies memory@[j] == #[trigger] expected[j] by {
        if addr <= j < addr + width {
            assert(memory@[addr + (j - addr)] == le_bytes(value as nat, width as nat)[j - addr]);
        }
    }
    assert(memory@ =~= expected);
    Some(())
}

/// Copies `src` into `memory` at `addr`; `None`, with `memory` untouched,
/// where it does not fit.
pub fn write_slice(memory: &mut Vec<u8>, addr: usize, src: &[u8]) -> (r: Option<()>)
    ensures
        r is Some <==> addr + src@.len() <= old(memory)@.len(),
        r is Some ==> final(memory)@ == old(memory)@.subrange(0, addr as int) + src@ + old(memory)@.subrange(
            addr + src@.len(),
            old(memory)@.len() as int,
        ),
        r is None ==> final(memory)@ == old(memory)@,
{
    if addr > memory.len() || src.len() > memory.len() - addr {
        return None;
    }
    let ghost start = memory@;
    let mut i: usize = 0;
    while i < src.len()
        invariant
            i <= src@.len(),
            addr + src@.len() <= start.len(),
            memory.len() == start.len(),
            forall|j: int| 0 <= j < addr || addr + i <= j < start.len() ==> memory@[j] == start[j],
            forall|j: int| 0 <= j < i ==> #[trigger] memory@[addr + j] == src@[j],
        decreases src@.len() - i,
    {
        memory.set(addr + i, src[i]);
        i = i + 1;
    }
    let ghost expected = start.subrange(0, addr as int) + src@ + start.subrange(addr + src@.len(), start.len() as int);
    assert forall|j: int| 0 <= j < start.len() implies memory@[j] == #[trigger] expected[j] by {
        if addr <= j < addr + src@.len() {
            assert(memory@[addr + (j - addr)] == src@[j - addr]);
        }
    }
    assert(memory@ =~= expected);
    Some(())
}

/// Splicing `x` in at `a` leaves every range that lies outside it as it
/// was.
pub proof fn lemma_splice_keeps(s: Seq<u8>, a: int, x: Seq<u8>, p: int, q: int)
    requires
        0 <= a,
        a + x.len() <= s.len(),
        0 <= p <= q <= s.len(),
        q <= a || a + x.len() <= p,
    ensures
        (s.subrange(0, a) + x + s.subrange(a + x.len(), s.len() as int)).subrange(p, q) == s.subrange(p, q),
{
    assert((s.subrange(0, a) + x + s.subrange(a + x.len(), s.len() as int)).subrange(p, q) =~= s.subrange(p, q));
}

/// Splicing `x` in at `a` puts `x` there.
pub proof fn lemma_splice_holds(s: Seq<u8>, a: int, x: Seq<u8>)
    requires
        0 <= a,
        a + x.len() <= s.len(),
    ensures
        (s.subrange(0, a) + x + s.subrange(a + x.len(), s.len() as int)).subrange(a, a + x.len()) == x,
{
    assert((s.subrange(0, a) + x + s.subrange(a + x.len(), s.len() as int)).subrange(a, a + x.len()) =~= x);
}

} // verus!
