//! Little-endian integers in byte strings.

use vstd::prelude::*;

verus! {

/// The integer that a little-endian byte string stands for.
pub open spec fn le_value(s: Seq<u8>) -> nat
    decreases s.len(),
{
    if s.len() == 0 {
        0
    } else {
        s[0] as nat + 256 * le_value(s.drop_first())
    }
}

/// The `n` lowest bytes of an integer, least significant first.
pub open spec fn le_bytes(v: nat, n: nat) -> Seq<u8>
    decreases n,
{
    if n == 0 {
        Seq::empty()
    } else {
        seq![(v % 256) as u8] + le_bytes(v / 256, (n - 1) as nat)
    }
}

/// How many values `n` bytes can hold.
pub open spec fn byte_range(n: nat) -> nat
    decreases n,
{
    if n == 0 {
        1
    } else {
        256 * byte_range((n - 1) as nat)
    }
}

/// `n` bytes are written, whatever the integer.
pub proof fn lemma_le_bytes_len(v: nat, n: nat)
    ensures
        le_bytes(v, n).len() == n,
    decreases n,
{
    if n > 0 {
        lemma_le_bytes_len(v / 256, (n - 1) as nat);
    }
}

/// Reading gives back what was written, if it fits.
pub proof fn lemma_le_round_trip(v: nat, n: nat)
    requires
        v < byte_range(n),
    ensures
        le_value(le_bytes(v, n)) == v,
    decreases n,
{
    if n > 0 {
        assert(v / 256 < byte_range((n - 1) as nat)) by (nonlinear_arith)
            requires
                v < 256 * byte_range((n - 1) as nat),
        ;
        lemma_le_round_trip(v / 256, (n - 1) as nat);
        lemma_le_bytes_len(v / 256, (n - 1) as nat);
        let s = le_bytes(v, n);
        assert(s.drop_first() =~= le_bytes(v / 256, (n - 1) as nat));
    }
}

/// A byte string stands for an integer of its length.
pub proof fn lemma_le_value_bound(s: Seq<u8>)
    ensures
        le_value(s) < byte_range(s.len()),
    decreases s.len(),
{
    if s.len() > 0 {
        lemma_le_value_bound(s.drop_first());
    }
}

/// The integer in `bytes[from..from + n]`.
pub fn read_le(bytes: &[u8], from: usize, n: usize) -> (v: u64)
    requires
        n <= 8,
        from + n <= bytes@.len(),
    ensures
        v == le_value(bytes@.subrange(from as int, from + n)),
{
    let total: usize = bytes.len();
    let mut v: u64 = 0;
    let mut i: usize = n;
    assert(bytes@.subrange(from + n, from + n) =~= Seq::empty());
    while i > 0
        invariant
            0 <= i <= n <= 8,
            from + n <= total == bytes@.len(),
            v == le_value(bytes@.subrange(from + i, from + n)),
        decreases i,
    {
        let ghost rest = bytes@.subrange(from + i, from + n);
        i = i - 1;
        let ghost all = bytes@.subrange(from + i, from + n);
        proof {
            assert(all.drop_first() =~= rest);
            lemma_le_value_bound(all);
            reveal_with_fuel(byte_range, 9);
            assert(all.len() <= 8);
            assert(byte_range(all.len()) <= 0x1_0000_0000_0000_0000) by {
                reveal_with_fuel(byte_range, 9);
            }
        }
        v = v * 256 + bytes[from + i] as u64;
    }
    v
}

/// Appends the `n` lowest bytes of an integer, least significant first.
pub fn write_le(out: &mut Vec<u8>, value: u64, n: usize)
    ensures
        final(out)@ == old(out)@ + le_bytes(value as nat, n as nat),
{
    let mut v: u64 = value;
    let mut i: usize = 0;
    assert(out@ + le_bytes(value as nat, n as nat) =~= old(out)@ + le_bytes(value as nat, n as nat));
    while i < n
        invariant
            0 <= i <= n,
            out@ + le_bytes(v as nat, (n - i) as nat) == old(out)@ + le_bytes(value as nat, n as nat),
        decreases n - i,
    {
        let ghost before = out@;
        out.push((v % 256) as u8);
        assert(out@ + le_bytes((v / 256) as nat, (n - i - 1) as nat) =~= before + le_bytes(
            v as nat,
            (n - i) as nat,
        ));
        v = v / 256;
        i = i + 1;
    }
    assert(out@ + le_bytes(v as nat, 0) =~= out@);
}

} // verus!
