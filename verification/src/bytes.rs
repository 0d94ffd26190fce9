//! Little-endian integers in byte sequences.
use vstd::prelude::*;

verus! {

/// `256` to the power `n`.
pub open spec fn pow256(n: nat) -> nat
    decreases n,
{
    if n == 0 {
        1
    } else {
        256 * pow256((n - 1) as nat)
    }
}

/// The low `len` bytes of `n`, least significant first.
pub open spec fn le_bytes(n: nat, len: nat) -> Seq<u8>
    decreases len,
{
    if len == 0 {
        Seq::empty()
    } else {
        seq![(n % 256) as u8] + le_bytes(n / 256, (len - 1) as nat)
    }
}

/// The number whose little-endian bytes are `s`.
pub open spec fn le_value(s: Seq<u8>) -> nat
    decreases s.len(),
{
    if s.len() == 0 {
        0
    } else {
        s[0] as nat + 256 * le_value(s.drop_first())
    }
}

pub proof fn lemma_pow256_values()
    ensures
        pow256(1) == 0x100,
        pow256(4) == 0x1_0000_0000,
        pow256(8) == 0x1_0000_0000_0000_0000,
        pow256(16) == 0x1_0000_0000_0000_0000_0000_0000_0000_0000,
{
    reveal_with_fuel(pow256, 17);
}

pub proof fn lemma_pow256_monotonic(a: nat, b: nat)
    requires
        a <= b,
    ensures
        1 <= pow256(a) <= pow256(b),
    decreases b,
{
    if a < b {
        lemma_pow256_monotonic(a, (b - 1) as nat);
    } else if a > 0 {
        lemma_pow256_monotonic((a - 1) as nat, (b - 1) as nat);
    }
}

pub proof fn lemma_le_bytes_len(n: nat, len: nat)
    ensures
        le_bytes(n, len).len() == len,
    decreases len,
{
    if len > 0 {
        lemma_le_bytes_len(n / 256, (len - 1) as nat);
    }
}

pub proof fn lemma_le_value_bound(s: Seq<u8>)
    ensures
        le_value(s) < pow256(s.len()),
    decreases s.len(),
{
    if s.len() > 0 {
        lemma_le_value_bound(s.drop_first());
    }
}

/// Writing a number and reading it back gives the number.
pub proof fn lemma_le_round_trip(n: nat, len: nat)
    requires
        n < pow256(len),
    ensures
        le_value(le_bytes(n, len)) == n,
        le_bytes(n, len).len() == len,
    decreases len,
{
    if len > 0 {
        let rest = le_bytes(n / 256, (len - 1) as nat);
        lemma_le_round_trip(n / 256, (len - 1) as nat);
        assert(le_bytes(n, len).drop_first() =~= rest);
        assert(le_bytes(n, len)[0] as nat == n % 256);
    }
}

/// Reading a number and writing it back gives the same bytes.
pub proof fn lemma_le_bytes_of_value(s: Seq<u8>)
    ensures
        le_bytes(le_value(s), s.len()) == s,
    decreases s.len(),
{
    if s.len() > 0 {
        lemma_le_bytes_of_value(s.drop_first());
        let v = le_value(s.drop_first());
        assert((s[0] as nat + 256 * v) % 256 == s[0] as nat);
        assert((s[0] as nat + 256 * v) / 256 == v);
        assert(le_bytes(le_value(s), s.len()) =~= s);
    } else {
        assert(le_bytes(le_value(s), s.len()) =~= s);
    }
}

/// Append the low `len` bytes of `n` to `out`, least significant first.
pub fn put_le(out: &mut Vec<u8>, n: u128, len: usize)
    ensures
        final(out)@ == old(out)@ + le_bytes(n as nat, len as nat),
{
    let mut rest: u128 = n;
    let mut i: usize = 0;
    while i < len
        invariant
            i <= len,
            out@ + le_bytes(rest as nat, (len - i) as nat) == old(out)@ + le_bytes(
                n as nat,
                len as nat,
            ),
        decreases len - i,
    {
        let byte: u8 = (rest % 256) as u8;
        let ghost before = out@;
        out.push(byte);
        proof {
            let tail = le_bytes((rest / 256) as nat, (len - i - 1) as nat);
            assert(out@ + tail =~= before + (seq![byte] + tail));
        }
        rest = rest / 256;
        i += 1;
    }
    assert(out@ + Seq::<u8>::empty() =~= out@);
}

/// The number held little-endian in the `len` bytes of `data` from `pos` on.
pub fn get_le(data: &[u8], pos: usize, len: usize) -> (n: u128)
    requires
        len <= 16,
        pos + len <= data@.len(),
    ensures
        n == le_value(data@.subrange(pos as int, pos + len)),
        n < pow256(len as nat),
{
    let mut acc: u128 = 0;
    let mut i: usize = len;
    proof {
        assert(data@.subrange(pos + i, pos + len) =~= Seq::<u8>::empty());
    }
    while i > 0
        invariant
            i <= len <= 16,
            pos + len <= data.len(),
            acc == le_value(data@.subrange(pos + i, pos + len)),
        decreases i,
    {
        i -= 1;
        proof {
            let s = data@.subrange(pos + i, pos + len);
            assert(s.drop_first() =~= data@.subrange(pos + i + 1, pos + len));
            lemma_le_value_bound(s);
            lemma_pow256_monotonic(s.len(), 16);
            lemma_pow256_values();
        }
        acc = acc * 256 + data[pos + i] as u128;
    }
    proof {
        lemma_le_value_bound(data@.subrange(pos as int, pos + len));
    }
    acc
}

/// Append `data[from..to]` to `out`.
pub fn extend_range(out: &mut Vec<u8>, data: &[u8], from: usize, to: usize)
    requires
        from <= to <= data@.len(),
    ensures
        final(out)@ == old(out)@ + data@.subrange(from as int, to as int),
{
    let part = &data[from..to];
    out.extend_from_slice(part);
    proof {
        assert(out@ =~= old(out)@ + data@.subrange(from as int, to as int));
    }
}

/// Append `n` zero bytes to `out`.
pub fn extend_zeros(out: &mut Vec<u8>, n: usize)
    ensures
        final(out)@ == old(out)@ + Seq::new(n as nat, |i: int| 0u8),
{
    let mut i: usize = 0;
    while i < n
        invariant
            i <= n,
            out@ == old(out)@ + Seq::new(i as nat, |i: int| 0u8),
        decreases n - i,
    {
        out.push(0u8);
        i += 1;
        assert(out@ =~= old(out)@ + Seq::new(i as nat, |i: int| 0u8));
    }
}

/// A copy of `data[from..to]`.
pub fn copy_range(data: &[u8], from: usize, to: usize) -> (v: Vec<u8>)
    requires
        from <= to <= data@.len(),
    ensures
        v@ == data@.subrange(from as int, to as int),
{
    let mut v: Vec<u8> = Vec::new();
    extend_range(&mut v, data, from, to);
    assert(v@ =~= data@.subrange(from as int, to as int));
    v
}

/// Whether two byte slices hold the same bytes.
pub fn same_bytes(a: &[u8], b: &[u8]) -> (r: bool)
    ensures
        r == (a@ == b@),
{
    if a.len() != b.len() {
        return false;
    }
    let mut i: usize = 0;
    while i < a.len()
        invariant
            i <= a.len(),
            a.len() == b.len(),
            a@.take(i as int) == b@.take(i as int),
        decreases a.len() - i,
    {
        if a[i] != b[i] {
            return false;
        }
        i += 1;
        assert(a@.take(i as int) =~= b@.take(i as int));
    }
    assert(a@ =~= a@.take(a@.len() as int));
    assert(b@ =~= b@.take(b@.len() as int));
    true
}

} // verus!
