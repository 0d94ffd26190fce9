//! How the bytes of a chunk are cut into shards.
use crate::bytes::{copy_range, extend_zeros};
use vstd::prelude::*;

verus! {

use vstd::arithmetic::div_mod::{lemma_div_is_ordered, lemma_fundamental_div_mod};
use vstd::arithmetic::mul::lemma_mul_inequality;
use crate::erasure::{byte_strings, is_shard_group};

/// The shard size for `len` bytes in `k` data shards: the smallest even size that holds them.
pub open spec fn shard_size_of(len: nat, k: nat) -> nat {
    ((len + k - 1) as nat / k + 1) / 2 * 2
}

/// `n` zero bytes.
pub open spec fn zeros(n: nat) -> Seq<u8> {
    Seq::new(n, |i: int| 0u8)
}

/// `payload` with zero bytes behind it, up to `k` full shards.
pub open spec fn padded(payload: Seq<u8>, k: nat) -> Seq<u8> {
    payload + zeros((shard_size_of(payload.len(), k) * k - payload.len()) as nat)
}

/// `bytes` cut into `k` pieces of `size` bytes.
pub open spec fn pieces(bytes: Seq<u8>, k: nat, size: nat) -> Seq<Seq<u8>> {
    Seq::new(k, |i: int| bytes.subrange(i * size, i * size + size))
}

/// The data shards of `payload`.
pub open spec fn data_shards_of(payload: Seq<u8>, k: nat) -> Seq<Seq<u8>> {
    pieces(padded(payload, k), k, shard_size_of(payload.len(), k))
}

/// The byte strings in `s`, one behind the other.
pub open spec fn flat(s: Seq<Seq<u8>>) -> Seq<u8>
    decreases s.len(),
{
    if s.len() == 0 {
        Seq::empty()
    } else {
        flat(s.drop_last()) + s.last()
    }
}

/// Byte strings of one size have that size times their number together.
pub proof fn lemma_flat_len(s: Seq<Seq<u8>>, size: nat)
    requires
        forall|i: int| 0 <= i < s.len() ==> (#[trigger] s[i]).len() == size,
    ensures
        flat(s).len() == s.len() * size,
    decreases s.len(),
{
    if s.len() > 0 {
        lemma_flat_len(s.drop_last(), size);
        assert((s.len() - 1) * size + size == s.len() * size) by (nonlinear_arith);
    } else {
        assert(0 * size == 0);
    }
}

/// The shards of a positive number of bytes hold all of them, and the size is valid.
pub proof fn lemma_shard_size(len: nat, k: nat)
    requires
        k > 0,
    ensures
        shard_size_of(len, k) * k >= len,
        shard_size_of(len, k) % 2 == 0,
        len > 0 ==> shard_size_of(len, k) > 0,
        shard_size_of(len, k) <= len / k + 2,
{
    let q = (len + k - 1) as nat / k;
    lemma_fundamental_div_mod(len + k - 1, k as int);
    let size = shard_size_of(len, k);
    assert(q <= size <= q + 1);
    assert(q * k >= len) by (nonlinear_arith)
        requires
            (len + k - 1) == k * q + (len + k - 1) as nat % k,
            (len + k - 1) as nat % k < k,
            k > 0,
            len >= 0,
    ;
    assert(size * k >= q * k) by (nonlinear_arith)
        requires
            size >= q,
            k > 0,
    ;
    if len > 0 {
        assert(q > 0) by (nonlinear_arith)
            requires
                q * k >= len,
                len > 0,
                k > 0,
        ;
    }
    lemma_fundamental_div_mod(len as int, k as int);
    assert(q <= len / k + 1) by (nonlinear_arith)
        requires
            (len + k - 1) == k * q + (len + k - 1) as nat % k,
            len == k * (len / k) + len % k,
            0 <= len % k < k,
            0 <= (len + k - 1) as nat % k < k,
            k > 0,
    ;
    assert(q == len / k + 1 ==> q * k >= len);
    assert(size <= len / k + 2);
}

/// More bytes do not need smaller shards.
pub proof fn lemma_shard_size_monotonic(a: nat, b: nat, k: nat)
    requires
        k > 0,
        a <= b,
    ensures
        shard_size_of(a, k) <= shard_size_of(b, k),
{
    lemma_div_is_ordered(a + k - 1, b + k - 1, k as int);
}

pub proof fn lemma_flat_pieces(bytes: Seq<u8>, k: nat, size: nat, j: nat)
    requires
        j <= k,
        bytes.len() == k * size,
    ensures
        j * size <= k * size,
        flat(pieces(bytes, k, size).take(j as int)) == bytes.take((j * size) as int),
    decreases j,
{
    let p = pieces(bytes, k, size);
    lemma_mul_inequality(j as int, k as int, size as int);
    if j > 0 {
        let i = (j - 1) as nat;
        lemma_flat_pieces(bytes, k, size, i);
        lemma_mul_inequality(j as int, k as int, size as int);
        assert(j * size == i * size + size) by (nonlinear_arith)
            requires
                j == i + 1,
        ;
        assert(p.take(j as int).drop_last() =~= p.take(i as int));
        assert(p.take(j as int).last() == bytes.subrange((i * size) as int, (i * size + size) as int));
        assert(bytes.take((j * size) as int) =~= bytes.take((i * size) as int) + bytes.subrange(
            (i * size) as int,
            (i * size + size) as int,
        ));
    } else {
        assert(p.take(0) =~= Seq::empty());
        assert(bytes.take(0) =~= Seq::empty());
        assert(0 * size == 0);
    }
}

/// The data shards of a payload, put together again, start with the payload.
pub proof fn lemma_data_shards_hold_payload(payload: Seq<u8>, k: nat)
    requires
        k > 0,
    ensures
        flat(data_shards_of(payload, k)) == padded(payload, k),
        payload.is_prefix_of(padded(payload, k)),
        padded(payload, k).len() == k * shard_size_of(payload.len(), k),
        payload.len() > 0 ==> is_shard_group(
            k,
            shard_size_of(payload.len(), k),
            data_shards_of(payload, k),
        ),
{
    let size = shard_size_of(payload.len(), k);
    lemma_shard_size(payload.len(), k);
    let bytes = padded(payload, k);
    assert(size * k == k * size) by (nonlinear_arith);
    lemma_flat_pieces(bytes, k, size, k);
    assert(pieces(bytes, k, size).take(k as int) =~= pieces(bytes, k, size));
    assert(bytes.take((k * size) as int) =~= bytes);
    assert(bytes.subrange(0, payload.len() as int) =~= payload);
    let shards = data_shards_of(payload, k);
    assert forall|i: int| 0 <= i < k implies (#[trigger] shards[i]).len() == size by {
        assert(i * size + size <= k * size && 0 <= i * size) by (nonlinear_arith)
            requires
                0 <= i < k,
                size >= 0,
        ;
    }
}

/// Compute the shard size for `len` bytes in `k` data shards.
pub fn shard_size(len: usize, k: usize) -> (r: usize)
    requires
        k > 0,
        len + k <= usize::MAX,
        shard_size_of(len as nat, k as nat) <= usize::MAX,
    ensures
        r == shard_size_of(len as nat, k as nat),
{
    let q: usize = (len + (k - 1)) / k;
    if q % 2 == 0 {
        q
    } else {
        q + 1
    }
}

/// Pad `payload` and cut it into `k` shards of the size `size`.
pub fn split_payload(payload: &[u8], k: usize, size: usize) -> (shards: Vec<Vec<u8>>)
    requires
        k > 0,
        size == shard_size_of(payload@.len(), k as nat),
        size * k <= usize::MAX,
    ensures
        byte_strings(shards@) == data_shards_of(payload@, k as nat),
{
    let ghost kn = k as nat;
    let ghost sn = size as nat;
    proof {
        lemma_data_shards_hold_payload(payload@, kn);
        assert(sn * kn == kn * sn) by (nonlinear_arith);
    }
    let mut bytes: Vec<u8> = Vec::new();
    bytes.extend_from_slice(payload);
    assert(bytes@ =~= payload@);
    extend_zeros(&mut bytes, size * k - payload.len());
    assert(bytes@ =~= padded(payload@, kn));
    let mut shards: Vec<Vec<u8>> = Vec::new();
    let mut i: usize = 0;
    while i < k
        invariant
            i <= k,
            kn == k,
            sn == size,
            kn * sn <= usize::MAX,
            bytes@ == padded(payload@, kn),
            bytes@.len() == kn * sn,
            shards@.len() == i,
            forall|j: int|
                0 <= j < i ==> (#[trigger] shards@[j])@ == bytes@.subrange(j * sn, j * sn + sn),
        decreases k - i,
    {
        proof {
            assert(i * sn + sn <= kn * sn && 0 <= i * sn) by (nonlinear_arith)
                requires
                    0 <= i < kn,
                    sn >= 0,
            ;
        }
        let start: usize = i * size;
        shards.push(copy_range(bytes.as_slice(), start, start + size));
        i += 1;
    }
    assert(byte_strings(shards@) =~= data_shards_of(payload@, kn));
    shards
}

/// Shards are no longer than they have to be: they are of an even size, hold the payload together,
/// and with two bytes less each they would not.
pub proof fn law_shard_size_is_the_smallest(len: nat, k: nat)
    requires
        k > 0,
        len > 0,
    ensures
        shard_size_of(len, k) % 2 == 0,
        len <= shard_size_of(len, k) * k,
        (shard_size_of(len, k) - 2) * k < len,
{
    let size = shard_size_of(len, k);
    let q = (len + k - 1) as nat / k;
    lemma_shard_size(len, k);
    lemma_fundamental_div_mod(len + k - 1, k as int);
    assert(size - 2 <= q - 1);
    assert((size - 2) * k < len) by (nonlinear_arith)
        requires
            size - 2 <= q - 1,
            k > 0,
            len + k - 1 == k * q + (len + k - 1) as nat % k,
            (len + k - 1) as nat % k >= 0,
            len > 0,
    ;
}

/// Cutting a payload into shards loses nothing: the data shards, one behind the other, are the
/// payload with zeros behind it.
pub proof fn law_shards_hold_the_payload(payload: Seq<u8>, k: nat)
    requires
        k > 0,
    ensures
        payload.is_prefix_of(flat(data_shards_of(payload, k))),
        data_shards_of(payload, k).len() == k,
        forall|i: int|
            payload.len() <= i < flat(data_shards_of(payload, k)).len() ==> #[trigger] flat(
                data_shards_of(payload, k),
            )[i] == 0,
{
    let size = shard_size_of(payload.len(), k);
    let whole = padded(payload, k);
    lemma_shard_size(payload.len(), k);
    assert(size * k == k * size) by (nonlinear_arith);
    assert(whole.len() == k * size);
    lemma_flat_pieces(whole, k, size, k);
    assert(pieces(whole, k, size).take(k as int) =~= pieces(whole, k, size));
    assert(whole.take((k * size) as int) =~= whole);
    assert(whole.subrange(0, payload.len() as int) =~= payload);
}

} // verus!
