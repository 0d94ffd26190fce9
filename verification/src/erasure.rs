//! Erasure coder on top of reed-solomon-simd.
use crate::config::Config;
use crate::errors::{StorageError, StorageResult};
use vstd::prelude::*;

verus! {

#[verifier::external_type_specification]
#[verifier::external_body]
pub struct ExReedSolomonError(reed_solomon_simd::Error);

#[verifier::external_type_specification]
#[verifier::external_body]
pub struct ExReedSolomonDecoder(reed_solomon_simd::ReedSolomonDecoder);

/// The recovery shards of `k` original shards.
pub uninterp spec fn rs_parity(k: nat, c: nat, data: Seq<Seq<u8>>) -> Seq<Seq<u8>>;

/// What a decoder restores, by index, for the original shards that it was not given.
pub uninterp spec fn rs_restored(
    k: nat,
    c: nat,
    originals: Map<nat, Seq<u8>>,
    recovery: Map<nat, Seq<u8>>,
) -> Map<nat, Seq<u8>>;

/// The original shards that a decoder has been given, by index.
pub uninterp spec fn decoder_originals(d: reed_solomon_simd::ReedSolomonDecoder) -> Map<
    nat,
    Seq<u8>,
>;

/// The recovery shards that a decoder has been given, by index.
pub uninterp spec fn decoder_recovery(d: reed_solomon_simd::ReedSolomonDecoder) -> Map<
    nat,
    Seq<u8>,
>;

/// The number of original shards, the number of recovery shards and the shard size that a
/// decoder was made for.
pub uninterp spec fn decoder_shape(d: reed_solomon_simd::ReedSolomonDecoder) -> Seq<nat>;

/// The first power of two from `p` on that is at least `n`, for a power of two `p`.
pub open spec fn next_pow2_from(p: nat, n: nat) -> nat
    decreases
        if p < n {
            n - p
        } else {
            0
        },
{
    if p >= n || p == 0 {
        p
    } else {
        next_pow2_from(2 * p, n)
    }
}

/// The pairs of original and recovery shard counts that the Reed-Solomon code supports.
pub open spec fn rs_supported(k: nat, c: nat) -> bool {
    let smaller = if k <= c {
        k
    } else {
        c
    };
    let larger = if k <= c {
        c
    } else {
        k
    };
    k > 0 && c > 0 && next_pow2_from(1, smaller) + larger <= 65536
}

/// The byte strings that a sequence of vectors holds.
pub open spec fn byte_strings(s: Seq<Vec<u8>>) -> Seq<Seq<u8>> {
    Seq::new(s.len(), |i: int| s[i]@)
}

/// The byte strings that a sequence of optional vectors holds.
pub open spec fn optional_byte_strings(s: Seq<Option<Vec<u8>>>) -> Seq<Option<Seq<u8>>> {
    Seq::new(
        s.len(),
        |i: int|
            match s[i] {
                Some(v) => Some(v@),
                None => None,
            },
    )
}

/// Whether `data` is `k` shards of one even, positive size.
pub open spec fn is_shard_group(k: nat, size: nat, data: Seq<Seq<u8>>) -> bool {
    data.len() == k && is_shard_size(size) && forall|i: int|
        0 <= i < k ==> (#[trigger] data[i]).len() == size
}

/// The shard sizes that the Reed-Solomon code supports.
pub open spec fn is_shard_size(size: nat) -> bool {
    size > 0 && size % 2 == 0
}

/// Whether `data` can be encoded: a supported pair of counts, and as many shards of one supported
/// size as the counts ask for.
pub open spec fn encodable(k: nat, c: nat, data: Seq<Seq<u8>>) -> bool {
    rs_supported(k, c) && data.len() > 0 && is_shard_group(k, data[0].len(), data)
}

/// Whether every byte string in `s` has the length `size`.
pub open spec fn all_of_size(s: Seq<Seq<u8>>, size: nat) -> bool {
    forall|i: int| 0 <= i < s.len() ==> (#[trigger] s[i]).len() == size
}

/// No shards.
pub open spec fn no_shards() -> Map<nat, Seq<u8>> {
    Map::empty()
}

/// Calls `reed_solomon_simd::encode`. It succeeds exactly on a supported pair of counts and the
/// right number of shards of one even, positive size; the recovery shards have that size too and
/// are named `rs_parity`.
#[verifier::external_body]
fn rs_encode(k: usize, c: usize, data: &[Vec<u8>]) -> (r: Result<
    Vec<Vec<u8>>,
    reed_solomon_simd::Error,
>)
    ensures
        r is Ok == encodable(k as nat, c as nat, byte_strings(data@)),
        r is Ok ==> byte_strings(r.unwrap()@) == rs_parity(
            k as nat,
            c as nat,
            byte_strings(data@),
        ),
        r is Ok ==> r.unwrap()@.len() == c,
        r is Ok ==> all_of_size(byte_strings(r.unwrap()@), data@[0]@.len()),
{
    reed_solomon_simd::encode(k, c, data)
}

/// Calls `reed_solomon_simd::ReedSolomonDecoder::new`. It succeeds exactly on a supported pair of
/// counts and an even, positive shard size, and gives a decoder without shards.
#[verifier::external_body]
fn decoder_new(k: usize, c: usize, size: usize) -> (r: Result<
    reed_solomon_simd::ReedSolomonDecoder,
    reed_solomon_simd::Error,
>)
    ensures
        r is Ok == (rs_supported(k as nat, c as nat) && is_shard_size(size as nat)),
        r is Ok ==> decoder_shape(r.unwrap()) == seq![k as nat, c as nat, size as nat],
        r is Ok ==> decoder_originals(r.unwrap()) == no_shards(),
        r is Ok ==> decoder_recovery(r.unwrap()) == no_shards(),
{
    reed_solomon_simd::ReedSolomonDecoder::new(k, c, size)
}

/// Calls `reed_solomon_simd::ReedSolomonDecoder::add_original_shard`. A shard of the decoder's
/// size under an index that it has no original shard for is taken; any other is refused and
/// changes nothing.
#[verifier::external_body]
fn decoder_add_original(
    d: &mut reed_solomon_simd::ReedSolomonDecoder,
    index: usize,
    shard: &[u8],
) -> (r: Result<(), reed_solomon_simd::Error>)
    requires
        index < decoder_shape(*old(d))[0],
    ensures
        decoder_shape(*final(d)) == decoder_shape(*old(d)),
        decoder_recovery(*final(d)) == decoder_recovery(*old(d)),
        r is Ok <==> shard@.len() == decoder_shape(*old(d))[2] && !decoder_originals(
            *old(d),
        ).contains_key(index as nat),
        r is Ok ==> decoder_originals(*final(d)) == decoder_originals(*old(d)).insert(
            index as nat,
            shard@,
        ),
        r is Err ==> decoder_originals(*final(d)) == decoder_originals(*old(d)),
{
    d.add_original_shard(index, shard)
}

/// Calls `reed_solomon_simd::ReedSolomonDecoder::add_recovery_shard`. A shard of the decoder's
/// size under an index that it has no recovery shard for is taken; any other is refused and
/// changes nothing.
#[verifier::external_body]
fn decoder_add_recovery(
    d: &mut reed_solomon_simd::ReedSolomonDecoder,
    index: usize,
    shard: &[u8],
) -> (r: Result<(), reed_solomon_simd::Error>)
    requires
        index < decoder_shape(*old(d))[1],
    ensures
        decoder_shape(*final(d)) == decoder_shape(*old(d)),
        decoder_originals(*final(d)) == decoder_originals(*old(d)),
        r is Ok <==> shard@.len() == decoder_shape(*old(d))[2] && !decoder_recovery(
            *old(d),
        ).contains_key(index as nat),
        r is Ok ==> decoder_recovery(*final(d)) == decoder_recovery(*old(d)).insert(
            index as nat,
            shard@,
        ),
        r is Err ==> decoder_recovery(*final(d)) == decoder_recovery(*old(d)),
{
    d.add_recovery_shard(index, shard)
}

/// Whether every given shard is one of the shards of `data` or of its recovery shards.
pub open spec fn shards_of(
    k: nat,
    c: nat,
    data: Seq<Seq<u8>>,
    originals: Map<nat, Seq<u8>>,
    recovery: Map<nat, Seq<u8>>,
) -> bool {
    &&& forall|i: nat| #[trigger]
        originals.contains_key(i) ==> i < k && originals[i] == data[i as int]
    &&& forall|i: nat| #[trigger]
        recovery.contains_key(i) ==> i < c && recovery[i] == rs_parity(k, c, data)[i as int]
}

/// Calls `reed_solomon_simd::ReedSolomonDecoder::decode` and hands out what
/// `DecoderResult::restored_original` gives for each index. Decoding succeeds exactly when at
/// least as many shards were given as there are original ones. It restores the original shards
/// that were not given; they have the decoder's shard size and are named `rs_restored`. If the
/// given shards come from encoding some data, what is restored is that data.
#[verifier::external_body]
fn decoder_decode(d: reed_solomon_simd::ReedSolomonDecoder, k: usize) -> (r: Result<
    Vec<Option<Vec<u8>>>,
    reed_solomon_simd::Error,
>)
    requires
        k == decoder_shape(d)[0],
    ensures
        r is Ok <==> decoder_originals(d).dom().len() + decoder_recovery(d).dom().len()
            >= decoder_shape(d)[0],
        r matches Ok(v) ==> v@.len() == decoder_shape(d)[0] && forall|i: int|
            0 <= i < v@.len() ==> match #[trigger] v@[i] {
                Some(b) => !decoder_originals(d).contains_key(i as nat) && b@.len()
                    == decoder_shape(d)[2] && b@ == rs_restored(
                    decoder_shape(d)[0],
                    decoder_shape(d)[1],
                    decoder_originals(d),
                    decoder_recovery(d),
                )[i as nat],
                None => decoder_originals(d).contains_key(i as nat),
            },
        r matches Ok(v) ==> forall|data: Seq<Seq<u8>>, i: int|
            #![trigger data[i], v@[i]]
            is_shard_group(decoder_shape(d)[0], decoder_shape(d)[2], data) && shards_of(
                decoder_shape(d)[0],
                decoder_shape(d)[1],
                data,
                decoder_originals(d),
                decoder_recovery(d),
            ) && 0 <= i < v@.len() && v@[i] is Some ==> v@[i].unwrap()@ == data[i],
{
    let mut decoder = d;
    let result = decoder.decode()?;
    Ok((0..k).map(|i| result.restored_original(i).map(|s| s.to_vec())).collect())
}

/// Calls `to_string` on a `reed_solomon_simd::Error`. Nothing is claimed of the text.
#[verifier::external_body]
fn rs_error_text(e: &reed_solomon_simd::Error) -> (r: String) {
    e.to_string()
}

fn rs_failure(e: reed_solomon_simd::Error) -> (r: StorageError)
    ensures
        r is ReedSolomonError,
{
    StorageError::ReedSolomonError(rs_error_text(&e))
}

/// The original shards among `shards`, by index.
pub open spec fn given_originals(k: nat, shards: Seq<Option<Seq<u8>>>) -> Map<nat, Seq<u8>> {
    Map::new(
        |i: nat| i < k && i < shards.len() && shards[i as int] is Some,
        |i: nat| shards[i as int].unwrap(),
    )
}

/// The recovery shards among `shards`, by index.
pub open spec fn given_recovery(k: nat, shards: Seq<Option<Seq<u8>>>) -> Map<nat, Seq<u8>> {
    Map::new(
        |i: nat| k + i < shards.len() && shards[(k + i) as int] is Some,
        |i: nat| shards[(k + i) as int].unwrap(),
    )
}

/// The number of shards that are there.
pub open spec fn survivors(shards: Seq<Option<Seq<u8>>>) -> nat
    decreases shards.len(),
{
    if shards.len() == 0 {
        0
    } else {
        survivors(shards.drop_last()) + if shards.last() is Some {
            1nat
        } else {
            0nat
        }
    }
}

/// The size of the first shard that is there.
pub open spec fn first_size(shards: Seq<Option<Seq<u8>>>) -> Option<nat>
    decreases shards.len(),
{
    if shards.len() == 0 {
        None
    } else if shards[0] is Some {
        Some(shards[0].unwrap().len())
    } else {
        first_size(shards.drop_first())
    }
}

/// Whether the shards that are there all have the size `size`.
pub open spec fn all_sized(shards: Seq<Option<Seq<u8>>>, size: nat) -> bool {
    forall|i: int|
        0 <= i < shards.len() && (#[trigger] shards[i]) is Some ==> shards[i].unwrap().len() == size
}

/// The original shards: those that are there, and what the decoder restores for the others.
pub open spec fn decoded_data(k: nat, c: nat, shards: Seq<Option<Seq<u8>>>) -> Seq<Seq<u8>> {
    Seq::new(
        k,
        |i: int|
            match shards[i] {
                Some(b) => b,
                None => rs_restored(
                    k,
                    c,
                    given_originals(k, shards),
                    given_recovery(k, shards),
                )[i as nat],
            },
    )
}

/// All shards: the original ones, then the recovery shards that are there, with those that are
/// not computed anew.
pub open spec fn decoded_shards(k: nat, c: nat, shards: Seq<Option<Seq<u8>>>) -> Seq<Seq<u8>> {
    let data = decoded_data(k, c, shards);
    data + Seq::new(
        c,
        |j: int|
            match shards[k + j] {
                Some(b) => b,
                None => rs_parity(k, c, data)[j],
            },
    )
}

/// Whether enough shards of one valid size are there to decode.
pub open spec fn decodable(k: nat, c: nat, shards: Seq<Option<Seq<u8>>>) -> bool {
    &&& survivors(shards) >= k
    &&& rs_supported(k, c)
    &&& first_size(shards) matches Some(size)
    &&& is_shard_size(size)
    &&& all_sized(shards, size)
}

/// Whether `data` with its recovery shards is `k + c` shards of the size `size`.
pub open spec fn is_encoding(k: nat, c: nat, data: Seq<Seq<u8>>, size: nat) -> bool {
    rs_supported(k, c) && is_shard_group(k, size, data) && rs_parity(k, c, data).len() == c
        && all_of_size(rs_parity(k, c, data), size)
}

/// Whether each of `shards` that is there is the one of `all` in its place.
pub open spec fn parts_of(all: Seq<Seq<u8>>, shards: Seq<Option<Seq<u8>>>) -> bool {
    shards.len() == all.len() && forall|i: int|
        0 <= i < all.len() && (#[trigger] shards[i]) is Some ==> shards[i].unwrap() == all[i]
}

/// All shards of an encoding: the data shards and their recovery shards.
pub open spec fn encoded(k: nat, c: nat, data: Seq<Seq<u8>>) -> Seq<Seq<u8>> {
    data + rs_parity(k, c, data)
}

proof fn lemma_parts_decodable(
    k: nat,
    c: nat,
    data: Seq<Seq<u8>>,
    size: nat,
    shards: Seq<Option<Seq<u8>>>,
)
    requires
        is_encoding(k, c, data, size),
        parts_of(encoded(k, c, data), shards),
        survivors(shards) >= k,
    ensures
        decodable(k, c, shards),
        first_size(shards) == Some(size),
        shards_of(k, c, data, given_originals(k, shards), given_recovery(k, shards)),
{
    lemma_survivors_first_size(shards);
    let all = encoded(k, c, data);
    assert forall|i: int| 0 <= i < shards.len() && (#[trigger] shards[i]) is Some implies
        shards[i].unwrap().len() == size by {
        assert(shards[i].unwrap() == all[i]);
        if i < k {
            assert(data[i].len() == size);
        } else {
            assert(rs_parity(k, c, data)[i - k].len() == size);
        }
    }
    assert forall|i: nat| #[trigger] given_recovery(k, shards).contains_key(i) implies i < c
        && given_recovery(k, shards)[i] == rs_parity(k, c, data)[i as int] by {
        assert(shards[(k + i) as int].unwrap() == all[(k + i) as int]);
    }
    assert forall|i: nat| #[trigger] given_originals(k, shards).contains_key(i) implies i < k
        && given_originals(k, shards)[i] == data[i as int] by {
        assert(shards[i as int].unwrap() == all[i as int]);
    }
}

proof fn lemma_survivors_bound(shards: Seq<Option<Seq<u8>>>)
    ensures
        survivors(shards) <= shards.len(),
    decreases shards.len(),
{
    if shards.len() > 0 {
        lemma_survivors_bound(shards.drop_last());
    }
}

proof fn lemma_survivors_first_size(shards: Seq<Option<Seq<u8>>>)
    ensures
        survivors(shards) > 0 ==> first_size(shards) is Some,
        first_size(shards) matches Some(n) ==> exists|i: int|
            0 <= i < shards.len() && (#[trigger] shards[i]) is Some && shards[i].unwrap().len() == n,
        first_size(shards) is None ==> forall|i: int|
            0 <= i < shards.len() ==> (#[trigger] shards[i]) is None,
    decreases shards.len(),
{
    if shards.len() > 0 {
        lemma_survivors_first_size(shards.drop_first());
        lemma_survivors_drop_first(shards);
        let rest = shards.drop_first();
        assert(forall|i: int| 0 <= i < rest.len() ==> #[trigger] rest[i] == shards[i + 1]);
        if shards[0] is None {
            if let Some(n) = first_size(rest) {
                let i = choose|i: int|
                    0 <= i < rest.len() && (#[trigger] rest[i]) is Some && rest[i].unwrap().len()
                        == n;
                assert(shards[i + 1] is Some);
            } else {
                assert forall|i: int| 0 <= i < shards.len() implies (#[trigger] shards[i]) is None by {
                    if i > 0 {
                        assert(rest[i - 1] is None);
                    }
                }
            }
        }
    }
}

proof fn lemma_survivors_drop_first(shards: Seq<Option<Seq<u8>>>)
    requires
        shards.len() > 0,
    ensures
        survivors(shards) == survivors(shards.drop_first()) + if shards[0] is Some {
            1nat
        } else {
            0nat
        },
    decreases shards.len(),
{
    if shards.len() > 1 {
        lemma_survivors_drop_first(shards.drop_last());
        assert(shards.drop_last().drop_first() =~= shards.drop_first().drop_last());
        assert(shards.drop_first().last() == shards.last());
    } else {
        assert(shards.drop_last() =~= Seq::empty());
        assert(shards.drop_first() =~= Seq::empty());
    }
}

proof fn lemma_survivors_prefix(shards: Seq<Option<Seq<u8>>>, i: int)
    requires
        0 <= i < shards.len(),
    ensures
        survivors(shards.take(i + 1)) == survivors(shards.take(i)) + if shards[i] is Some {
            1nat
        } else {
            0nat
        },
{
    assert(shards.take(i + 1).drop_last() =~= shards.take(i));
}

/// Rebuild all shards from those that are there. A shard that is missing is restored, whether it
/// is a data shard or a parity shard, as long as at least `k` shards are there.
pub fn reconstruct(k: usize, c: usize, shards: &[Option<Vec<u8>>]) -> (r: StorageResult<
    Vec<Vec<u8>>,
>)
    requires
        k + c == shards@.len(),
        k > 0,
    ensures
        r is Ok <==> decodable(k as nat, c as nat, optional_byte_strings(shards@)),
        r matches Ok(all) ==> byte_strings(all@) == decoded_shards(
            k as nat,
            c as nat,
            optional_byte_strings(shards@),
        ),
        r matches Ok(all) ==> all@.len() == k + c && all_of_size(
            byte_strings(all@),
            first_size(optional_byte_strings(shards@)).unwrap(),
        ),
        r matches Err(e) ==> if survivors(optional_byte_strings(shards@)) < k {
            e is TooManyFailures
        } else {
            e is ReedSolomonError
        },
        // Any k shards of an encoding give all of it back.
        forall|data: Seq<Seq<u8>>, size: nat|
            #![trigger is_encoding(k as nat, c as nat, data, size)]
            is_encoding(k as nat, c as nat, data, size) && parts_of(
                encoded(k as nat, c as nat, data),
                optional_byte_strings(shards@),
            ) && survivors(optional_byte_strings(shards@)) >= k ==> r is Ok && byte_strings(
                r.unwrap()@,
            ) == encoded(k as nat, c as nat, data),
{
    let ghost s = optional_byte_strings(shards@);
    let ghost kn = k as nat;
    let ghost cn = c as nat;
    proof {
        lemma_survivors_first_size(s);
        lemma_survivors_bound(s);
        assert forall|d: Seq<Seq<u8>>, size: nat|
            #![trigger is_encoding(kn, cn, d, size)]
            is_encoding(kn, cn, d, size) && parts_of(encoded(kn, cn, d), s) && survivors(s)
                >= k implies decodable(kn, cn, s) by {
            lemma_parts_decodable(kn, cn, d, size, s);
        }
    }
    // Count the shards and find their size.
    let mut surviving: usize = 0;
    let mut size: Option<usize> = None;
    let mut i: usize = 0;
    assert(s.take(0) =~= Seq::empty());
    assert(s.skip(0) =~= s);
    while i < shards.len()
        invariant
            i <= shards.len(),
            s == optional_byte_strings(shards@),
            surviving == survivors(s.take(i as int)),
            surviving <= i,
            size is Some ==> first_size(s) == Some(size.unwrap() as nat),
            size is None ==> first_size(s) == first_size(s.skip(i as int)),
        decreases shards.len() - i,
    {
        proof {
            lemma_survivors_prefix(s, i as int);
            assert(s.skip(i as int)[0] == s[i as int]);
            assert(s.skip(i as int).drop_first() =~= s.skip(i + 1));
        }
        if let Some(shard) = &shards[i] {
            surviving += 1;
            if size.is_none() {
                size = Some(shard.len());
            }
        }
        i += 1;
    }
    assert(s.take(s.len() as int) =~= s);
    if surviving < k {
        return Err(StorageError::TooManyFailures);
    }
    let shard_size: usize = match size {
        Some(n) => n,
        None => {
            return Err(StorageError::TooManyFailures);
        },
    };
    let mut decoder = match decoder_new(k, c, shard_size) {
        Ok(d) => d,
        Err(e) => {
            return Err(rs_failure(e));
        },
    };
    let mut i: usize = 0;
    proof {
        assert(given_originals(kn, s.take(0)) =~= Map::empty());
        assert(given_recovery(kn, s.take(0)) =~= Map::empty());
        assert(s.take(0) =~= Seq::empty());
    }
    while i < shards.len()
        invariant
            i <= shards.len(),
            k + c == shards@.len(),
            kn == k,
            cn == c,
            s == optional_byte_strings(shards@),
            first_size(s) == Some(shard_size as nat),
            survivors(s) >= k,
            shard_size > 0,
            shard_size % 2 == 0,
            rs_supported(kn, cn),
            decoder_shape(decoder) == seq![kn, cn, shard_size as nat],
            decoder_originals(decoder) == given_originals(kn, s.take(i as int)),
            decoder_recovery(decoder) == given_recovery(kn, s.take(i as int)),
            decoder_originals(decoder).dom().finite(),
            decoder_recovery(decoder).dom().finite(),
            decoder_originals(decoder).dom().len() + decoder_recovery(decoder).dom().len()
                == survivors(s.take(i as int)),
            all_sized(s.take(i as int), shard_size as nat),
            forall|d: Seq<Seq<u8>>, size: nat|
                #![trigger is_encoding(kn, cn, d, size)]
                is_encoding(kn, cn, d, size) && parts_of(encoded(kn, cn, d), s) && survivors(s)
                    >= k ==> decodable(kn, cn, s),
        decreases shards.len() - i,
    {
        let ghost here = s.take(i as int);
        let ghost next = s.take(i + 1);
        proof {
            lemma_survivors_prefix(s, i as int);
            assert(forall|j: int| 0 <= j < i ==> next[j] == here[j]);
            assert(next[i as int] == s[i as int]);
            if s[i as int] is None {
                assert(given_originals(kn, next) =~= given_originals(kn, here));
                assert(given_recovery(kn, next) =~= given_recovery(kn, here));
            } else {
                let b = s[i as int].unwrap();
                if i < k {
                    assert(given_originals(kn, next) =~= given_originals(kn, here).insert(
                        i as nat,
                        b,
                    ));
                    assert(given_recovery(kn, next) =~= given_recovery(kn, here));
                } else {
                    assert(given_originals(kn, next) =~= given_originals(kn, here));
                    assert(given_recovery(kn, next) =~= given_recovery(kn, here).insert(
                        (i - k) as nat,
                        b,
                    ));
                }
            }
        }
        if let Some(shard) = &shards[i] {
            let added = if i < k {
                decoder_add_original(&mut decoder, i, shard.as_slice())
            } else {
                decoder_add_recovery(&mut decoder, i - k, shard.as_slice())
            };
            match added {
                Ok(()) => {},
                Err(e) => {
                    proof {
                        assert(s[i as int] is Some && s[i as int].unwrap().len() != shard_size);
                        assert(!all_sized(s, shard_size as nat));
                    }
                    return Err(rs_failure(e));
                },
            }
        }
        i += 1;
    }
    proof {
        assert(s.take(s.len() as int) =~= s);
    }
    let ghost originals = decoder_originals(decoder);
    let ghost recovery = decoder_recovery(decoder);
    let restored = match decoder_decode(decoder, k) {
        Ok(v) => v,
        Err(e) => {
            return Err(rs_failure(e));
        },
    };
    // The data shards.
    let ghost data = decoded_data(kn, cn, s);
    let mut all: Vec<Vec<u8>> = Vec::new();
    let mut i: usize = 0;
    while i < k
        invariant
            i <= k,
            k + c == shards@.len(),
            kn == k,
            cn == c,
            s == optional_byte_strings(shards@),
            data == decoded_data(kn, cn, s),
            all_sized(s, shard_size as nat),
            originals == given_originals(kn, s),
            recovery == given_recovery(kn, s),
            restored@.len() == k,
            forall|j: int|
                0 <= j < restored@.len() ==> match #[trigger] restored@[j] {
                    Some(b) => !originals.contains_key(j as nat) && b@.len() == shard_size && b@
                        == rs_restored(kn, cn, originals, recovery)[j as nat],
                    None => originals.contains_key(j as nat),
                },
            all@.len() == i,
            forall|j: int|
                0 <= j < i ==> (#[trigger] all@[j])@ == data[j] && all@[j]@.len() == shard_size,
        decreases k - i,
    {
        let shard: Vec<u8> = match &shards[i] {
            Some(shard) => shard.clone(),
            None => match &restored[i] {
                Some(shard) => shard.clone(),
                None => {
                    assert(originals.contains_key(i as nat));
                    Vec::new()
                },
            },
        };
        proof {
            assert(s[i as int] is Some ==> shard@ =~= s[i as int].unwrap());
            assert(s[i as int] is None ==> !originals.contains_key(i as nat));
            assert(restored@[i as int] is Some ==> shards@[i as int] is None);
            assert(shard@ =~= data[i as int]);
        }
        all.push(shard);
        i += 1;
    }
    proof {
        assert(byte_strings(all@) =~= data);
        assert(all@[0]@.len() == shard_size);
        assert(is_shard_group(kn, shard_size as nat, data));
    }
    let parity = match rs_encode(k, c, all.as_slice()) {
        Ok(p) => p,
        Err(e) => {
            return Err(rs_failure(e));
        },
    };
    let mut j: usize = 0;
    while j < c
        invariant
            j <= c,
            k > 0,
            k + c == shards.len(),
            kn == k,
            cn == c,
            s == optional_byte_strings(shards@),
            data == decoded_data(kn, cn, s),
            data.len() == k,
            parity@.len() == c,
            byte_strings(parity@) == rs_parity(kn, cn, data),
            all_sized(s, shard_size as nat),
            all_of_size(byte_strings(parity@), shard_size as nat),
            all@.len() == k + j,
            forall|m: int| 0 <= m < k + j ==> (#[trigger] all@[m])@.len() == shard_size,
            forall|m: int| 0 <= m < k ==> (#[trigger] all@[m])@ == data[m],
            forall|m: int|
                k <= m < k + j ==> (#[trigger] all@[m])@ == decoded_shards(kn, cn, s)[m],
        decreases c - j,
    {
        let shard: Vec<u8> = match &shards[k + j] {
            Some(shard) => shard.clone(),
            None => parity[j].clone(),
        };
        proof {
            assert(byte_strings(parity@)[j as int] == parity@[j as int]@);
            assert(byte_strings(parity@)[j as int].len() == shard_size);
            assert(s[k + j] is Some ==> shard@ =~= s[k + j].unwrap());
            assert(shard@ =~= decoded_shards(kn, cn, s)[k + j]);
            assert(shard@.len() == shard_size);
        }
        all.push(shard);
        j += 1;
    }
    proof {
        assert(byte_strings(all@) =~= decoded_shards(kn, cn, s));
        assert(byte_strings(all@).take(k as int) =~= data);
        assert forall|d: Seq<Seq<u8>>, size: nat|
            #![trigger is_encoding(kn, cn, d, size)]
            is_encoding(kn, cn, d, size) && parts_of(encoded(kn, cn, d), s) && survivors(s)
                >= k implies byte_strings(all@) == encoded(kn, cn, d) by {
            lemma_parts_decodable(kn, cn, d, size, s);
            assert forall|m: int| 0 <= m < k implies data[m] == d[m] by {
                if s[m] is Some {
                    assert(originals.contains_key(m as nat));
                } else {
                    assert(restored@[m] is Some);
                    assert(restored@[m].unwrap()@ == d[m]);
                }
            }
            assert(data =~= d);
            assert(parity@.len() == c);
            assert forall|m: int| k <= m < k + c implies #[trigger] decoded_shards(kn, cn, s)[m]
                == encoded(kn, cn, d)[m] by {
                if s[m] is Some {
                    assert(recovery.contains_key((m - k) as nat));
                }
            }
            assert(byte_strings(all@) =~= encoded(kn, cn, d));
        }
    }
    Ok(all)
}

/// Encodes K data shards into N total shards (K data and C parity).
#[derive(Debug, Clone)]
pub struct ErasureCoder {
    k: usize,
    c: usize,
    n: usize,
}

impl ErasureCoder {
    /// The number of data shards.
    pub closed spec fn k(self) -> nat {
        self.k as nat
    }

    /// The number of parity shards.
    pub closed spec fn c(self) -> nat {
        self.c as nat
    }

    /// The counts fit together: N = K + C and there is at least one data shard.
    pub closed spec fn wf(self) -> bool {
        self.n == self.k + self.c && self.k > 0
    }

    pub fn new(config: &Config) -> (r: Self)
        requires
            config.n() <= usize::MAX,
        ensures
            r.wf(),
            r.k() == config.k(),
            r.c() == config.disk_failures,
            r.k() + r.c() == config.n(),
    {
        let k: usize = config.data_shards();
        let c: usize = config.parity_shards();
        ErasureCoder { k, c, n: k + c }
    }

    pub fn data_shards(&self) -> (r: usize)
        ensures
            r == self.k(),
    {
        self.k
    }

    pub fn parity_shards(&self) -> (r: usize)
        ensures
            r == self.c(),
    {
        self.c
    }

    pub fn total_shards(&self) -> (r: usize)
        requires
            self.wf(),
        ensures
            r == self.k() + self.c(),
    {
        self.n
    }

    /// Encode K data shards into N total shards (K data and C parity). Returns all N shards, the
    /// data shards first.
    pub fn encode(&self, data_shards: &[Vec<u8>]) -> (r: StorageResult<Vec<Vec<u8>>>)
        requires
            self.wf(),
            data_shards@.len() == self.k(),
            forall|i: int| 0 <= i < data_shards@.len() ==> (#[trigger] data_shards@[i])@.len() > 0,
        ensures
            r is Ok <==> encodable(self.k(), self.c(), byte_strings(data_shards@)),
            r matches Ok(all) ==> byte_strings(all@) == encoded(
                self.k(),
                self.c(),
                byte_strings(data_shards@),
            ),
            r matches Ok(all) ==> all@.len() == self.k() + self.c() && all_of_size(
                byte_strings(all@),
                data_shards@[0]@.len(),
            ),
            r is Ok ==> is_encoding(
                self.k(),
                self.c(),
                byte_strings(data_shards@),
                data_shards@[0]@.len(),
            ),
            r matches Err(e) ==> if all_of_size(
                byte_strings(data_shards@),
                data_shards@[0]@.len(),
            ) {
                e is ReedSolomonError
            } else {
                e is ErasureCoding
            },
    {
        let ghost data = byte_strings(data_shards@);
        let shard_size: usize = data_shards[0].len();
        let mut i: usize = 1;
        while i < data_shards.len()
            invariant
                1 <= i <= data_shards@.len(),
                data == byte_strings(data_shards@),
                shard_size == data_shards@[0]@.len(),
                forall|j: int| 0 <= j < i ==> (#[trigger] data[j]).len() == shard_size,
            decreases data_shards.len() - i,
        {
            if data_shards[i].len() != shard_size {
                assert(data[i as int].len() != shard_size);
                return Err(
                    StorageError::ErasureCoding("all data shards must be the same size".to_owned()),
                );
            }
            i += 1;
        }
        let parity = match rs_encode(self.k, self.c, data_shards) {
            Ok(p) => p,
            Err(e) => {
                return Err(rs_failure(e));
            },
        };
        let mut all: Vec<Vec<u8>> = Vec::new();
        let mut i: usize = 0;
        while i < data_shards.len()
            invariant
                i <= data_shards@.len(),
                all@.len() == i,
                forall|j: int| 0 <= j < i ==> (#[trigger] all@[j])@ == data_shards@[j]@,
            decreases data_shards.len() - i,
        {
            let shard: Vec<u8> = data_shards[i].clone();
            assert(shard@ =~= data_shards@[i as int]@);
            all.push(shard);
            i += 1;
        }
        let mut j: usize = 0;
        while j < parity.len()
            invariant
                j <= parity@.len(),
                all@.len() == data_shards@.len() + j,
                forall|m: int|
                    0 <= m < data_shards@.len() ==> (#[trigger] all@[m])@ == data_shards@[m]@,
                forall|m: int|
                    data_shards@.len() <= m < all@.len() ==> (#[trigger] all@[m])@ == parity@[m
                        - data_shards@.len()]@,
            decreases parity.len() - j,
        {
            let shard: Vec<u8> = parity[j].clone();
            assert(shard@ =~= parity@[j as int]@);
            all.push(shard);
            j += 1;
        }
        proof {
            assert(byte_strings(all@) =~= data + byte_strings(parity@));
            assert forall|m: int| 0 <= m < all@.len() implies (#[trigger] byte_strings(
                all@,
            )[m]).len() == shard_size by {
                if m >= data.len() {
                    assert(byte_strings(parity@)[m - data.len()].len() == shard_size);
                } else {
                    assert(data[m].len() == shard_size);
                }
            }
        }
        Ok(all)
    }

    /// Decode: rebuild all N shards from the available ones. Shard `i` is available if
    /// `present[i]` holds and `shards[i]` is there.
    pub fn decode(&self, shards: &[Option<Vec<u8>>], present: &[bool]) -> (r: StorageResult<
        Vec<Vec<u8>>,
    >)
        requires
            self.wf(),
            shards@.len() == self.k() + self.c(),
            present@.len() == self.k() + self.c(),
        ensures
            r is Ok <==> decodable(self.k(), self.c(), available(shards@, present@)),
            r matches Ok(all) ==> byte_strings(all@) == decoded_shards(
                self.k(),
                self.c(),
                available(shards@, present@),
            ),
            r matches Ok(all) ==> all@.len() == self.k() + self.c() && all_of_size(
                byte_strings(all@),
                first_size(available(shards@, present@)).unwrap(),
            ),
            r matches Err(e) ==> if survivors(available(shards@, present@)) < self.k() {
                e is TooManyFailures
            } else {
                e is ReedSolomonError
            },
            // Any K shards of an encoding give all of it back.
            forall|data: Seq<Seq<u8>>, size: nat|
                #![trigger is_encoding(self.k(), self.c(), data, size)]
                is_encoding(self.k(), self.c(), data, size) && parts_of(
                    encoded(self.k(), self.c(), data),
                    available(shards@, present@),
                ) && survivors(available(shards@, present@)) >= self.k() ==> r is Ok
                    && byte_strings(r.unwrap()@) == encoded(self.k(), self.c(), data),
    {
        let mut usable: Vec<Option<Vec<u8>>> = Vec::new();
        let mut i: usize = 0;
        while i < shards.len()
            invariant
                i <= shards@.len(),
                shards@.len() == present@.len(),
                usable@.len() == i,
                forall|j: int|
                    0 <= j < i ==> #[trigger] optional_byte_strings(usable@)[j] == available(
                        shards@,
                        present@,
                    )[j],
            decreases shards.len() - i,
        {
            let shard: Option<Vec<u8>> = if present[i] {
                match &shards[i] {
                    Some(b) => {
                        let copy: Vec<u8> = b.clone();
                        assert(copy@ =~= b@);
                        Some(copy)
                    },
                    None => None,
                }
            } else {
                None
            };
            let ghost before = usable@;
            usable.push(shard);
            assert forall|j: int| 0 <= j <= i implies #[trigger] optional_byte_strings(usable@)[j]
                == available(shards@, present@)[j] by {
                if j < i {
                    assert(optional_byte_strings(before)[j] == optional_byte_strings(usable@)[j]);
                }
            }
            i += 1;
        }
        assert(optional_byte_strings(usable@) =~= available(shards@, present@));
        reconstruct(self.k, self.c, usable.as_slice())
    }
}

/// The shards that are marked present and are there.
pub open spec fn available(shards: Seq<Option<Vec<u8>>>, present: Seq<bool>) -> Seq<
    Option<Seq<u8>>,
> {
    Seq::new(
        shards.len(),
        |i: int|
            if present[i] {
                optional_byte_strings(shards)[i]
            } else {
                None
            },
    )
}

} // verus!
