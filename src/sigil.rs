//! The erasure-coded regeneration path: seal data into a chunk set with
//! parity and an integrity residual, and regenerate it from a damaged set.
use crate::digest::{hex_spec, le_u64, le_u64_spec, sha256, sha256_of, to_hex};
use crate::erasure::{
    restorable, add_rs_parity, chunk_spec, chunks_view, encoded_chunks, regenerate_with_rs, regenerated,
    split_into_chunks, uniform, ErasureError,
};
use crate::keys::{derived_key, ratchet_key};
use crate::policy::{access_decision, check_access, current_time_millis, opt_view, AccessDenied};
use crate::residual::{decode_zeckendorf, decoded_residual, is_canonical_residual, zeckendorf};
use crate::seed::{seed_from_samples, seed_of_sample};
use crate::transform::{forward_spec, forward_transform, inverse_spec, inverse_transform};
use vstd::prelude::*;
use vstd::string::StringSliceAdditionalSpecFns;

verus! {

/// Passes of the transform on this path.
pub const SIGIL_LEVELS: u64 = 3;

/// Parity chunks appended to every sealed chunk set.
pub const PARITY_CHUNKS: usize = 2;

/// The smallest chunk, in bytes.
pub const MIN_CHUNK: usize = 4;

/// The most data chunks: with the parity chunks, a column codeword must fit
/// in the 255 symbols of GF(256).
pub const MAX_DATA_CHUNKS: usize = 253;

/// Why sealing or regeneration failed.
#[derive(Debug, Clone, Copy, PartialEq, Eq, Structural)]
pub enum SigilError {
    /// The access policy refused.
    Denied(AccessDenied),
    /// The chunk set, the missing indices or the length do not fit together.
    Malformed,
    /// The missing chunks could not be rebuilt.
    Erasure(ErasureError),
    /// The residual does not match the checksum of the regenerated payload.
    ResidualMismatch,
}

/// The transform seed of a text key: the seed of its bytes.
pub open spec fn key_seed(key: Seq<u8>) -> u64 {
    seed_of_sample(key)
}

/// The sealed form of `data` under a text key with bytes `key`.
pub open spec fn sealed(data: Seq<u8>, key: Seq<u8>) -> Seq<u8> {
    forward_spec(data, key_seed(key), SIGIL_LEVELS as nat)
}

/// The chunk size for a payload of `len` bytes: `MIN_CHUNK`, or where
/// `MAX_DATA_CHUNKS` chunks of that size are too few, the smallest size at
/// which they suffice.
pub open spec fn sigil_chunk_size(len: nat) -> nat {
    if len <= MIN_CHUNK * MAX_DATA_CHUNKS {
        MIN_CHUNK as nat
    } else {
        ((len - 1) as nat / MAX_DATA_CHUNKS as nat + 1) as nat
    }
}

/// `cs` splits `s` into zero-padded chunks of `size` bytes; an empty payload
/// gives a single zero chunk.
pub open spec fn is_chunking(cs: Seq<Seq<u8>>, s: Seq<u8>, size: nat) -> bool {
    &&& if s.len() == 0 {
        cs.len() == 1
    } else {
        cs.len() * size >= s.len() && cs.len() * size < s.len() + size
    }
    &&& forall|i: int| 0 <= i < cs.len() ==> #[trigger] cs[i] == chunk_spec(s, size, i)
}

/// The checksum that a residual encodes: the first eight digest bytes of the
/// payload, little-endian.
pub open spec fn checksum(s: Seq<u8>) -> u64 {
    le_u64_spec(sha256_of(s))
}

/// `(chunks, new_key, len, residual)` is what sealing `data` under a text key
/// with bytes `key` gives: the sealed bytes split into chunks and followed by
/// their parity chunks, the key ratcheted over the hexadecimal digest of the
/// sealed bytes, the original length, and the residual of their checksum.
pub open spec fn is_sealing(
    data: Seq<u8>,
    key: Seq<u8>,
    chunks: Seq<Seq<u8>>,
    new_key: Seq<char>,
    len: nat,
    residual: Seq<char>,
) -> bool {
    let s = sealed(data, key);
    let data_chunks = chunks.subrange(0, chunks.len() - PARITY_CHUNKS);
    &&& PARITY_CHUNKS + 1 <= chunks.len() <= MAX_DATA_CHUNKS + PARITY_CHUNKS
    &&& is_chunking(data_chunks, s, sigil_chunk_size(s.len()))
    &&& chunks == encoded_chunks(data_chunks, PARITY_CHUNKS as nat)
    &&& new_key == hex_spec(derived_key(key, vstd::utf8::encode_utf8(hex_spec(sha256_of(s)))))
    &&& len == data.len()
    &&& is_canonical_residual(residual, checksum(s) as nat)
}

/// All chunks after one another.
pub open spec fn flatten(cs: Seq<Seq<u8>>) -> Seq<u8>
    decreases cs.len(),
{
    if cs.len() == 0 {
        Seq::empty()
    } else {
        flatten(cs.drop_last()) + cs.last()
    }
}

/// A chunk set and missing indices that regeneration can work on.
pub open spec fn valid_shape(cs: Seq<Seq<u8>>, missing: Seq<usize>) -> bool {
    &&& PARITY_CHUNKS + 1 <= cs.len() < 256
    &&& uniform(cs, cs[0].len())
    &&& missing.no_duplicates()
    &&& forall|i: int| 0 <= i < missing.len() ==> #[trigger] missing[i] < cs.len()
}

/// What regeneration returns.
pub open spec fn regeneration(
    cs: Seq<Seq<u8>>,
    key: Seq<u8>,
    missing: Seq<usize>,
    len: nat,
    residual: Seq<char>,
) -> Result<Seq<u8>, SigilError> {
    if !valid_shape(cs, missing) {
        Err(SigilError::Malformed)
    } else {
        match regenerated(cs, missing, PARITY_CHUNKS as nat) {
            None => Err(
                SigilError::Erasure(
                    if missing.len() > PARITY_CHUNKS {
                        ErasureError::TooManyMissing
                    } else {
                        ErasureError::Unrecoverable
                    },
                ),
            ),
            Some(c) => {
                let payload = flatten(c.subrange(0, c.len() - PARITY_CHUNKS));
                if len > payload.len() {
                    Err(SigilError::Malformed)
                } else {
                    let t = payload.subrange(0, len as int);
                    if decoded_residual(residual) != Some(checksum(t)) {
                        Err(SigilError::ResidualMismatch)
                    } else {
                        Ok(inverse_spec(t, key_seed(key), SIGIL_LEVELS as nat))
                    }
                }
            },
        }
    }
}

proof fn lemma_flatten_index(cs: Seq<Seq<u8>>, size: nat)
    requires
        uniform(cs, size),
    ensures
        flatten(cs).len() == cs.len() * size,
        forall|i: int, j: int|
            0 <= i < cs.len() && 0 <= j < size ==> #[trigger] flatten(cs)[i * size + j] == cs[i][j],
    decreases cs.len(),
{
    if cs.len() > 0 {
        let prev = cs.drop_last();
        assert(uniform(prev, size)) by {
            assert forall|i: int| 0 <= i < prev.len() implies (#[trigger] prev[i]).len() == size by {
                assert(prev[i] == cs[i]);
            }
        }
        lemma_flatten_index(prev, size);
        let n = cs.len() as int;
        assert(cs.len() * size == prev.len() * size + size) by (nonlinear_arith)
            requires
                prev.len() + 1 == cs.len(),
        ;
        assert(cs.last().len() == size);
        assert forall|i: int, j: int| 0 <= i < cs.len() && 0 <= j < size implies #[trigger] flatten(
            cs,
        )[i * size + j] == cs[i][j] by {
            if i < n - 1 {
                assert(i * size + j < prev.len() * size) by (nonlinear_arith)
                    requires
                        i < prev.len(),
                        j < size,
                ;
                assert(prev[i] == cs[i]);
            } else {
                assert(i * size == prev.len() * size);
            }
        }
    } else {
        assert(cs.len() * size == 0) by (nonlinear_arith)
            requires
                cs.len() == 0,
        ;
    }
}

proof fn lemma_flatten_chunking(cs: Seq<Seq<u8>>, s: Seq<u8>, size: nat)
    requires
        is_chunking(cs, s, size),
        size > 0,
    ensures
        flatten(cs).len() >= s.len(),
        flatten(cs).subrange(0, s.len() as int) == s,
{
    assert(uniform(cs, size)) by {
        assert forall|i: int| 0 <= i < cs.len() implies (#[trigger] cs[i]).len() == size by {
            assert(cs[i] == chunk_spec(s, size, i));
        }
    }
    lemma_flatten_index(cs, size);
    if s.len() == 0 {
        assert(flatten(cs).subrange(0, 0) =~= s);
    } else {
        assert forall|t: int| 0 <= t < s.len() implies #[trigger] flatten(cs)[t] == s[t] by {
            let i = t / (size as int);
            let j = t % (size as int);
            assert(t == i * size + j && 0 <= j < size && 0 <= i) by (nonlinear_arith)
                requires
                    size > 0,
                    t >= 0,
                    i == t / (size as int),
                    j == t % (size as int),
            ;
            assert(i < cs.len()) by (nonlinear_arith)
                requires
                    t == i * size + j,
                    0 <= j,
                    t < s.len(),
                    cs.len() * size >= s.len(),
                    size > 0,
            ;
            assert(cs[i] == chunk_spec(s, size, i));
        }
        assert(flatten(cs).subrange(0, s.len() as int) =~= s);
    }
}

/// `cs` is a sealed chunk set of `data` (with ratcheted key `new_key`, length
/// `len` and residual `residual`) but for the chunks at the missing indices,
/// which may hold anything of the right length; at most `PARITY_CHUNKS` are
/// missing.
pub open spec fn damaged_sealing(
    cs: Seq<Seq<u8>>,
    key: Seq<u8>,
    missing: Seq<usize>,
    len: nat,
    residual: Seq<char>,
    data: Seq<u8>,
    sealed_chunks: Seq<Seq<u8>>,
    new_key: Seq<char>,
) -> bool {
    &&& is_sealing(data, key, sealed_chunks, new_key, len, residual)
    &&& cs.len() == sealed_chunks.len()
    &&& uniform(cs, sealed_chunks[0].len())
    &&& missing.len() <= PARITY_CHUNKS
    &&& missing.no_duplicates()
    &&& forall|i: int| 0 <= i < missing.len() ==> #[trigger] missing[i] < cs.len()
    &&& forall|i: int|
        0 <= i < cs.len() && !missing.contains(i as usize) ==> #[trigger] cs[i] == sealed_chunks[i]
}

proof fn lemma_damaged_facts(
    cs: Seq<Seq<u8>>,
    key: Seq<u8>,
    missing: Seq<usize>,
    len: nat,
    residual: Seq<char>,
    data: Seq<u8>,
    sealed_chunks: Seq<Seq<u8>>,
    new_key: Seq<char>,
)
    requires
        damaged_sealing(cs, key, missing, len, residual, data, sealed_chunks, new_key),
    ensures
        valid_shape(cs, missing),
        restorable(
            cs,
            missing,
            sealed_chunks.subrange(0, sealed_chunks.len() - PARITY_CHUNKS),
            PARITY_CHUNKS as nat,
        ),
        encoded_chunks(
            sealed_chunks.subrange(0, sealed_chunks.len() - PARITY_CHUNKS),
            PARITY_CHUNKS as nat,
        ) == sealed_chunks,
        flatten(sealed_chunks.subrange(0, sealed_chunks.len() - PARITY_CHUNKS)).len() >= len,
        flatten(sealed_chunks.subrange(0, sealed_chunks.len() - PARITY_CHUNKS)).subrange(0, len as int)
            == sealed(data, key),
        decoded_residual(residual) == Some(checksum(sealed(data, key))),
{
    let s = sealed(data, key);
    let d = sealed_chunks.subrange(0, sealed_chunks.len() - PARITY_CHUNKS);
    let size = sigil_chunk_size(s.len());
    crate::transform::lemma_transform_length(data, key_seed(key), SIGIL_LEVELS as nat);
    assert(size > 0);
    lemma_flatten_chunking(d, s, size);
    assert(d[0] == chunk_spec(s, size, 0));
    assert(uniform(d, d[0].len())) by {
        assert forall|i: int| 0 <= i < d.len() implies (#[trigger] d[i]).len() == d[0].len() by {
            assert(d[i] == chunk_spec(s, size, i));
        }
    }
    assert(sealed_chunks[0] == d[0]);
    crate::residual::lemma_residual_round_trip(residual, checksum(s));
}

/// Whether all chunks are as long as the first.
fn is_uniform(cs: &Vec<Vec<u8>>) -> (r: bool)
    requires
        cs@.len() >= 1,
    ensures
        r == uniform(chunks_view(cs@), cs@[0]@.len()),
{
    let size = cs[0].len();
    let mut i: usize = 0;
    while i < cs.len()
        invariant
            cs@.len() >= 1,
            size == cs@[0]@.len(),
            i <= cs@.len(),
            forall|t: int| 0 <= t < i ==> (#[trigger] cs@[t])@.len() == size,
        decreases cs@.len() - i,
    {
        if cs[i].len() != size {
            assert(chunks_view(cs@)[i as int].len() != size);
            return false;
        }
        i = i + 1;
    }
    assert forall|t: int| 0 <= t < chunks_view(cs@).len() implies (#[trigger] chunks_view(cs@)[t]).len()
        == size by {
        assert(cs@[t]@.len() == size);
    }
    true
}

/// Whether the indices are distinct and below `bound`.
fn indices_ok(missing: &Vec<usize>, bound: usize) -> (r: bool)
    ensures
        r == (missing@.no_duplicates() && forall|i: int|
            0 <= i < missing@.len() ==> #[trigger] missing@[i] < bound),
{
    let mut i: usize = 0;
    while i < missing.len()
        invariant
            i <= missing@.len(),
            forall|a: int, b: int| 0 <= a < i && 0 <= b < i && a != b ==> missing@[a] != missing@[b],
            forall|a: int| 0 <= a < i ==> #[trigger] missing@[a] < bound,
        decreases missing@.len() - i,
    {
        if missing[i] >= bound {
            return false;
        }
        let mut j: usize = 0;
        while j < i
            invariant
                i < missing@.len(),
                j <= i,
                forall|b: int| 0 <= b < j ==> missing@[b] != missing@[i as int],
            decreases i - j,
        {
            if missing[j] == missing[i] {
                return false;
            }
            j = j + 1;
        }
        i = i + 1;
    }
    true
}

/// The first `count` chunks, joined.
fn flatten_prefix(cs: &Vec<Vec<u8>>, count: usize) -> (r: Vec<u8>)
    requires
        count <= cs@.len(),
    ensures
        r@ == flatten(chunks_view(cs@).subrange(0, count as int)),
{
    let ghost cv = chunks_view(cs@);
    let mut out: Vec<u8> = Vec::new();
    let mut i: usize = 0;
    while i < count
        invariant
            cv == chunks_view(cs@),
            count <= cs@.len(),
            i <= count,
            out@ == flatten(cv.subrange(0, i as int)),
        decreases count - i,
    {
        let ghost before = out@;
        let mut j: usize = 0;
        while j < cs[i].len()
            invariant
                i < count <= cs@.len(),
                j <= cs@[i as int]@.len(),
                out@ == before + cs@[i as int]@.subrange(0, j as int),
            decreases cs@[i as int]@.len() - j,
        {
            out.push(cs[i][j]);
            assert(cs@[i as int]@.subrange(0, j + 1) =~= cs@[i as int]@.subrange(0, j as int).push(
                cs@[i as int]@[j as int],
            ));
            j = j + 1;
        }
        assert(cs@[i as int]@.subrange(0, j as int) =~= cs@[i as int]@);
        assert(cv.subrange(0, i + 1).drop_last() =~= cv.subrange(0, i as int));
        i = i + 1;
    }
    out
}

/// Splits a sealed payload into the chunks of this path.
fn sigil_chunks(encrypted: &Vec<u8>) -> (r: Vec<Vec<u8>>)
    ensures
        1 <= r@.len() <= MAX_DATA_CHUNKS,
        is_chunking(chunks_view(r@), encrypted@, sigil_chunk_size(encrypted@.len())),
        uniform(chunks_view(r@), r@[0]@.len()),
{
    let ghost s = encrypted@;
    let chunk_size = if encrypted.len() <= MIN_CHUNK * MAX_DATA_CHUNKS {
        MIN_CHUNK
    } else {
        (encrypted.len() - 1) / MAX_DATA_CHUNKS + 1
    };
    let mut chunks = split_into_chunks(encrypted, chunk_size);
    if chunks.len() == 0 {
        let mut zero: Vec<u8> = Vec::new();
        let mut j: usize = 0;
        while j < chunk_size
            invariant
                j <= chunk_size,
                zero@.len() == j,
                forall|t: int| 0 <= t < j ==> zero@[t] == 0u8,
            decreases chunk_size - j,
        {
            zero.push(0u8);
            j = j + 1;
        }
        assert(s.len() == 0) by (nonlinear_arith)
            requires
                chunks@.len() * chunk_size >= s.len(),
                chunks@.len() == 0,
        ;
        assert(zero@ =~= chunk_spec(s, chunk_size as nat, 0));
        chunks.push(zero);
    } else {
        assert(s.len() > 0) by (nonlinear_arith)
            requires
                chunks@.len() * chunk_size < s.len() + chunk_size,
                chunks@.len() >= 1,
        ;
    }
    let ghost dv = chunks_view(chunks@);
    if encrypted.len() > 1012 {
        assert(chunk_size * 253 >= s.len()) by (nonlinear_arith)
            requires
                chunk_size == (s.len() - 1) / 253 + 1,
                s.len() > 1012,
        ;
        assert(chunks@.len() <= MAX_DATA_CHUNKS) by (nonlinear_arith)
            requires
                chunks@.len() * chunk_size < s.len() + chunk_size,
                chunk_size * 253 >= s.len(),
                chunk_size > 0,
        ;
    } else {
        assert(chunks@.len() <= MAX_DATA_CHUNKS) by (nonlinear_arith)
            requires
                s.len() == 0 ==> chunks@.len() == 1,
                s.len() > 0 ==> chunks@.len() * chunk_size < s.len() + chunk_size,
                s.len() <= 1012,
                chunk_size == 4,
        ;
    }
    assert forall|i: int| 0 <= i < dv.len() implies #[trigger] dv[i] == chunk_spec(
        s,
        chunk_size as nat,
        i,
    ) by {
        assert(dv[i] == chunks@[i]@);
    }
    assert(uniform(dv, dv[0].len()));
    chunks
}

/// Seals `data` at instant `now` (milliseconds since the Unix epoch): checks
/// the access policy, transforms the data under the seed of `seed_key`, splits
/// it into chunks with `PARITY_CHUNKS` parity chunks, ratchets the key over
/// the digest of the sealed bytes, and encodes the sealed bytes' checksum as
/// a residual. Returns the chunk set, the ratcheted key, the original length
/// and the residual.
#[verifier::rlimit(40)]
pub fn sigil_transform_at(
    now: i64,
    data: &Vec<u8>,
    seed_key: &str,
    time_restriction: Option<i64>,
    place: Option<&str>,
    manner: Option<&str>,
) -> (r: Result<(Vec<Vec<u8>>, String, usize, String), SigilError>)
    requires
        seed_key.spec_bytes().len() + 64 <= usize::MAX,
    ensures
        match access_decision(now, time_restriction, opt_view(place), opt_view(manner)) {
            Err(d) => r == Err::<(Vec<Vec<u8>>, String, usize, String), SigilError>(
                SigilError::Denied(d),
            ),
            Ok(_) => r is Ok,
        },
        r matches Ok((chunks, key, len, residual)) ==> is_sealing(
            data@,
            seed_key.spec_bytes(),
            chunks_view(chunks@),
            key@,
            len as nat,
            residual@,
        ),
{
    match check_access(now, time_restriction, place, manner) {
        Err(d) => {
            return Err(SigilError::Denied(d));
        },
        Ok(()) => {},
    }
    let seed = seed_from_samples(seed_key.as_bytes());
    let encrypted = forward_transform(data, seed, SIGIL_LEVELS);
    let ghost s = encrypted@;
    proof {
        crate::transform::lemma_transform_length(data@, seed, SIGIL_LEVELS as nat);
    }
    let digest = sha256(encrypted.as_slice());
    let data_hash = to_hex(digest.as_slice());
    proof {
        crate::digest::lemma_hex_ascii(digest@);
    }
    let new_key = ratchet_key(seed_key, data_hash.as_str());
    let chunks = sigil_chunks(&encrypted);
    let ghost dv = chunks_view(chunks@);
    let with_parity = add_rs_parity(&chunks, PARITY_CHUNKS);
    proof {
        assert(chunks_view(with_parity@).subrange(0, chunks_view(with_parity@).len() - 2) =~= dv);
    }
    let checksum_value = le_u64(digest.as_slice());
    let residual = zeckendorf(checksum_value);
    Ok((with_parity, new_key, data.len(), residual))
}

/// Regenerates the original bytes from a sealed chunk set in which the
/// chunks at `missing_indices` were lost: rebuilds them, joins the data
/// chunks, cuts the padding at `original_length`, checks the payload against
/// the residual, and inverts the transform under the seed of `seed_key`. The
/// chunk set keeps the rebuilt chunks where they could be rebuilt. A sealed
/// chunk set with at most `PARITY_CHUNKS` chunks lost regenerates to the
/// sealed data.
pub fn sigil_regenerate(
    chunks_with_parity: &mut Vec<Vec<u8>>,
    seed_key: &str,
    missing_indices: &Vec<usize>,
    original_length: usize,
    fib_residual: &str,
) -> (r: Result<Vec<u8>, SigilError>)
    ensures
        match r {
            Ok(v) => regeneration(
                chunks_view(old(chunks_with_parity)@),
                seed_key.spec_bytes(),
                missing_indices@,
                original_length as nat,
                fib_residual@,
            ) == Ok::<Seq<u8>, SigilError>(v@),
            Err(e) => regeneration(
                chunks_view(old(chunks_with_parity)@),
                seed_key.spec_bytes(),
                missing_indices@,
                original_length as nat,
                fib_residual@,
            ) == Err::<Seq<u8>, SigilError>(e),
        },
        valid_shape(chunks_view(old(chunks_with_parity)@), missing_indices@) && regenerated(
            chunks_view(old(chunks_with_parity)@),
            missing_indices@,
            PARITY_CHUNKS as nat,
        ) is Some ==> Some(chunks_view(final(chunks_with_parity)@)) == regenerated(
            chunks_view(old(chunks_with_parity)@),
            missing_indices@,
            PARITY_CHUNKS as nat,
        ),
        !(valid_shape(chunks_view(old(chunks_with_parity)@), missing_indices@) && regenerated(
            chunks_view(old(chunks_with_parity)@),
            missing_indices@,
            PARITY_CHUNKS as nat,
        ) is Some) ==> final(chunks_with_parity)@ == old(chunks_with_parity)@,
        forall|data: Seq<u8>, sealed_chunks: Seq<Seq<u8>>, new_key: Seq<char>|
            #[trigger] damaged_sealing(
                chunks_view(old(chunks_with_parity)@),
                seed_key.spec_bytes(),
                missing_indices@,
                original_length as nat,
                fib_residual@,
                data,
                sealed_chunks,
                new_key,
            ) ==> r is Ok && r->Ok_0@ == data && chunks_view(final(chunks_with_parity)@)
                == sealed_chunks,
{
    let ghost cv = chunks_view(chunks_with_parity@);
    let ghost kb = seed_key.spec_bytes();
    proof {
        assert forall|data: Seq<u8>, sc: Seq<Seq<u8>>, nk: Seq<char>| #[trigger]
            damaged_sealing(
                cv,
                kb,
                missing_indices@,
                original_length as nat,
                fib_residual@,
                data,
                sc,
                nk,
            ) implies valid_shape(cv, missing_indices@) && restorable(
            cv,
            missing_indices@,
            sc.subrange(0, sc.len() - PARITY_CHUNKS),
            PARITY_CHUNKS as nat,
        ) && encoded_chunks(sc.subrange(0, sc.len() - PARITY_CHUNKS), PARITY_CHUNKS as nat) == sc
            && flatten(sc.subrange(0, sc.len() - PARITY_CHUNKS)).len() >= original_length
            && flatten(sc.subrange(0, sc.len() - PARITY_CHUNKS)).subrange(0, original_length as int)
            == sealed(data, kb) && decoded_residual(fib_residual@) == Some(
            checksum(sealed(data, kb)),
        ) by {
            lemma_damaged_facts(cv, kb, missing_indices@, original_length as nat, fib_residual@, data, sc, nk);
        }
    }
    let n = chunks_with_parity.len();
    if n < PARITY_CHUNKS + 1 || n >= 256 {
        return Err(SigilError::Malformed);
    }
    if !is_uniform(chunks_with_parity) || !indices_ok(missing_indices, n) {
        return Err(SigilError::Malformed);
    }
    assert(valid_shape(cv, missing_indices@));
    match regenerate_with_rs(chunks_with_parity, missing_indices, PARITY_CHUNKS) {
        Err(e) => {
            return Err(SigilError::Erasure(e));
        },
        Ok(()) => {},
    }
    let ghost c = chunks_view(chunks_with_parity@);
    let mut encrypted = flatten_prefix(chunks_with_parity, n - PARITY_CHUNKS);
    if original_length > encrypted.len() {
        return Err(SigilError::Malformed);
    }
    encrypted.truncate(original_length);
    let expected = decode_zeckendorf(fib_residual);
    let digest = sha256(encrypted.as_slice());
    let actual = le_u64(digest.as_slice());
    match expected {
        None => {
            return Err(SigilError::ResidualMismatch);
        },
        Some(v) => {
            if v != actual {
                return Err(SigilError::ResidualMismatch);
            }
        },
    }
    let seed = seed_from_samples(seed_key.as_bytes());
    let data = inverse_transform(&encrypted, seed, SIGIL_LEVELS);
    proof {
        assert forall|d: Seq<u8>, sc: Seq<Seq<u8>>, nk: Seq<char>| #[trigger]
            damaged_sealing(cv, kb, missing_indices@, original_length as nat, fib_residual@, d, sc, nk)
            implies data@ == d by {
            crate::transform::lemma_transform_round_trip(d, seed, SIGIL_LEVELS as nat);
        }
    }
    Ok(data)
}

/// Seals `data` at the current time; see `sigil_transform_at`. Without an
/// expiry instant the outcome does not depend on the time.
pub fn sigil_transform(
    data: &Vec<u8>,
    seed_key: &str,
    time_restriction: Option<i64>,
    place: Option<&str>,
    manner: Option<&str>,
) -> (r: Result<(Vec<Vec<u8>>, String, usize, String), SigilError>)
    requires
        seed_key.spec_bytes().len() + 64 <= usize::MAX,
    ensures
        exists|now: i64|
            match #[trigger] access_decision(now, time_restriction, opt_view(place), opt_view(manner)) {
                Err(d) => r == Err::<(Vec<Vec<u8>>, String, usize, String), SigilError>(
                    SigilError::Denied(d),
                ),
                Ok(_) => r is Ok,
            },
        time_restriction is None ==> match access_decision(0, None, opt_view(place), opt_view(manner)) {
            Err(d) => r == Err::<(Vec<Vec<u8>>, String, usize, String), SigilError>(
                SigilError::Denied(d),
            ),
            Ok(_) => r is Ok,
        },
        r matches Ok((chunks, key, len, residual)) ==> is_sealing(
            data@,
            seed_key.spec_bytes(),
            chunks_view(chunks@),
            key@,
            len as nat,
            residual@,
        ),
{
    let now = current_time_millis();
    sigil_transform_at(now, data, seed_key, time_restriction, place, manner)
}

} // verus!
