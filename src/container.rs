//! The signed archive container. Layout:
//! `SIGILARC`, levels and seed (eight little-endian bytes each), the
//! compressed transformed payload, `::SIGN::`, the detached signature,
//! `::PKEY::`, the public key.
use crate::digest::{le_u64, le_u64_spec};
use crate::framing::{
    append_bytes, find_from, first_occurrence, le_bytes, lemma_le_round_trip, occurs_at, u64_to_le,
};
use crate::seed::{derive_seed, sampled, seed_of_sample};
use crate::transform::{forward_spec, forward_transform, inverse_spec, inverse_transform};
use miniz_oxide::deflate::compress_to_vec;
use miniz_oxide::inflate::{decompress_to_vec, DecompressError};
use pqcrypto_dilithium::dilithium5::{
    detached_sign, keypair, verify_detached_signature, DetachedSignature, PublicKey, SecretKey,
};
use pqcrypto_traits::sign::DetachedSignature as _;
use pqcrypto_traits::sign::PublicKey as _;
use pqcrypto_traits::sign::SecretKey as _;
use vstd::prelude::*;

verus! {

#[verifier::external_type_specification]
#[verifier::external_body]
pub struct ExDecompressError(DecompressError);

/// Bytes of a public key.
pub const PUBLIC_KEY_BYTES: usize = 2592;

/// Bytes of a secret key.
pub const SECRET_KEY_BYTES: usize = 4896;

/// The most bytes of a detached signature.
pub const SIGNATURE_BYTES: usize = 4627;

/// Bytes of the header: tag, level count, seed.
pub const HEADER_BYTES: usize = 24;

/// Whether `sig` is a valid signature of `msg` under the public key `pk`.
pub uninterp spec fn dilithium_valid(msg: Seq<u8>, sig: Seq<u8>, pk: Seq<u8>) -> bool;

/// `public_key` and `secret_key` were generated together as one keypair.
pub uninterp spec fn dilithium_pair(public_key: Seq<u8>, secret_key: Seq<u8>) -> bool;

/// The compressed form of `data` at compression level `level`.
pub uninterp spec fn deflated(data: Seq<u8>, level: u8) -> Seq<u8>;

/// What decompressing `data` gives, or nothing where it is not valid.
pub uninterp spec fn inflated(data: Seq<u8>) -> Option<Seq<u8>>;

/// Relies on pqcrypto_dilithium's `dilithium5::keypair`, and on `as_bytes` of
/// its key types, which hand out the fixed-size key arrays; the public key is
/// the one generated together with the secret key.
#[verifier::external_body]
fn generate_key_bytes() -> (r: (Vec<u8>, Vec<u8>))
    ensures
        r.0@.len() == PUBLIC_KEY_BYTES,
        r.1@.len() == SECRET_KEY_BYTES,
        dilithium_pair(r.0@, r.1@),
{
    let (pk, sk) = keypair();
    (pk.as_bytes().to_vec(), sk.as_bytes().to_vec())
}

/// Relies on pqcrypto_dilithium's `dilithium5::detached_sign`; the key is
/// read with `SecretKey::from_bytes`, which accepts exactly
/// `SECRET_KEY_BYTES` bytes. A signature is at most `SIGNATURE_BYTES` long
/// and verifies under any public key generated together with the secret
/// key.
#[verifier::external_body]
fn sign_detached(msg: &[u8], secret_key: &[u8]) -> (r: Vec<u8>)
    requires
        secret_key@.len() == SECRET_KEY_BYTES,
    ensures
        r@.len() <= SIGNATURE_BYTES,
        forall|pk: Seq<u8>|
            #[trigger] dilithium_pair(pk, secret_key@) ==> dilithium_valid(msg@, r@, pk),
{
    match SecretKey::from_bytes(secret_key) {
        Ok(sk) => detached_sign(msg, &sk).as_bytes().to_vec(),
        Err(_) => Vec::new(),
    }
}

/// Relies on pqcrypto_dilithium's `dilithium5::verify_detached_signature`;
/// the key is read with `PublicKey::from_bytes` and the signature with
/// `DetachedSignature::from_bytes`, which refuses more than
/// `SIGNATURE_BYTES` bytes.
#[verifier::external_body]
fn signature_valid(msg: &[u8], sig: &[u8], public_key: &[u8]) -> (r: bool)
    requires
        public_key@.len() == PUBLIC_KEY_BYTES,
    ensures
        r == dilithium_valid(msg@, sig@, public_key@),
        sig@.len() > SIGNATURE_BYTES ==> !r,
{
    match (PublicKey::from_bytes(public_key), DetachedSignature::from_bytes(sig)) {
        (Ok(pk), Ok(s)) => verify_detached_signature(&s, msg, &pk).is_ok(),
        _ => false,
    }
}

/// Relies on miniz_oxide's `deflate::compress_to_vec`: raw DEFLATE output,
/// a function of the input and the level alone.
#[verifier::external_body]
fn deflate(data: &[u8], level: u8) -> (r: Vec<u8>)
    ensures
        r@ == deflated(data@, level),
{
    compress_to_vec(data, level)
}

/// Relies on miniz_oxide's `inflate::decompress_to_vec`: the decompressed
/// bytes, or an error where the input is not valid DEFLATE data. It undoes
/// `deflate::compress_to_vec`, which is lossless.
#[verifier::external_body]
fn inflate(data: &[u8]) -> (r: Result<Vec<u8>, DecompressError>)
    ensures
        match r {
            Ok(v) => inflated(data@) == Some(v@),
            Err(_) => inflated(data@) is None,
        },
        forall|x: Seq<u8>, level: u8|
            #![trigger deflated(x, level)]
            data@ == deflated(x, level) ==> r is Ok && r->Ok_0@ == x,
{
    decompress_to_vec(data)
}

/// A signing keypair, held as bytes.
pub struct Keypair {
    pub public_key: Vec<u8>,
    pub secret_key: Vec<u8>,
}

impl Keypair {
    /// Both keys have their fixed sizes.
    pub open spec fn wf(&self) -> bool {
        self.public_key@.len() == PUBLIC_KEY_BYTES && self.secret_key@.len() == SECRET_KEY_BYTES
    }

    /// The two keys were generated together.
    pub open spec fn matched(&self) -> bool {
        dilithium_pair(self.public_key@, self.secret_key@)
    }
}

/// Why an archive operation failed.
#[derive(Debug, Clone, Copy, PartialEq, Eq, Structural)]
pub enum ArchiveError {
    /// The signature or public-key marker is missing.
    Malformed,
    /// The archive has no header, so its level count and seed are unknown.
    MissingHeader,
    /// The signature does not verify.
    SignatureInvalid,
    /// A key has the wrong size.
    InvalidKey,
    /// The payload does not decompress.
    Corrupt,
}

/// The header tag `SIGILARC`.
pub open spec fn header_tag() -> Seq<u8> {
    seq![83u8, 73u8, 71u8, 73u8, 76u8, 65u8, 82u8, 67u8]
}

/// The signature marker `::SIGN::`.
pub open spec fn sig_marker() -> Seq<u8> {
    seq![58u8, 58u8, 83u8, 73u8, 71u8, 78u8, 58u8, 58u8]
}

/// The public-key marker `::PKEY::`.
pub open spec fn pk_marker() -> Seq<u8> {
    seq![58u8, 58u8, 80u8, 75u8, 69u8, 89u8, 58u8, 58u8]
}

fn header_tag_bytes() -> (r: Vec<u8>)
    ensures
        r@ == header_tag(),
{
    let r: Vec<u8> = vec![83u8, 73u8, 71u8, 73u8, 76u8, 65u8, 82u8, 67u8];
    assert(r@ =~= header_tag());
    r
}

fn sig_marker_bytes() -> (r: Vec<u8>)
    ensures
        r@ == sig_marker(),
{
    let r: Vec<u8> = vec![58u8, 58u8, 83u8, 73u8, 71u8, 78u8, 58u8, 58u8];
    assert(r@ =~= sig_marker());
    r
}

fn pk_marker_bytes() -> (r: Vec<u8>)
    ensures
        r@ == pk_marker(),
{
    let r: Vec<u8> = vec![58u8, 58u8, 80u8, 75u8, 69u8, 89u8, 58u8, 58u8];
    assert(r@ =~= pk_marker());
    r
}

/// The archive bytes for the given segments.
pub open spec fn archive_bytes(
    levels: u64,
    seed: u64,
    payload: Seq<u8>,
    signature: Seq<u8>,
    public_key: Seq<u8>,
) -> Seq<u8> {
    header_tag() + le_bytes(levels) + le_bytes(seed) + payload + sig_marker() + signature
        + pk_marker() + public_key
}

/// The segments of a parsed archive; `header` holds the level count and the
/// seed, or nothing where the header tag is missing.
pub struct ParsedArchive {
    pub header: Option<(u64, u64)>,
    pub payload: Vec<u8>,
    pub signature: Vec<u8>,
    pub public_key: Vec<u8>,
}

/// The plain segments of a parsed archive.
pub open spec fn parsed_view(p: ParsedArchive) -> (Option<(u64, u64)>, Seq<u8>, Seq<u8>, Seq<u8>) {
    (p.header, p.payload@, p.signature@, p.public_key@)
}

/// The archive starts with the header tag and a full header.
pub open spec fn has_header(a: Seq<u8>) -> bool {
    a.len() >= HEADER_BYTES && a.subrange(0, 8) == header_tag()
}

/// Parsing: the payload runs from the end of the header (or the start, where
/// the header is missing) to the first signature marker; the signature to the
/// first public-key marker after it; the public key to the end.
pub open spec fn parsed(a: Seq<u8>) -> Option<(Option<(u64, u64)>, Seq<u8>, Seq<u8>, Seq<u8>)> {
    let body: int = if has_header(a) {
        HEADER_BYTES as int
    } else {
        0
    };
    let header = if has_header(a) {
        Some((le_u64_spec(a.subrange(8, 16)), le_u64_spec(a.subrange(16, 24))))
    } else {
        None
    };
    match first_occurrence(a, sig_marker(), body) {
        None => None,
        Some(s) => match first_occurrence(a, pk_marker(), s + 8) {
            None => None,
            Some(k) => Some(
                (header, a.subrange(body, s), a.subrange(s + 8, k), a.subrange(k + 8, a.len() as int)),
            ),
        },
    }
}

/// Bytes `start .. end` of `a`, copied.
fn copy_range(a: &[u8], start: usize, end: usize) -> (r: Vec<u8>)
    requires
        start <= end <= a@.len(),
    ensures
        r@ == a@.subrange(start as int, end as int),
{
    let mut out: Vec<u8> = Vec::new();
    let mut i: usize = start;
    while i < end
        invariant
            start <= i <= end <= a@.len(),
            out@ == a@.subrange(start as int, i as int),
        decreases end - i,
    {
        out.push(a[i]);
        assert(a@.subrange(start as int, i + 1) =~= a@.subrange(start as int, i as int).push(a@[i as int]));
        i = i + 1;
    }
    out
}

/// Generates a fresh keypair from the system's random source.
pub fn generate_keypair() -> (r: Keypair)
    ensures
        r.wf(),
        r.matched(),
{
    let (public_key, secret_key) = generate_key_bytes();
    Keypair { public_key, secret_key }
}

/// Loads a keypair from its bytes; keys of the wrong size are refused.
pub fn load_keypair(public_key: &[u8], secret_key: &[u8]) -> (r: Result<Keypair, ArchiveError>)
    ensures
        match r {
            Ok(k) => k.wf() && k.public_key@ == public_key@ && k.secret_key@ == secret_key@,
            Err(e) => e == ArchiveError::InvalidKey && !(public_key@.len() == PUBLIC_KEY_BYTES
                && secret_key@.len() == SECRET_KEY_BYTES),
        },
{
    if public_key.len() != PUBLIC_KEY_BYTES || secret_key.len() != SECRET_KEY_BYTES {
        return Err(ArchiveError::InvalidKey);
    }
    let p = copy_range(public_key, 0, public_key.len());
    let s = copy_range(secret_key, 0, secret_key.len());
    assert(p@ =~= public_key@);
    assert(s@ =~= secret_key@);
    Ok(Keypair { public_key: p, secret_key: s })
}

/// Lays out the archive bytes for the given segments.
pub fn frame_archive(
    levels: u64,
    seed: u64,
    payload: &[u8],
    signature: &[u8],
    public_key: &[u8],
) -> (r: Vec<u8>)
    ensures
        r@ == archive_bytes(levels, seed, payload@, signature@, public_key@),
{
    let mut out = header_tag_bytes();
    append_bytes(&mut out, u64_to_le(levels).as_slice());
    append_bytes(&mut out, u64_to_le(seed).as_slice());
    append_bytes(&mut out, payload);
    append_bytes(&mut out, sig_marker_bytes().as_slice());
    append_bytes(&mut out, signature);
    append_bytes(&mut out, pk_marker_bytes().as_slice());
    append_bytes(&mut out, public_key);
    assert(out@ =~= archive_bytes(levels, seed, payload@, signature@, public_key@));
    out
}

/// Splits archive bytes into header, payload, signature and public key.
pub fn parse_archive(bytes: &[u8]) -> (r: Result<ParsedArchive, ArchiveError>)
    ensures
        match r {
            Ok(p) => parsed(bytes@) == Some(parsed_view(p)),
            Err(e) => e == ArchiveError::Malformed && parsed(bytes@) is None,
        },
{
    let total = bytes.len();
    let tag = header_tag_bytes();
    let mut header: Option<(u64, u64)> = None;
    let mut body: usize = 0;
    if total >= HEADER_BYTES {
        let tag_ok = crate::framing::matches_at(bytes, tag.as_slice(), 0);
        assert(tag_ok == (bytes@.subrange(0, 8) == header_tag()));
        if tag_ok {
            let levels = le_u64(&bytes[8..16]);
            let seed = le_u64(&bytes[16..24]);
            header = Some((levels, seed));
            body = HEADER_BYTES;
        }
    }
    let sig_pos = match find_from(bytes, sig_marker_bytes().as_slice(), body) {
        None => {
            return Err(ArchiveError::Malformed);
        },
        Some(s) => s,
    };
    proof {
        lemma_first_occurs(bytes@, sig_marker(), body as int);
    }
    let pk_pos = match find_from(bytes, pk_marker_bytes().as_slice(), sig_pos + 8) {
        None => {
            return Err(ArchiveError::Malformed);
        },
        Some(k) => k,
    };
    proof {
        lemma_first_occurs(bytes@, pk_marker(), sig_pos + 8);
    }
    let payload = copy_range(bytes, body, sig_pos);
    let signature = copy_range(bytes, sig_pos + 8, pk_pos);
    let public_key = copy_range(bytes, pk_pos + 8, total);
    Ok(ParsedArchive { header, payload, signature, public_key })
}

proof fn lemma_first_occurs(h: Seq<u8>, n: Seq<u8>, from: int)
    ensures
        first_occurrence(h, n, from) matches Some(i) ==> occurs_at(h, n, i) && from <= i,
    decreases h.len() + 1 - from,
{
    if !(from < 0 || from + n.len() > h.len()) && !occurs_at(h, n, from) {
        lemma_first_occurs(h, n, from + 1);
    }
}

proof fn lemma_first_is(h: Seq<u8>, n: Seq<u8>, from: int, at: int)
    requires
        0 <= from <= at,
        occurs_at(h, n, at),
        forall|j: int| from <= j < at ==> !occurs_at(h, n, j),
    ensures
        first_occurrence(h, n, from) == Some(at),
    decreases at - from,
{
    if from != at {
        lemma_first_is(h, n, from + 1, at);
    }
}

/// The compressed transformed payload that committing `data` lays out.
pub open spec fn commit_payload(data: Seq<u8>, levels: u64, compression_level: u8) -> Seq<u8> {
    let seed = seed_of_sample(sampled(data));
    deflated(forward_spec(data, seed, levels as nat), compression_level)
}

/// What committing `data` with the given keys produces: the header with
/// `levels` and the seed of `data`, the compressed transformed payload, a
/// signature of the payload (valid where the two keys were generated
/// together), and the public key.
pub open spec fn is_commit_of(
    a: Seq<u8>,
    data: Seq<u8>,
    public_key: Seq<u8>,
    secret_key: Seq<u8>,
    levels: u64,
    compression_level: u8,
) -> bool {
    let payload = commit_payload(data, levels, compression_level);
    exists|sig: Seq<u8>|
        sig.len() <= SIGNATURE_BYTES && (dilithium_pair(public_key, secret_key)
            ==> dilithium_valid(payload, sig, public_key)) && #[trigger] archive_bytes(
            levels,
            seed_of_sample(sampled(data)),
            payload,
            sig,
            public_key,
        ) == a
}

/// Neither marker occurs where it would cut a segment short: no signature
/// marker inside the payload of `payload_len` bytes, and no public-key
/// marker inside the signature that runs up to the public key of `key_len`
/// bytes.
pub open spec fn markers_clear(a: Seq<u8>, payload_len: nat, key_len: nat) -> bool {
    &&& forall|j: int|
        HEADER_BYTES <= j < HEADER_BYTES + payload_len ==> !occurs_at(a, sig_marker(), j)
    &&& forall|j: int|
        HEADER_BYTES + payload_len + 8 <= j < a.len() - key_len - 8 ==> !occurs_at(
            a,
            pk_marker(),
            j,
        )
}

/// A committed archive parses into its header, payload and public key, and
/// its signature is valid where the keys were generated together.
pub proof fn lemma_commit_parsed(
    a: Seq<u8>,
    data: Seq<u8>,
    public_key: Seq<u8>,
    secret_key: Seq<u8>,
    levels: u64,
    compression_level: u8,
)
    requires
        is_commit_of(a, data, public_key, secret_key, levels, compression_level),
        markers_clear(
            a,
            commit_payload(data, levels, compression_level).len(),
            public_key.len(),
        ),
    ensures
        parsed(a) is Some,
        parsed(a)->Some_0.0 == Some((levels, seed_of_sample(sampled(data)))),
        parsed(a)->Some_0.1 == commit_payload(data, levels, compression_level),
        parsed(a)->Some_0.3 == public_key,
        dilithium_pair(public_key, secret_key) ==> dilithium_valid(
            parsed(a)->Some_0.1,
            parsed(a)->Some_0.2,
            public_key,
        ),
{
    let payload = commit_payload(data, levels, compression_level);
    let seed = seed_of_sample(sampled(data));
    let sig = choose|sig: Seq<u8>|
        sig.len() <= SIGNATURE_BYTES && (dilithium_pair(public_key, secret_key)
            ==> dilithium_valid(payload, sig, public_key)) && #[trigger] archive_bytes(
            levels,
            seed,
            payload,
            sig,
            public_key,
        ) == a;
    lemma_parse_frame(levels, seed, payload, sig, public_key);
}

/// Committing and then verifying succeeds: the archive that `commit` lays
/// out with a matched keypair verifies, provided neither marker occurs
/// inside the payload or the signature.
pub proof fn lemma_commit_verifies(
    a: Seq<u8>,
    data: Seq<u8>,
    public_key: Seq<u8>,
    secret_key: Seq<u8>,
    levels: u64,
    compression_level: u8,
)
    requires
        is_commit_of(a, data, public_key, secret_key, levels, compression_level),
        dilithium_pair(public_key, secret_key),
        public_key.len() == PUBLIC_KEY_BYTES,
        markers_clear(
            a,
            commit_payload(data, levels, compression_level).len(),
            public_key.len(),
        ),
    ensures
        verification(a) == Ok::<(), ArchiveError>(()),
{
    lemma_commit_parsed(a, data, public_key, secret_key, levels, compression_level);
}

/// Commits `data`: derives the seed from its content, transforms it with
/// `levels` passes, compresses, signs the compressed bytes with the secret
/// key, and lays out the archive with the level count and seed in its header.
pub fn commit(data: &Vec<u8>, keys: &Keypair, levels: u64, compression_level: u8) -> (r: Vec<u8>)
    requires
        keys.wf(),
    ensures
        is_commit_of(r@, data@, keys.public_key@, keys.secret_key@, levels, compression_level),
{
    let seed = derive_seed(data);
    let transformed = forward_transform(data, seed, levels);
    let payload = deflate(transformed.as_slice(), compression_level);
    let signature = sign_detached(payload.as_slice(), keys.secret_key.as_slice());
    let r = frame_archive(levels, seed, payload.as_slice(), signature.as_slice(), keys.public_key.as_slice());
    assert(archive_bytes(
        levels,
        seed,
        commit_payload(data@, levels, compression_level),
        signature@,
        keys.public_key@,
    ) == r@);
    r
}

/// What verifying archive bytes gives.
pub open spec fn verification(a: Seq<u8>) -> Result<(), ArchiveError> {
    match parsed(a) {
        None => Err(ArchiveError::Malformed),
        Some((_, payload, sig, pk)) => if pk.len() != PUBLIC_KEY_BYTES {
            Err(ArchiveError::InvalidKey)
        } else if !dilithium_valid(payload, sig, pk) {
            Err(ArchiveError::SignatureInvalid)
        } else {
            Ok(())
        },
    }
}

/// Checks the signature over the payload with the embedded public key.
pub fn verify_archive(bytes: &[u8]) -> (r: Result<(), ArchiveError>)
    ensures
        r == verification(bytes@),
{
    let p = parse_archive(bytes)?;
    if p.public_key.len() != PUBLIC_KEY_BYTES {
        return Err(ArchiveError::InvalidKey);
    }
    if !signature_valid(p.payload.as_slice(), p.signature.as_slice(), p.public_key.as_slice()) {
        return Err(ArchiveError::SignatureInvalid);
    }
    Ok(())
}

/// What recovering archive bytes gives.
pub open spec fn recovery(a: Seq<u8>) -> Result<Seq<u8>, ArchiveError> {
    match parsed(a) {
        None => Err(ArchiveError::Malformed),
        Some((header, payload, _, _)) => match header {
            None => Err(ArchiveError::MissingHeader),
            Some((levels, seed)) => match inflated(payload) {
                None => Err(ArchiveError::Corrupt),
                Some(t) => Ok(inverse_spec(t, seed, levels as nat)),
            },
        },
    }
}

/// `a` is what committing `data` gives, with neither marker inside the
/// payload or the signature.
pub open spec fn cleanly_committed(
    a: Seq<u8>,
    data: Seq<u8>,
    public_key: Seq<u8>,
    secret_key: Seq<u8>,
    levels: u64,
    compression_level: u8,
) -> bool {
    &&& is_commit_of(a, data, public_key, secret_key, levels, compression_level)
    &&& markers_clear(a, commit_payload(data, levels, compression_level).len(), public_key.len())
}

/// Recovers the original bytes: parses, decompresses, and inverts the
/// transform with the level count and seed carried in the header. Recovering
/// a committed archive gives back the committed data.
pub fn recover_with_seed(bytes: &[u8]) -> (r: Result<Vec<u8>, ArchiveError>)
    ensures
        match r {
            Ok(v) => recovery(bytes@) == Ok::<Seq<u8>, ArchiveError>(v@),
            Err(e) => recovery(bytes@) == Err::<Seq<u8>, ArchiveError>(e),
        },
        forall|d: Seq<u8>, pk: Seq<u8>, sk: Seq<u8>, levels: u64, cl: u8|
            #[trigger] cleanly_committed(bytes@, d, pk, sk, levels, cl) ==> r is Ok && r->Ok_0@ == d,
{
    let p = match parse_archive(bytes) {
        Err(e) => {
            proof {
                assert forall|d: Seq<u8>, pk: Seq<u8>, sk: Seq<u8>, levels: u64, cl: u8|
                    !#[trigger] cleanly_committed(bytes@, d, pk, sk, levels, cl) by {
                    if cleanly_committed(bytes@, d, pk, sk, levels, cl) {
                        lemma_commit_parsed(bytes@, d, pk, sk, levels, cl);
                    }
                }
            }
            return Err(e);
        },
        Ok(p) => p,
    };
    let (levels, seed) = match p.header {
        None => {
            proof {
                assert forall|d: Seq<u8>, pk: Seq<u8>, sk: Seq<u8>, lv: u64, cl: u8|
                    !#[trigger] cleanly_committed(bytes@, d, pk, sk, lv, cl) by {
                    if cleanly_committed(bytes@, d, pk, sk, lv, cl) {
                        lemma_commit_parsed(bytes@, d, pk, sk, lv, cl);
                    }
                }
            }
            return Err(ArchiveError::MissingHeader);
        },
        Some(h) => h,
    };
    let res = inflate(p.payload.as_slice());
    proof {
        assert forall|d: Seq<u8>, pk: Seq<u8>, sk: Seq<u8>, lv: u64, cl: u8|
            #[trigger] cleanly_committed(bytes@, d, pk, sk, lv, cl) implies res is Ok && lv == levels
            && seed == seed_of_sample(sampled(d)) && res->Ok_0@ == forward_spec(
            d,
            seed,
            levels as nat,
        ) by {
            lemma_commit_parsed(bytes@, d, pk, sk, lv, cl);
            let x = forward_spec(d, seed_of_sample(sampled(d)), lv as nat);
            assert(p.payload@ == deflated(x, cl));
        }
    }
    let transformed = match res {
        Err(_) => {
            return Err(ArchiveError::Corrupt);
        },
        Ok(t) => t,
    };
    let out = inverse_transform(&transformed, seed, levels);
    proof {
        assert forall|d: Seq<u8>, pk: Seq<u8>, sk: Seq<u8>, lv: u64, cl: u8|
            #[trigger] cleanly_committed(bytes@, d, pk, sk, lv, cl) implies out@ == d by {
            crate::transform::lemma_transform_round_trip(d, seed, levels as nat);
        }
    }
    Ok(out)
}

/// Parsing the archive laid out from some segments gives those segments
/// back, provided the signature marker does not occur in the payload and the
/// public-key marker does not occur in the signature.
pub proof fn lemma_parse_frame(
    levels: u64,
    seed: u64,
    payload: Seq<u8>,
    signature: Seq<u8>,
    public_key: Seq<u8>,
)
    requires
        forall|j: int|
            HEADER_BYTES <= j < HEADER_BYTES + payload.len() ==> !occurs_at(
                archive_bytes(levels, seed, payload, signature, public_key),
                sig_marker(),
                j,
            ),
        forall|j: int|
            HEADER_BYTES + payload.len() + 8 <= j < HEADER_BYTES + payload.len() + 8
                + signature.len() ==> !occurs_at(
                archive_bytes(levels, seed, payload, signature, public_key),
                pk_marker(),
                j,
            ),
    ensures
        parsed(archive_bytes(levels, seed, payload, signature, public_key)) == Some(
            (Some((levels, seed)), payload, signature, public_key),
        ),
{
    let a = archive_bytes(levels, seed, payload, signature, public_key);
    let s = HEADER_BYTES + payload.len();
    let k = s + 8 + signature.len();
    assert(a.subrange(0, 8) =~= header_tag());
    assert(a.subrange(8, 16) =~= le_bytes(levels));
    assert(a.subrange(16, 24) =~= le_bytes(seed));
    lemma_le_round_trip(levels);
    lemma_le_round_trip(seed);
    assert(a.subrange(s as int, s + 8) =~= sig_marker());
    lemma_first_is(a, sig_marker(), HEADER_BYTES as int, s as int);
    assert(a.subrange(k as int, k + 8) =~= pk_marker());
    lemma_first_is(a, pk_marker(), s + 8, k as int);
    assert(a.subrange(HEADER_BYTES as int, s as int) =~= payload);
    assert(a.subrange(s + 8, k as int) =~= signature);
    assert(a.subrange(k + 8, a.len() as int) =~= public_key);
}

/// Verifying an archive laid out from a payload, a signature and a public key
/// of the right size checks exactly that signature over exactly that payload
/// under that key, provided the markers do not occur inside the payload and
/// the signature.
pub proof fn lemma_verify_frame(
    levels: u64,
    seed: u64,
    payload: Seq<u8>,
    signature: Seq<u8>,
    public_key: Seq<u8>,
)
    requires
        public_key.len() == PUBLIC_KEY_BYTES,
        forall|j: int|
            HEADER_BYTES <= j < HEADER_BYTES + payload.len() ==> !occurs_at(
                archive_bytes(levels, seed, payload, signature, public_key),
                sig_marker(),
                j,
            ),
        forall|j: int|
            HEADER_BYTES + payload.len() + 8 <= j < HEADER_BYTES + payload.len() + 8
                + signature.len() ==> !occurs_at(
                archive_bytes(levels, seed, payload, signature, public_key),
                pk_marker(),
                j,
            ),
    ensures
        verification(archive_bytes(levels, seed, payload, signature, public_key)) == if dilithium_valid(
            payload,
            signature,
            public_key,
        ) {
            Ok::<(), ArchiveError>(())
        } else {
            Err(ArchiveError::SignatureInvalid)
        },
{
    lemma_parse_frame(levels, seed, payload, signature, public_key);
}

} // verus!
