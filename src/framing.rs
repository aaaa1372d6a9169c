//! Byte framing: marker search, little-endian length fields, and embedding
//! a payload at the end of an unrelated host byte string.
use vstd::prelude::*;

verus! {

/// Marker that precedes an embedded payload: `SIGILEMB`.
pub open spec fn embed_marker() -> Seq<u8> {
    seq![83u8, 73u8, 71u8, 73u8, 76u8, 69u8, 77u8, 66u8]
}

fn embed_marker_bytes() -> (r: Vec<u8>)
    ensures
        r@ == embed_marker(),
{
    let r: Vec<u8> = vec![83u8, 73u8, 71u8, 73u8, 76u8, 69u8, 77u8, 66u8];
    assert(r@ =~= embed_marker());
    r
}

/// `n` occurs in `h` at position `i`.
pub open spec fn occurs_at(h: Seq<u8>, n: Seq<u8>, i: int) -> bool {
    0 <= i && i + n.len() <= h.len() && h.subrange(i, i + n.len()) == n
}

/// The first position at or after `from` where `n` occurs in `h`.
pub open spec fn first_occurrence(h: Seq<u8>, n: Seq<u8>, from: int) -> Option<int>
    decreases h.len() + 1 - from,
{
    if from < 0 || from + n.len() > h.len() {
        None
    } else if occurs_at(h, n, from) {
        Some(from)
    } else {
        first_occurrence(h, n, from + 1)
    }
}

/// The last position below `upto` where `n` occurs in `h`.
pub open spec fn last_occurrence(h: Seq<u8>, n: Seq<u8>, upto: int) -> Option<int>
    decreases upto,
{
    if upto <= 0 {
        None
    } else if occurs_at(h, n, upto - 1) {
        Some(upto - 1)
    } else {
        last_occurrence(h, n, upto - 1)
    }
}

/// The eight little-endian bytes of `x`.
pub open spec fn le_bytes(x: u64) -> Seq<u8> {
    let d0 = x as int;
    let d1 = d0 / 256;
    let d2 = d1 / 256;
    let d3 = d2 / 256;
    let d4 = d3 / 256;
    let d5 = d4 / 256;
    let d6 = d5 / 256;
    let d7 = d6 / 256;
    seq![
        (d0 % 256) as u8,
        (d1 % 256) as u8,
        (d2 % 256) as u8,
        (d3 % 256) as u8,
        (d4 % 256) as u8,
        (d5 % 256) as u8,
        (d6 % 256) as u8,
        (d7 % 256) as u8,
    ]
}

/// Reading back the little-endian bytes of `x` gives `x`.
pub proof fn lemma_le_round_trip(x: u64)
    ensures
        crate::digest::le_u64_spec(le_bytes(x)) == x,
{
    let b = le_bytes(x);
    let d0 = x as int;
    let d1 = d0 / 256;
    let d2 = d1 / 256;
    let d3 = d2 / 256;
    let d4 = d3 / 256;
    let d5 = d4 / 256;
    let d6 = d5 / 256;
    let d7 = d6 / 256;
    assert(d7 < 256);
    assert(d6 == d6 % 256 + 256 * d7);
    assert(d5 == d5 % 256 + 256 * d6);
    assert(d4 == d4 % 256 + 256 * d5);
    assert(d3 == d3 % 256 + 256 * d4);
    assert(d2 == d2 % 256 + 256 * d3);
    assert(d1 == d1 % 256 + 256 * d2);
    assert(d0 == d0 % 256 + 256 * d1);
}

/// The eight little-endian bytes of `x`.
pub fn u64_to_le(x: u64) -> (r: Vec<u8>)
    ensures
        r@ == le_bytes(x),
{
    let d1 = x / 256;
    let d2 = d1 / 256;
    let d3 = d2 / 256;
    let d4 = d3 / 256;
    let d5 = d4 / 256;
    let d6 = d5 / 256;
    let d7 = d6 / 256;
    let r: Vec<u8> = vec![
        (x % 256) as u8,
        (d1 % 256) as u8,
        (d2 % 256) as u8,
        (d3 % 256) as u8,
        (d4 % 256) as u8,
        (d5 % 256) as u8,
        (d6 % 256) as u8,
        (d7 % 256) as u8,
    ];
    assert(r@ =~= le_bytes(x));
    r
}

/// Whether `n` occurs in `h` at position `i`.
pub fn matches_at(h: &[u8], n: &[u8], i: usize) -> (r: bool)
    ensures
        r == occurs_at(h@, n@, i as int),
{
    if i > h.len() || n.len() > h.len() - i {
        return false;
    }
    let mut j: usize = 0;
    while j < n.len()
        invariant
            i + n@.len() <= h@.len(),
            h@.len() <= usize::MAX,
            j <= n@.len(),
            forall|t: int| 0 <= t < j ==> h@[i + t] == n@[t],
        decreases n@.len() - j,
    {
        if h[i + j] != n[j] {
            assert(h@.subrange(i as int, i + n@.len())[j as int] != n@[j as int]);
            return false;
        }
        j = j + 1;
    }
    assert(h@.subrange(i as int, i + n@.len()) =~= n@);
    true
}

/// The first position at or after `from` where `n` occurs in `h`.
pub fn find_from(h: &[u8], n: &[u8], from: usize) -> (r: Option<usize>)
    ensures
        match r {
            Some(i) => first_occurrence(h@, n@, from as int) == Some(i as int),
            None => first_occurrence(h@, n@, from as int) is None,
        },
{
    let mut i: usize = from;
    while i <= h.len() && n.len() <= h.len() - i
        invariant
            from <= i,
            first_occurrence(h@, n@, from as int) == first_occurrence(h@, n@, i as int),
        decreases h@.len() + 1 - i,
    {
        if matches_at(h, n, i) {
            return Some(i);
        }
        if i == h.len() {
            assert(first_occurrence(h@, n@, i + 1) is None);
            return None;
        }
        i = i + 1;
    }
    None
}

/// The last position where `n` occurs in `h`.
pub fn find_last(h: &[u8], n: &[u8]) -> (r: Option<usize>)
    ensures
        match r {
            Some(i) => last_occurrence(h@, n@, h@.len() as int) == Some(i as int),
            None => last_occurrence(h@, n@, h@.len() as int) is None,
        },
{
    let mut upto: usize = h.len();
    while upto > 0
        invariant
            upto <= h@.len(),
            last_occurrence(h@, n@, h@.len() as int) == last_occurrence(h@, n@, upto as int),
        decreases upto,
    {
        if matches_at(h, n, upto - 1) {
            return Some(upto - 1);
        }
        upto = upto - 1;
    }
    None
}

/// Appends the bytes of `b` to `out`.
pub fn append_bytes(out: &mut Vec<u8>, b: &[u8])
    ensures
        final(out)@ == old(out)@ + b@,
{
    let ghost start = out@;
    let mut j: usize = 0;
    while j < b.len()
        invariant
            j <= b@.len(),
            out@ == start + b@.subrange(0, j as int),
        decreases b@.len() - j,
    {
        out.push(b[j]);
        assert(b@.subrange(0, j + 1) =~= b@.subrange(0, j as int).push(b@[j as int]));
        j = j + 1;
    }
    assert(b@.subrange(0, j as int) =~= b@);
}

/// `host`, then the embedding marker, the payload length in eight
/// little-endian bytes, and the payload.
pub open spec fn embedded(host: Seq<u8>, payload: Seq<u8>) -> Seq<u8> {
    host + embed_marker() + le_bytes(payload.len() as u64) + payload
}

/// What extraction finds in `b`: after the last embedding marker, a length
/// field and that many payload bytes.
pub open spec fn extracted(b: Seq<u8>) -> Option<Seq<u8>> {
    match last_occurrence(b, embed_marker(), b.len() as int) {
        None => None,
        Some(m) => {
            let at = m + 8;
            if at + 8 > b.len() {
                None
            } else {
                let len = crate::digest::le_u64_spec(b.subrange(at, at + 8));
                if at + 8 + len > b.len() {
                    None
                } else {
                    Some(b.subrange(at + 8, at + 8 + len))
                }
            }
        },
    }
}

/// Appends `payload` to `host` behind the embedding marker and its length.
pub fn embed(host: &[u8], payload: &[u8]) -> (r: Vec<u8>)
    ensures
        r@ == embedded(host@, payload@),
{
    let mut out: Vec<u8> = Vec::new();
    append_bytes(&mut out, host);
    let marker = embed_marker_bytes();
    append_bytes(&mut out, marker.as_slice());
    let len = u64_to_le(payload.len() as u64);
    append_bytes(&mut out, len.as_slice());
    append_bytes(&mut out, payload);
    assert(out@ =~= embedded(host@, payload@));
    out
}

/// Takes out the payload behind the last embedding marker of `bytes`.
pub fn extract(bytes: &[u8]) -> (r: Option<Vec<u8>>)
    ensures
        match r {
            Some(v) => extracted(bytes@) == Some(v@),
            None => extracted(bytes@) is None,
        },
{
    let total = bytes.len();
    let marker = embed_marker_bytes();
    match find_last(bytes, marker.as_slice()) {
        None => None,
        Some(m) => {
            proof {
                assert(occurs_at(bytes@, embed_marker(), m as int)) by {
                    lemma_last_occurs(bytes@, embed_marker(), bytes@.len() as int);
                }
            }
            let at = m + 8;
            if bytes.len() - at < 8 {
                return None;
            }
            let len = crate::digest::le_u64(&bytes[at..at + 8]);
            assert(bytes@.subrange(at as int, at + 8) == bytes@.subrange(at as int, at + 8));
            if len > (bytes.len() - at - 8) as u64 {
                return None;
            }
            let start = at + 8;
            let end = start + len as usize;
            let mut out: Vec<u8> = Vec::new();
            let mut i: usize = start;
            while i < end
                invariant
                    start <= i <= end,
                    end <= bytes@.len(),
                    out@ == bytes@.subrange(start as int, i as int),
                decreases end - i,
            {
                out.push(bytes[i]);
                assert(bytes@.subrange(start as int, i + 1) =~= bytes@.subrange(start as int, i as int).push(
                    bytes@[i as int],
                ));
                i = i + 1;
            }
            Some(out)
        },
    }
}

proof fn lemma_last_occurs(h: Seq<u8>, n: Seq<u8>, upto: int)
    ensures
        last_occurrence(h, n, upto) matches Some(i) ==> occurs_at(h, n, i) && i < upto,
        last_occurrence(h, n, upto) matches Some(i) ==> forall|j: int|
            i < j < upto ==> !occurs_at(h, n, j),
    decreases upto,
{
    if upto > 0 && !occurs_at(h, n, upto - 1) {
        lemma_last_occurs(h, n, upto - 1);
    }
}

proof fn lemma_last_is(h: Seq<u8>, n: Seq<u8>, upto: int, at: int)
    requires
        occurs_at(h, n, at),
        at < upto,
        forall|j: int| at < j < upto ==> !occurs_at(h, n, j),
    ensures
        last_occurrence(h, n, upto) == Some(at),
    decreases upto,
{
    if upto - 1 != at {
        lemma_last_is(h, n, upto - 1, at);
    }
}

/// Embedding then extracting gives the payload back, provided the marker
/// does not occur again after the host's bytes.
pub proof fn lemma_embed_extract(host: Seq<u8>, payload: Seq<u8>)
    requires
        payload.len() <= u64::MAX,
        forall|j: int|
            host.len() < j ==> !occurs_at(embedded(host, payload), embed_marker(), j),
    ensures
        extracted(embedded(host, payload)) == Some(payload),
{
    let b = embedded(host, payload);
    let at = host.len() as int;
    assert(b.subrange(at, at + 8) =~= embed_marker());
    lemma_last_is(b, embed_marker(), b.len() as int, at);
    assert(b.subrange(at + 8, at + 16) =~= le_bytes(payload.len() as u64));
    lemma_le_round_trip(payload.len() as u64);
    assert(b.subrange(at + 16, at + 16 + payload.len()) =~= payload);
}

} // verus!
