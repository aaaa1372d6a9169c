//! Erasure coding of chunk sets. Byte `j` of every chunk forms column `j`;
//! each column is one Reed-Solomon codeword over GF(256) whose data symbols
//! are the data chunks' bytes and whose check symbols are the parity chunks'.
use reed_solomon::{Decoder, DecoderError, Encoder};
use vstd::prelude::*;

verus! {

#[verifier::external_type_specification]
#[verifier::external_body]
pub struct ExDecoderError(DecoderError);

/// The check symbols that Reed-Solomon encoding with `ecc_len` check
/// symbols appends to `data`.
pub uninterp spec fn rs_parity(data: Seq<u8>, ecc_len: nat) -> Seq<u8>;

/// The corrected codeword that Reed-Solomon decoding gives for `msg`, whose
/// positions `erasures` are known to be lost, or nothing where it fails.
pub uninterp spec fn rs_corrected(msg: Seq<u8>, erasures: Seq<u8>, ecc_len: nat) -> Option<Seq<u8>>;

/// Relies on reed_solomon's `Encoder::new` and `Encoder::encode`: the encoded
/// block is `data` followed by `ecc_len` check symbols, a function of `data`
/// and `ecc_len` alone.
#[verifier::external_body]
fn rs_encode(data: &[u8], ecc_len: usize) -> (r: Vec<u8>)
    requires
        data@.len() + ecc_len < 256,
    ensures
        r@ == rs_parity(data@, ecc_len as nat),
        r@.len() == ecc_len,
{
    Encoder::new(ecc_len).encode(data).ecc().to_vec()
}

/// Relies on reed_solomon's `Decoder::new` and `Decoder::correct`: the
/// corrected block, a function of its arguments alone. With exactly as many
/// distinct erasures as check symbols, a block that differs from a codeword
/// only at the erasures is corrected to that codeword.
#[verifier::external_body]
fn rs_correct(msg: &[u8], erasures: &[u8], ecc_len: usize) -> (r: Result<Vec<u8>, DecoderError>)
    requires
        msg@.len() < 256,
        ecc_len <= msg@.len(),
        2 * ecc_len < 256,
        erasures@.len() == ecc_len,
        erasures@.no_duplicates(),
        forall|i: int| 0 <= i < erasures@.len() ==> erasures@[i] < msg@.len(),
    ensures
        match r {
            Ok(v) => rs_corrected(msg@, erasures@, ecc_len as nat) == Some(v@),
            Err(_) => rs_corrected(msg@, erasures@, ecc_len as nat) is None,
        },
        forall|d: Seq<u8>|
            #![trigger codeword(d, ecc_len as nat)]
            d.len() + ecc_len == msg@.len() && (forall|i: int|
                0 <= i < msg@.len() && !erasures@.contains(i as u8) ==> msg@[i] == codeword(
                    d,
                    ecc_len as nat,
                )[i]) ==> r is Ok && r->Ok_0@ == codeword(d, ecc_len as nat),
{
    match Decoder::new(ecc_len).correct(msg, Some(erasures)) {
        Ok(b) => Ok(b[..].to_vec()),
        Err(e) => Err(e),
    }
}

/// The codeword of `data`: the data symbols followed by the `ecc_len` check
/// symbols.
pub open spec fn codeword(data: Seq<u8>, ecc_len: nat) -> Seq<u8> {
    Seq::new(
        data.len() + ecc_len,
        |i: int|
            if i < data.len() {
                data[i]
            } else {
                rs_parity(data, ecc_len)[i - data.len()]
            },
    )
}

/// Why a chunk set could not be reconstructed.
#[derive(Debug, Clone, Copy, PartialEq, Eq, Structural)]
pub enum ErasureError {
    /// More chunks are missing than there are parity chunks.
    TooManyMissing,
    /// The surviving chunks do not decode to a consistent chunk set.
    Unrecoverable,
}

/// The plain contents of a chunk set.
pub open spec fn chunks_view(cs: Seq<Vec<u8>>) -> Seq<Seq<u8>> {
    cs.map_values(|c: Vec<u8>| c@)
}

/// Every chunk is `size` bytes long.
pub open spec fn uniform(cs: Seq<Seq<u8>>, size: nat) -> bool {
    forall|i: int| 0 <= i < cs.len() ==> (#[trigger] cs[i]).len() == size
}

/// Column `j`: byte `j` of each chunk, in chunk order.
pub open spec fn column(cs: Seq<Seq<u8>>, j: int) -> Seq<u8> {
    Seq::new(cs.len(), |i: int| cs[i][j])
}

/// The `p` parity chunks of `data`, each `size` bytes long.
pub open spec fn parity_chunks(data: Seq<Seq<u8>>, p: nat, size: nat) -> Seq<Seq<u8>> {
    Seq::new(p, |q: int| Seq::new(size, |j: int| rs_parity(column(data, j), p)[q]))
}

/// The data chunks followed by their `p` parity chunks.
pub open spec fn encoded_chunks(data: Seq<Seq<u8>>, p: nat) -> Seq<Seq<u8>> {
    data + parity_chunks(data, p, data[0].len())
}

/// The missing indices as codeword positions.
pub open spec fn erasure_positions(missing: Seq<usize>) -> Seq<u8> {
    missing.map_values(|x: usize| x as u8)
}

/// The positions handed to the decoder as erasures: the missing indices,
/// then surviving indices in increasing order below `i` until there are `p`
/// of them. The decoder is always given exactly as many erasures as check
/// symbols.
pub open spec fn fill(missing: Seq<usize>, p: nat, i: nat) -> Seq<usize>
    decreases i,
{
    if i == 0 {
        missing
    } else {
        let prev = fill(missing, p, (i - 1) as nat);
        if !missing.contains((i - 1) as usize) && prev.len() < p {
            prev.push((i - 1) as usize)
        } else {
            prev
        }
    }
}

proof fn lemma_cover(list: Seq<usize>, n: nat)
    requires
        n < 256,
        forall|k: int| 0 <= k < n ==> #[trigger] list.contains(k as usize),
    ensures
        list.len() >= n,
{
    let s = list.map_values(|x: usize| x as int);
    vstd::set_lib::lemma_int_range(0, n as int);
    assert(vstd::set_lib::set_int_range(0, n as int).subset_of(s.to_set())) by {
        assert forall|k: int| vstd::set_lib::set_int_range(0, n as int).contains(k) implies s.to_set().contains(
            k,
        ) by {
            assert(list.contains(k as usize));
            let t = choose|t: int| 0 <= t < list.len() && list[t] == k as usize;
            assert(s[t] == k);
        }
    }
    s.lemma_cardinality_of_set();
    vstd::set_lib::lemma_len_subset(vstd::set_lib::set_int_range(0, n as int), s.to_set());
}

proof fn lemma_fill_step(missing: Seq<usize>, p: nat, i: nat)
    requires
        missing.no_duplicates(),
        missing.len() <= p,
        i <= 256,
    ensures
        missing.len() <= fill(missing, p, i).len() <= p,
        fill(missing, p, i).no_duplicates(),
        fill(missing, p, i).subrange(0, missing.len() as int) == missing,
        forall|t: int|
            missing.len() <= t < fill(missing, p, i).len() ==> #[trigger] fill(missing, p, i)[t] < i
                && !missing.contains(fill(missing, p, i)[t]),
        fill(missing, p, i).len() < p ==> forall|k: int|
            0 <= k < i ==> #[trigger] fill(missing, p, i).contains(k as usize),
    decreases i,
{
    if i > 0 {
        let j = (i - 1) as nat;
        lemma_fill_step(missing, p, j);
        let prev = fill(missing, p, j);
        let cur = fill(missing, p, i);
        if !missing.contains(j as usize) && prev.len() < p {
            assert(cur == prev.push(j as usize));
            assert(!prev.contains(j as usize)) by {
                if prev.contains(j as usize) {
                    let t = choose|t: int| 0 <= t < prev.len() && prev[t] == j as usize;
                    if t < missing.len() {
                        assert(prev.subrange(0, missing.len() as int)[t] == missing[t]);
                        assert(missing.contains(j as usize));
                    } else {
                        assert(prev[t] < j);
                    }
                }
            }
            assert(cur.subrange(0, missing.len() as int) =~= prev.subrange(0, missing.len() as int));
            assert forall|k: int| 0 <= k < i && cur.len() < p implies #[trigger] cur.contains(k as usize) by {
                if k < j {
                    assert(prev.contains(k as usize));
                    let t = choose|t: int| 0 <= t < prev.len() && prev[t] == k as usize;
                    assert(cur[t] == k as usize);
                } else {
                    assert(cur[prev.len() as int] == k as usize);
                }
            }
        } else {
            assert forall|k: int| 0 <= k < i && cur.len() < p implies #[trigger] cur.contains(k as usize) by {
                if k == j && missing.contains(k as usize) {
                    let t = choose|t: int| 0 <= t < missing.len() && missing[t] == k as usize;
                    assert(prev.subrange(0, missing.len() as int)[t] == missing[t]);
                    assert(prev[t] == k as usize);
                } else if k < j {
                    assert(prev.contains(k as usize));
                }
            }
        }
    }
}

/// What the fill gives for all `n` chunks: exactly `p` distinct positions
/// below `n`, which hold every missing index, and besides them only surviving
/// ones.
pub proof fn lemma_fill(missing: Seq<usize>, p: nat, n: nat)
    requires
        missing.no_duplicates(),
        forall|k: int| 0 <= k < missing.len() ==> #[trigger] missing[k] < n,
        missing.len() <= p,
        p <= n,
        n < 256,
    ensures
        fill(missing, p, n).len() == p,
        fill(missing, p, n).no_duplicates(),
        forall|t: int| 0 <= t < p ==> #[trigger] fill(missing, p, n)[t] < n,
        forall|k: int| 0 <= k < missing.len() ==> fill(missing, p, n).contains(#[trigger] missing[k]),
        forall|x: usize| missing.contains(x) ==> #[trigger] fill(missing, p, n).contains(x),
{
    lemma_fill_step(missing, p, n);
    let f = fill(missing, p, n);
    if f.len() < p {
        lemma_cover(f, n);
    }
    assert forall|t: int| 0 <= t < p implies #[trigger] f[t] < n by {
        if t < missing.len() {
            assert(f.subrange(0, missing.len() as int)[t] == missing[t]);
        }
    }
    assert forall|k: int| 0 <= k < missing.len() implies f.contains(#[trigger] missing[k]) by {
        assert(f.subrange(0, missing.len() as int)[k] == missing[k]);
        assert(f[k] == missing[k]);
    }
    assert forall|x: usize| missing.contains(x) implies #[trigger] f.contains(x) by {
        let k = choose|k: int| 0 <= k < missing.len() && missing[k] == x;
        assert(f.subrange(0, missing.len() as int)[k] == missing[k]);
        assert(f[k] == x);
    }
}

fn fill_erasures(missing: &Vec<usize>, n: usize, p: usize) -> (r: Vec<usize>)
    requires
        missing@.no_duplicates(),
        missing@.len() <= p,
    ensures
        r@ == fill(missing@, p as nat, n as nat),
{
    let mut out: Vec<usize> = Vec::new();
    let mut k: usize = 0;
    while k < missing.len()
        invariant
            k <= missing@.len(),
            out@ == missing@.subrange(0, k as int),
        decreases missing@.len() - k,
    {
        out.push(missing[k]);
        assert(missing@.subrange(0, k + 1) =~= missing@.subrange(0, k as int).push(missing@[k as int]));
        k = k + 1;
    }
    assert(missing@.subrange(0, k as int) =~= missing@);
    let mut i: usize = 0;
    while i < n
        invariant
            i <= n,
            out@ == fill(missing@, p as nat, i as nat),
        decreases n - i,
    {
        if out.len() < p && !contains_index(missing, i) {
            out.push(i);
        }
        i = i + 1;
    }
    out
}

/// Column `j` decodes to a full codeword.
pub open spec fn column_decodes(cs: Seq<Seq<u8>>, missing: Seq<usize>, p: nat, j: int) -> bool {
    let c = rs_corrected(column(cs, j), erasure_positions(fill(missing, p, cs.len())), p);
    c is Some && c->Some_0.len() == cs.len()
}

/// The chunk set with the rows at the missing indices taken from the decoded
/// columns and every other row as it was.
pub open spec fn rebuilt(cs: Seq<Seq<u8>>, missing: Seq<usize>, p: nat) -> Seq<Seq<u8>> {
    Seq::new(
        cs.len(),
        |i: int|
            if missing.contains(i as usize) {
                Seq::new(
                    cs[0].len(),
                    |j: int|
                        rs_corrected(
                            column(cs, j),
                            erasure_positions(fill(missing, p, cs.len())),
                            p,
                        )->Some_0[i],
                )
            } else {
                cs[i]
            },
    )
}

/// `cs` is the encoding of `d` with `p` parity chunks, but for the rows at
/// the missing indices, which may hold anything of the right length.
pub open spec fn restorable(cs: Seq<Seq<u8>>, missing: Seq<usize>, d: Seq<Seq<u8>>, p: nat) -> bool {
    &&& d.len() >= 1
    &&& uniform(d, d[0].len())
    &&& cs.len() == d.len() + p
    &&& uniform(cs, d[0].len())
    &&& missing.len() <= p
    &&& forall|i: int|
        0 <= i < cs.len() && !missing.contains(i as usize) ==> #[trigger] cs[i] == encoded_chunks(
            d,
            p,
        )[i]
}

/// Reconstruction: `None` where more than `p` chunks are missing or a column
/// fails to decode, the chunk set unchanged where none is missing, and the
/// missing rows rebuilt from the decoded columns otherwise.
pub open spec fn regenerated(cs: Seq<Seq<u8>>, missing: Seq<usize>, p: nat) -> Option<Seq<Seq<u8>>> {
    if missing.len() > p {
        None
    } else if missing.len() == 0 {
        Some(cs)
    } else if forall|j: int| 0 <= j < cs[0].len() ==> #[trigger] column_decodes(cs, missing, p, j) {
        Some(rebuilt(cs, missing, p))
    } else {
        None
    }
}

/// Splitting into chunks: chunk `i` holds bytes `i * size ..` of `d`,
/// zero-padded to `size` bytes.
pub open spec fn chunk_spec(d: Seq<u8>, size: nat, i: int) -> Seq<u8> {
    Seq::new(size, |j: int| if i * size + j < d.len() { d[i * size + j] } else { 0u8 })
}

/// Column `j` of a chunk set.
fn column_of(cs: &Vec<Vec<u8>>, j: usize) -> (r: Vec<u8>)
    requires
        forall|i: int| 0 <= i < cs@.len() ==> j < (#[trigger] cs@[i])@.len(),
    ensures
        r@ == column(chunks_view(cs@), j as int),
{
    let mut out: Vec<u8> = Vec::new();
    let mut i: usize = 0;
    while i < cs.len()
        invariant
            i <= cs@.len(),
            forall|t: int| 0 <= t < cs@.len() ==> j < (#[trigger] cs@[t])@.len(),
            out@.len() == i,
            forall|t: int| 0 <= t < i ==> out@[t] == cs@[t]@[j as int],
        decreases cs@.len() - i,
    {
        out.push(cs[i][j]);
        i = i + 1;
    }
    assert(out@ =~= column(chunks_view(cs@), j as int));
    out
}

/// Splits `data` into chunks of `chunk_size` bytes, the last one zero-padded.
pub fn split_into_chunks(data: &Vec<u8>, chunk_size: usize) -> (r: Vec<Vec<u8>>)
    requires
        chunk_size > 0,
    ensures
        r@.len() * chunk_size >= data@.len(),
        r@.len() * chunk_size < data@.len() + chunk_size,
        forall|i: int| 0 <= i < r@.len() ==> (#[trigger] r@[i])@ == chunk_spec(data@, chunk_size as nat, i),
{
    let mut out: Vec<Vec<u8>> = Vec::new();
    let mut start: usize = 0;
    assert(out@.len() * chunk_size == 0) by (nonlinear_arith)
        requires
            out@.len() == 0,
    ;
    while start < data.len()
        invariant
            start == out@.len() * chunk_size,
            start <= data@.len() + chunk_size,
            chunk_size > 0,
            start < data@.len() + chunk_size,
            forall|i: int| 0 <= i < out@.len() ==> (#[trigger] out@[i])@ == chunk_spec(data@, chunk_size as nat, i),
        decreases data@.len() - start,
    {
        let mut chunk: Vec<u8> = Vec::with_capacity(chunk_size);
        let mut j: usize = 0;
        while j < chunk_size
            invariant
                start < data@.len(),
                j <= chunk_size,
                chunk@.len() == j,
                forall|t: int| 0 <= t < j ==> chunk@[t] == (if start + t < data@.len() { data@[start + t] } else { 0u8 }),
            decreases chunk_size - j,
        {
            if j < data.len() - start {
                chunk.push(data[start + j]);
            } else {
                chunk.push(0u8);
            }
            j = j + 1;
        }
        let ghost n = out@.len();
        assert(chunk@ =~= chunk_spec(data@, chunk_size as nat, n as int));
        out.push(chunk);
        assert((n + 1) * chunk_size == n * chunk_size + chunk_size) by (nonlinear_arith);
        if data.len() - start <= chunk_size {
            assert(out@.len() * chunk_size >= data@.len());
            return out;
        }
        start = start + chunk_size;
    }
    out
}

/// Appends `parity_count` parity chunks to `data_chunks`; any `parity_count`
/// chunks of the result can then be lost and rebuilt.
pub fn add_rs_parity(data_chunks: &Vec<Vec<u8>>, parity_count: usize) -> (r: Vec<Vec<u8>>)
    requires
        data_chunks@.len() >= 1,
        data_chunks@.len() + parity_count < 256,
        uniform(chunks_view(data_chunks@), data_chunks@[0]@.len()),
    ensures
        chunks_view(r@) == encoded_chunks(chunks_view(data_chunks@), parity_count as nat),
{
    let ghost dv = chunks_view(data_chunks@);
    let symbol_size = data_chunks[0].len();
    let mut columns: Vec<Vec<u8>> = Vec::new();
    let mut j: usize = 0;
    while j < symbol_size
        invariant
            dv == chunks_view(data_chunks@),
            symbol_size == data_chunks@[0]@.len(),
            uniform(dv, symbol_size as nat),
            data_chunks@.len() + parity_count < 256,
            j <= symbol_size,
            columns@.len() == j,
            forall|t: int| 0 <= t < j ==> (#[trigger] columns@[t])@ == rs_parity(column(dv, t), parity_count as nat),
            forall|t: int| 0 <= t < j ==> (#[trigger] columns@[t])@.len() == parity_count,
        decreases symbol_size - j,
    {
        assert forall|i: int| 0 <= i < data_chunks@.len() implies j < (#[trigger] data_chunks@[i])@.len() by {
            assert(dv[i] == data_chunks@[i]@);
        }
        let col = column_of(data_chunks, j);
        let par = rs_encode(col.as_slice(), parity_count);
        columns.push(par);
        j = j + 1;
    }
    let mut out: Vec<Vec<u8>> = data_chunks.clone();
    assert(chunks_view(out@) =~= dv);
    let mut q: usize = 0;
    while q < parity_count
        invariant
            dv == chunks_view(data_chunks@),
            symbol_size == dv[0].len(),
            data_chunks@.len() >= 1,
            columns@.len() == symbol_size,
            forall|t: int| 0 <= t < symbol_size ==> (#[trigger] columns@[t])@ == rs_parity(column(dv, t), parity_count as nat),
            forall|t: int| 0 <= t < symbol_size ==> (#[trigger] columns@[t])@.len() == parity_count,
            q <= parity_count,
            chunks_view(out@) =~= dv + parity_chunks(dv, parity_count as nat, symbol_size as nat).subrange(0, q as int),
        decreases parity_count - q,
    {
        let mut row: Vec<u8> = Vec::with_capacity(symbol_size);
        let mut j2: usize = 0;
        while j2 < symbol_size
            invariant
                q < parity_count,
                columns@.len() == symbol_size,
                forall|t: int| 0 <= t < symbol_size ==> (#[trigger] columns@[t])@.len() == parity_count,
                j2 <= symbol_size,
                row@.len() == j2,
                forall|t: int| 0 <= t < j2 ==> row@[t] == columns@[t]@[q as int],
            decreases symbol_size - j2,
        {
            row.push(columns[j2][q]);
            j2 = j2 + 1;
        }
        let ghost prev = chunks_view(out@);
        out.push(row);
        proof {
            let pc = parity_chunks(dv, parity_count as nat, symbol_size as nat);
            assert(row@ =~= pc[q as int]);
            assert(chunks_view(out@) =~= prev.push(row@));
            assert(pc.subrange(0, q + 1) =~= pc.subrange(0, q as int).push(pc[q as int]));
        }
        q = q + 1;
    }
    assert(parity_chunks(dv, parity_count as nat, symbol_size as nat).subrange(0, parity_count as int)
        =~= parity_chunks(dv, parity_count as nat, symbol_size as nat));
    out
}

fn copy_chunk(c: &Vec<u8>) -> (r: Vec<u8>)
    ensures
        r@ == c@,
{
    let mut out: Vec<u8> = Vec::new();
    let mut i: usize = 0;
    while i < c.len()
        invariant
            i <= c@.len(),
            out@ == c@.subrange(0, i as int),
        decreases c@.len() - i,
    {
        out.push(c[i]);
        assert(c@.subrange(0, i + 1) =~= c@.subrange(0, i as int).push(c@[i as int]));
        i = i + 1;
    }
    assert(c@.subrange(0, i as int) =~= c@);
    out
}

fn contains_index(v: &Vec<usize>, x: usize) -> (r: bool)
    ensures
        r == v@.contains(x),
{
    let mut i: usize = 0;
    while i < v.len()
        invariant
            i <= v@.len(),
            forall|t: int| 0 <= t < i ==> v@[t] != x,
        decreases v@.len() - i,
    {
        if v[i] == x {
            assert(v@[i as int] == x);
            return true;
        }
        i = i + 1;
    }
    false
}

proof fn lemma_positions(missing: Seq<usize>, n: nat)
    requires
        n < 256,
        forall|k: int| 0 <= k < missing.len() ==> #[trigger] missing[k] < n,
    ensures
        forall|i: int|
            0 <= i < n ==> (#[trigger] erasure_positions(missing).contains(i as u8) <==> missing.contains(
                i as usize,
            )),
{
    let e = erasure_positions(missing);
    assert forall|i: int| 0 <= i < n implies (#[trigger] e.contains(i as u8) <==> missing.contains(
        i as usize,
    )) by {
        if e.contains(i as u8) {
            let k = choose|k: int| 0 <= k < e.len() && e[k] == i as u8;
            assert(missing[k] < 256);
            assert(missing[k] == i as usize);
        }
        if missing.contains(i as usize) {
            let k = choose|k: int| 0 <= k < missing.len() && missing[k] == i as usize;
            assert(e[k] == i as u8);
        }
    }
}

proof fn lemma_column_codeword(d: Seq<Seq<u8>>, p: nat, j: int)
    requires
        d.len() >= 1,
        uniform(d, d[0].len()),
        0 <= j,
    ensures
        j < d[0].len() ==> column(encoded_chunks(d, p), j) == codeword(column(d, j), p),
        encoded_chunks(d, p).len() == d.len() + p,
        uniform(encoded_chunks(d, p), d[0].len()),
{
    let e = encoded_chunks(d, p);
    assert(uniform(e, d[0].len())) by {
        assert forall|i: int| 0 <= i < e.len() implies (#[trigger] e[i]).len() == d[0].len() by {
            if i < d.len() {
                assert(e[i] == d[i]);
            }
        }
    }
    if j < d[0].len() {
        assert(column(e, j) =~= codeword(column(d, j), p));
    }
}

/// Rebuilds in place the chunks at `missing_indices` from the surviving ones,
/// in a chunk set that was encoded with `parity_count` parity chunks. Only
/// the chunks at the missing indices are written; on an error the chunk set
/// is left as it was.
pub fn regenerate_with_rs(
    chunks_with_parity: &mut Vec<Vec<u8>>,
    missing_indices: &Vec<usize>,
    parity_count: usize,
) -> (r: Result<(), ErasureError>)
    requires
        1 <= old(chunks_with_parity)@.len() < 256,
        parity_count <= old(chunks_with_parity)@.len(),
        2 * parity_count < 256,
        uniform(chunks_view(old(chunks_with_parity)@), old(chunks_with_parity)@[0]@.len()),
        missing_indices@.no_duplicates(),
        forall|i: int|
            0 <= i < missing_indices@.len() ==> #[trigger] missing_indices@[i] < old(
                chunks_with_parity,
            )@.len(),
    ensures
        (r == Err::<(), ErasureError>(ErasureError::TooManyMissing)) <==> missing_indices@.len()
            > parity_count,
        (r == Err::<(), ErasureError>(ErasureError::Unrecoverable)) <==> (missing_indices@.len()
            <= parity_count && regenerated(
            chunks_view(old(chunks_with_parity)@),
            missing_indices@,
            parity_count as nat,
        ) is None),
        match regenerated(chunks_view(old(chunks_with_parity)@), missing_indices@, parity_count as nat) {
            Some(c) => r is Ok && chunks_view(final(chunks_with_parity)@) == c,
            None => r is Err && final(chunks_with_parity)@ == old(chunks_with_parity)@,
        },
        r is Ok ==> final(chunks_with_parity)@.len() == old(chunks_with_parity)@.len() && forall|i: int|
            0 <= i < old(chunks_with_parity)@.len() && !missing_indices@.contains(i as usize)
                ==> #[trigger] final(chunks_with_parity)@[i]@ == old(chunks_with_parity)@[i]@,
        forall|d: Seq<Seq<u8>>|
            #[trigger] restorable(
                chunks_view(old(chunks_with_parity)@),
                missing_indices@,
                d,
                parity_count as nat,
            ) ==> r is Ok && chunks_view(final(chunks_with_parity)@) == encoded_chunks(
                d,
                parity_count as nat,
            ),
{
    let ghost cv = chunks_view(chunks_with_parity@);
    let ghost p = parity_count as nat;
    let n = chunks_with_parity.len();
    if missing_indices.len() > parity_count {
        return Err(ErasureError::TooManyMissing);
    }
    if missing_indices.len() == 0 {
        proof {
            assert forall|d: Seq<Seq<u8>>| #[trigger]
                restorable(cv, missing_indices@, d, p) implies cv == encoded_chunks(d, p) by {
                let e = encoded_chunks(d, p);
                assert forall|i: int| 0 <= i < cv.len() implies cv[i] == e[i] by {
                    assert(!missing_indices@.contains(i as usize));
                }
                assert(cv =~= e);
            }
        }
        return Ok(());
    }
    let filled = fill_erasures(missing_indices, n, parity_count);
    let ghost fl = filled@;
    proof {
        lemma_fill(missing_indices@, p, n as nat);
    }
    let mut erasures: Vec<u8> = Vec::new();
    let mut m: usize = 0;
    while m < filled.len()
        invariant
            n == chunks_with_parity@.len(),
            n < 256,
            fl == filled@,
            m <= fl.len(),
            forall|i: int| 0 <= i < fl.len() ==> #[trigger] fl[i] < n,
            erasures@ == erasure_positions(fl.subrange(0, m as int)),
        decreases fl.len() - m,
    {
        erasures.push(filled[m] as u8);
        assert(fl.subrange(0, m + 1) =~= fl.subrange(0, m as int).push(fl[m as int]));
        assert(erasures@ =~= erasure_positions(fl.subrange(0, m + 1)));
        m = m + 1;
    }
    assert(fl.subrange(0, m as int) =~= fl);
    assert(erasures@.no_duplicates()) by {
        assert forall|a: int, b: int|
            0 <= a < erasures@.len() && 0 <= b < erasures@.len() && a != b implies erasures@[a]
            != erasures@[b] by {
            assert(fl[a] != fl[b]);
            assert(fl[a] < 256 && fl[b] < 256);
        }
    }
    proof {
        lemma_positions(fl, n as nat);
    }
    let symbol_size = chunks_with_parity[0].len();
    let mut columns: Vec<Vec<u8>> = Vec::new();
    let mut j: usize = 0;
    while j < symbol_size
        invariant
            cv == chunks_view(chunks_with_parity@),
            chunks_with_parity@ == old(chunks_with_parity)@,
            p == parity_count,
            0 < missing_indices@.len() <= parity_count,
            forall|i: int| 0 <= i < missing_indices@.len() ==> #[trigger] missing_indices@[i] < n,
            n == chunks_with_parity@.len(),
            1 <= n < 256,
            2 * parity_count < 256,
            parity_count <= n,
            symbol_size == cv[0].len(),
            uniform(cv, symbol_size as nat),
            erasures@ == erasure_positions(fl),
            fl == fill(missing_indices@, p, n as nat),
            erasures@.no_duplicates(),
            fl.len() == parity_count,
            forall|t: int| 0 <= t < fl.len() ==> #[trigger] fl[t] < n,
            forall|i: int|
                0 <= i < n ==> (#[trigger] erasure_positions(fl).contains(i as u8)
                    <==> fl.contains(i as usize)),
            forall|x: usize| missing_indices@.contains(x) ==> #[trigger] fl.contains(x),
            forall|i: int| 0 <= i < erasures@.len() ==> #[trigger] erasures@[i] < n,
            j <= symbol_size,
            columns@.len() == j,
            forall|t: int| 0 <= t < j ==> #[trigger] column_decodes(cv, missing_indices@, p, t),
            forall|t: int|
                0 <= t < j ==> Some((#[trigger] columns@[t])@) == rs_corrected(
                    column(cv, t),
                    erasures@,
                    p,
                ),
            forall|d: Seq<Seq<u8>>, t: int|
                #[trigger] restorable(cv, missing_indices@, d, p) && 0 <= t < j ==> (
                #[trigger] columns@[t])@ == codeword(column(d, t), p),
        decreases symbol_size - j,
    {
        assert forall|i: int| 0 <= i < chunks_with_parity@.len() implies j < (
        #[trigger] chunks_with_parity@[i])@.len() by {
            assert(cv[i] == chunks_with_parity@[i]@);
        }
        assert forall|i: int| 0 <= i < erasures@.len() implies #[trigger] erasures@[i] < n by {
            assert(fl[i] < n);
        }
        let col = column_of(chunks_with_parity, j);
        let res = rs_correct(col.as_slice(), erasures.as_slice(), parity_count);
        proof {
            assert forall|d: Seq<Seq<u8>>| #[trigger]
                restorable(cv, missing_indices@, d, p) implies res is Ok && res->Ok_0@ == codeword(
                column(d, j as int),
                p,
            ) by {
                lemma_column_codeword(d, p, j as int);
                let cw = codeword(column(d, j as int), p);
                assert forall|i: int|
                    0 <= i < col@.len() && !erasures@.contains(i as u8) implies col@[i] == cw[i] by {
                    assert(!missing_indices@.contains(i as usize));
                    assert(cv[i] == encoded_chunks(d, p)[i]);
                    assert(column(encoded_chunks(d, p), j as int)[i] == cw[i]);
                }
            }
        }
        match res {
            Err(_) => {
                assert(!column_decodes(cv, missing_indices@, p, j as int));
                return Err(ErasureError::Unrecoverable);
            },
            Ok(v) => {
                if v.len() != n {
                    assert(!column_decodes(cv, missing_indices@, p, j as int));
                    proof {
                        assert forall|d: Seq<Seq<u8>>| !#[trigger]
                            restorable(cv, missing_indices@, d, p) by {
                            if restorable(cv, missing_indices@, d, p) {
                                assert(v@ == codeword(column(d, j as int), p));
                            }
                        }
                    }
                    return Err(ErasureError::Unrecoverable);
                }
                columns.push(v);
            },
        }
        j = j + 1;
    }
    let ghost target = rebuilt(cv, missing_indices@, p);
    let mut out: Vec<Vec<u8>> = Vec::new();
    let mut i: usize = 0;
    while i < n
        invariant
            cv == chunks_view(chunks_with_parity@),
            chunks_with_parity@ == old(chunks_with_parity)@,
            p == parity_count,
            0 < missing_indices@.len() <= parity_count,
            n == cv.len(),
            symbol_size == cv[0].len(),
            erasures@ == erasure_positions(fl),
            fl == fill(missing_indices@, p, n as nat),
            target == rebuilt(cv, missing_indices@, p),
            columns@.len() == symbol_size,
            forall|t: int| 0 <= t < symbol_size ==> #[trigger] column_decodes(cv, missing_indices@, p, t),
            forall|t: int|
                0 <= t < symbol_size ==> Some((#[trigger] columns@[t])@) == rs_corrected(
                    column(cv, t),
                    erasures@,
                    p,
                ),
            i <= n,
            chunks_view(out@) =~= target.subrange(0, i as int),
        decreases n - i,
    {
        let row: Vec<u8>;
        if contains_index(missing_indices, i) {
            let mut built: Vec<u8> = Vec::with_capacity(symbol_size);
            let mut t: usize = 0;
            while t < symbol_size
                invariant
                    i < n,
                    columns@.len() == symbol_size,
                    forall|u: int|
                        0 <= u < symbol_size ==> #[trigger] column_decodes(cv, missing_indices@, p, u),
                    forall|u: int|
                        0 <= u < symbol_size ==> Some((#[trigger] columns@[u])@) == rs_corrected(
                            column(cv, u),
                            erasures@,
                            p,
                        ),
                    n == cv.len(),
                    missing_indices@.contains(i as usize),
                    t <= symbol_size,
                    built@.len() == t,
                    forall|u: int| 0 <= u < t ==> built@[u] == target[i as int][u],
                    target == rebuilt(cv, missing_indices@, p),
                    symbol_size == cv[0].len(),
                    erasures@ == erasure_positions(fl),
            fl == fill(missing_indices@, p, n as nat),
                decreases symbol_size - t,
            {
                assert(column_decodes(cv, missing_indices@, p, t as int));
                assert(Some(columns@[t as int]@) == rs_corrected(column(cv, t as int), erasures@, p));
                built.push(columns[t][i]);
                t = t + 1;
            }
            assert(built@ =~= target[i as int]);
            row = built;
        } else {
            row = copy_chunk(&chunks_with_parity[i]);
            assert(row@ == cv[i as int]);
            assert(row@ == target[i as int]);
        }
        let ghost prev = chunks_view(out@);
        out.push(row);
        proof {
            assert(chunks_view(out@) =~= prev.push(row@));
            assert(target.subrange(0, i + 1) =~= target.subrange(0, i as int).push(target[i as int]));
        }
        i = i + 1;
    }
    assert(target.subrange(0, n as int) =~= target);
    proof {
        assert forall|d: Seq<Seq<u8>>| #[trigger]
            restorable(cv, missing_indices@, d, p) implies target == encoded_chunks(d, p) by {
            let e = encoded_chunks(d, p);
            lemma_column_codeword(d, p, 0);
            assert forall|k: int| 0 <= k < n implies target[k] == e[k] by {
                if missing_indices@.contains(k as usize) {
                    assert forall|u: int| 0 <= u < symbol_size implies target[k][u] == e[k][u] by {
                        lemma_column_codeword(d, p, u);
                        assert(columns@[u]@ == codeword(column(d, u), p));
                        assert(column(e, u)[k] == e[k][u]);
                    }
                    assert(target[k] =~= e[k]);
                } else {
                    assert(cv[k] == e[k]);
                }
            }
            assert(target =~= e);
        }
    }
    proof {
        assert(out@.len() == n);
        assert forall|k: int|
            0 <= k < n && !missing_indices@.contains(k as usize) implies #[trigger] out@[k]@ == old(
            chunks_with_parity,
        )@[k]@ by {
            assert(chunks_view(out@)[k] == target[k]);
            assert(cv[k] == old(chunks_with_parity)@[k]@);
        }
    }
    *chunks_with_parity = out;
    Ok(())
}

/// Reconstruction with more missing chunks than parity chunks always fails,
/// whatever the chunks hold; with none missing it leaves the set as it is.
pub proof fn lemma_regenerated_limits(cs: Seq<Seq<u8>>, missing: Seq<usize>, p: nat)
    ensures
        missing.len() > p ==> regenerated(cs, missing, p) is None,
        missing.len() == 0 ==> regenerated(cs, missing, p) == Some(cs),
{
}

} // verus!
