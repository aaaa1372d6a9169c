//! Seed derivation: a 64-bit seed from ten evenly spaced windows of the input.
use crate::digest::{le_u64, le_u64_spec, sha256, sha256_of};
use vstd::prelude::*;

verus! {

/// How many windows are sampled.
pub const SAMPLE_COUNT: usize = 10;

/// The largest window, in bytes (1 MiB).
pub const WINDOW_SIZE: usize = 1048576;

/// Start of window `k` in a source of `total` bytes.
pub open spec fn window_start(total: nat, k: nat) -> nat {
    k * (total / SAMPLE_COUNT as nat)
}

/// Length of window `k`: up to `WINDOW_SIZE` bytes, cut at the end of the source.
pub open spec fn window_len(total: nat, k: nat) -> nat {
    let rest = total - window_start(total, k);
    if rest < WINDOW_SIZE {
        rest as nat
    } else {
        WINDOW_SIZE as nat
    }
}

/// The bytes of the first `k` windows of `d`, one after the other.
pub open spec fn sampled_upto(d: Seq<u8>, k: nat) -> Seq<u8>
    decreases k,
{
    if k == 0 {
        Seq::empty()
    } else {
        let j = (k - 1) as nat;
        let s = window_start(d.len(), j) as int;
        sampled_upto(d, j) + d.subrange(s, s + window_len(d.len(), j))
    }
}

/// The bytes that seed derivation reads from `d`.
pub open spec fn sampled(d: Seq<u8>) -> Seq<u8> {
    sampled_upto(d, SAMPLE_COUNT as nat)
}

/// The seed that a sample gives: the first eight digest bytes, little-endian.
pub open spec fn seed_of_sample(sample: Seq<u8>) -> u64 {
    le_u64_spec(sha256_of(sample))
}

proof fn lemma_window_in_bounds(total: nat, k: nat)
    requires
        k < SAMPLE_COUNT,
    ensures
        window_start(total, k) <= total,
        window_start(total, k) + window_len(total, k) <= total,
        window_len(total, k) <= WINDOW_SIZE,
{
    let step = total / 10;
    assert(step * 10 <= total);
    assert(k * step <= 10 * step) by (nonlinear_arith)
        requires
            k < 10,
    ;
}

/// The (start, length) pairs of the ten windows of a source of `total` bytes.
pub fn sample_windows(total: usize) -> (r: Vec<(usize, usize)>)
    ensures
        r@.len() == SAMPLE_COUNT,
        forall|k: int|
            0 <= k < SAMPLE_COUNT ==> #[trigger] r@[k] == (
            window_start(total as nat, k as nat) as usize,
            window_len(total as nat, k as nat) as usize,
            ),
{
    let step = total / SAMPLE_COUNT;
    let mut out: Vec<(usize, usize)> = Vec::new();
    let mut k: usize = 0;
    while k < SAMPLE_COUNT
        invariant
            k <= SAMPLE_COUNT,
            step == total / SAMPLE_COUNT,
            out@.len() == k,
            forall|j: int|
                0 <= j < k ==> #[trigger] out@[j] == (
                window_start(total as nat, j as nat) as usize,
                window_len(total as nat, j as nat) as usize,
                ),
        decreases SAMPLE_COUNT - k,
    {
        proof {
            lemma_window_in_bounds(total as nat, k as nat);
        }
        let start = k * step;
        let rest = total - start;
        let len = if rest < WINDOW_SIZE {
            rest
        } else {
            WINDOW_SIZE
        };
        out.push((start, len));
        k = k + 1;
    }
    out
}

/// The bytes that seed derivation reads from `data`: the ten windows, in order.
pub fn sample_bytes(data: &Vec<u8>) -> (r: Vec<u8>)
    ensures
        r@ == sampled(data@),
{
    let windows = sample_windows(data.len());
    let mut out: Vec<u8> = Vec::new();
    let mut k: usize = 0;
    while k < 10
        invariant
            k <= 10,
            data@.len() <= usize::MAX,
            windows@.len() == SAMPLE_COUNT,
            forall|j: int|
                0 <= j < SAMPLE_COUNT ==> #[trigger] windows@[j] == (
                window_start(data@.len(), j as nat) as usize,
                window_len(data@.len(), j as nat) as usize,
                ),
            out@ == sampled_upto(data@, k as nat),
            out@.len() <= k * WINDOW_SIZE,
        decreases 10 - k,
    {
        proof {
            lemma_window_in_bounds(data@.len(), k as nat);
        }
        let (start, len) = windows[k];
        let s = start;
        let e = s + len;
        let mut i: usize = s;
        let ghost before = out@;
        while i < e
            invariant
                s <= i <= e,
                e <= data@.len(),
                e - s <= WINDOW_SIZE,
                before.len() <= k * WINDOW_SIZE,
                out@ == before + data@.subrange(s as int, i as int),
            decreases e - i,
        {
            out.push(data[i]);
            proof {
                assert(data@.subrange(s as int, i + 1) =~= data@.subrange(s as int, i as int).push(
                    data@[i as int],
                ));
            }
            i = i + 1;
        }
        assert(out@ == sampled_upto(data@, (k + 1) as nat));
        k = k + 1;
    }
    out
}

/// The seed of an already gathered sample.
pub fn seed_from_samples(sample: &[u8]) -> (r: u64)
    ensures
        r == seed_of_sample(sample@),
{
    let d = sha256(sample);
    le_u64(d.as_slice())
}

/// The seed of `data`: deterministic for identical content.
pub fn derive_seed(data: &Vec<u8>) -> (r: u64)
    ensures
        r == seed_of_sample(sampled(data@)),
{
    let sample = sample_bytes(data);
    seed_from_samples(sample.as_slice())
}

} // verus!
