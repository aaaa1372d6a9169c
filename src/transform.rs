//! The reversible keyed byte transform: each pass XORs the data with a
//! pseudo-random byte stream drawn, in counter mode, from the seed and the
//! pass number. The stream uses integer arithmetic only, so it is the same on
//! every platform, and undoing a pass is applying it again.
use vstd::prelude::*;

verus! {

/// Odd increment of the counter-mode generator (the golden ratio in 64 bits).
pub const GAMMA: u64 = 0x9e37_79b9_7f4a_7c15;

/// First multiplier of the bit mixer.
pub const MIX_A: u64 = 0xbf58_476d_1ce4_e5b9;

/// Second multiplier of the bit mixer.
pub const MIX_B: u64 = 0x94d0_49bb_1331_11eb;

/// A bijective scrambling of a 64-bit word (the SplitMix64 finaliser).
pub open spec fn mix64_spec(z: u64) -> u64 {
    let z1 = (z ^ (z >> 30u64)).wrapping_mul(MIX_A);
    let z2 = (z1 ^ (z1 >> 27u64)).wrapping_mul(MIX_B);
    z2 ^ (z2 >> 31u64)
}

/// The key of pass number `pass` under `seed`.
pub open spec fn pass_key(seed: u64, pass: u64) -> u64 {
    mix64_spec(seed.wrapping_add(pass.wrapping_mul(GAMMA)))
}

/// Byte `i` of the stream of a pass whose key is `key`.
pub open spec fn stream_byte(key: u64, i: u64) -> u8 {
    (mix64_spec(key.wrapping_add(i.wrapping_add(1).wrapping_mul(GAMMA))) % 256) as u8
}

/// One pass: every byte XORed with the matching byte of the pass's stream.
pub open spec fn xor_pass(d: Seq<u8>, seed: u64, pass: u64) -> Seq<u8> {
    Seq::new(d.len(), |i: int| d[i] ^ stream_byte(pass_key(seed, pass), i as u64))
}

/// The forward transform: passes `0, 1, ..., levels - 1` in this order.
pub open spec fn forward_spec(d: Seq<u8>, seed: u64, levels: nat) -> Seq<u8>
    decreases levels,
{
    if levels == 0 {
        d
    } else {
        xor_pass(forward_spec(d, seed, (levels - 1) as nat), seed, (levels - 1) as u64)
    }
}

/// The inverse transform: passes `levels - 1, ..., 1, 0` in this order.
pub open spec fn inverse_spec(d: Seq<u8>, seed: u64, levels: nat) -> Seq<u8>
    decreases levels,
{
    if levels == 0 {
        d
    } else {
        inverse_spec(xor_pass(d, seed, (levels - 1) as u64), seed, (levels - 1) as nat)
    }
}

proof fn lemma_xor_twice(b: u8, k: u8)
    ensures
        (b ^ k) ^ k == b,
{
    assert((b ^ k) ^ k == b) by (bit_vector);
}

/// Applying one pass twice gives the data back.
pub proof fn lemma_xor_pass_involution(d: Seq<u8>, seed: u64, pass: u64)
    ensures
        xor_pass(xor_pass(d, seed, pass), seed, pass) == d,
{
    let once = xor_pass(d, seed, pass);
    let twice = xor_pass(once, seed, pass);
    assert forall|i: int| 0 <= i < d.len() implies #[trigger] twice[i] == d[i] by {
        lemma_xor_twice(d[i], stream_byte(pass_key(seed, pass), i as u64));
    }
    assert(twice =~= d);
}

/// The inverse transform undoes the forward transform, for every input, seed
/// and number of passes.
pub proof fn lemma_transform_round_trip(d: Seq<u8>, seed: u64, levels: nat)
    requires
        levels <= u64::MAX + 1,
    ensures
        inverse_spec(forward_spec(d, seed, levels), seed, levels) == d,
    decreases levels,
{
    if levels > 0 {
        let prev = forward_spec(d, seed, (levels - 1) as nat);
        lemma_xor_pass_involution(prev, seed, (levels - 1) as u64);
        lemma_transform_round_trip(d, seed, (levels - 1) as nat);
    }
}

/// The transform preserves the length of the data.
pub proof fn lemma_transform_length(d: Seq<u8>, seed: u64, levels: nat)
    ensures
        forward_spec(d, seed, levels).len() == d.len(),
        inverse_spec(d, seed, levels).len() == d.len(),
    decreases levels,
{
    if levels > 0 {
        lemma_transform_length(d, seed, (levels - 1) as nat);
        lemma_transform_length(xor_pass(d, seed, (levels - 1) as u64), seed, (levels - 1) as nat);
    }
}

/// The bit mixer.
fn mix64(z: u64) -> (r: u64)
    ensures
        r == mix64_spec(z),
{
    let z1 = (z ^ (z >> 30u64)).wrapping_mul(MIX_A);
    let z2 = (z1 ^ (z1 >> 27u64)).wrapping_mul(MIX_B);
    z2 ^ (z2 >> 31u64)
}

/// One pass over `data`.
fn apply_pass(data: &Vec<u8>, seed: u64, pass: u64) -> (r: Vec<u8>)
    ensures
        r@ == xor_pass(data@, seed, pass),
{
    let key = mix64(seed.wrapping_add(pass.wrapping_mul(GAMMA)));
    let mut out: Vec<u8> = Vec::with_capacity(data.len());
    let mut i: usize = 0;
    while i < data.len()
        invariant
            key == pass_key(seed, pass),
            i <= data@.len(),
            out@.len() == i,
            forall|j: int| 0 <= j < i ==> out@[j] == data@[j] ^ stream_byte(key, j as u64),
        decreases data@.len() - i,
    {
        let word = mix64(key.wrapping_add((i as u64).wrapping_add(1).wrapping_mul(GAMMA)));
        let k = (word % 256) as u8;
        out.push(data[i] ^ k);
        i = i + 1;
    }
    assert(out@ =~= xor_pass(data@, seed, pass));
    out
}

/// Runs the transform over `data` with `levels` passes keyed by `seed`:
/// forward when `forward` holds, inverse otherwise. The length never changes.
pub fn transform(data: &Vec<u8>, seed: u64, levels: u64, forward: bool) -> (r: Vec<u8>)
    ensures
        r@ == if forward {
            forward_spec(data@, seed, levels as nat)
        } else {
            inverse_spec(data@, seed, levels as nat)
        },
        r@.len() == data@.len(),
{
    proof {
        lemma_transform_length(data@, seed, levels as nat);
    }
    let mut cur: Vec<u8> = data.clone();
    assert(cur@ == data@);
    if forward {
        let mut done: u64 = 0;
        while done < levels
            invariant
                done <= levels,
                cur@ == forward_spec(data@, seed, done as nat),
            decreases levels - done,
        {
            cur = apply_pass(&cur, seed, done);
            done = done + 1;
        }
        cur
    } else {
        let mut left: u64 = levels;
        while left > 0
            invariant
                left <= levels,
                inverse_spec(cur@, seed, left as nat) == inverse_spec(data@, seed, levels as nat),
            decreases left,
        {
            cur = apply_pass(&cur, seed, left - 1);
            left = left - 1;
        }
        cur
    }
}

/// The forward transform.
pub fn forward_transform(data: &Vec<u8>, seed: u64, levels: u64) -> (r: Vec<u8>)
    ensures
        r@ == forward_spec(data@, seed, levels as nat),
{
    transform(data, seed, levels, true)
}

/// The inverse transform.
pub fn inverse_transform(data: &Vec<u8>, seed: u64, levels: u64) -> (r: Vec<u8>)
    ensures
        r@ == inverse_spec(data@, seed, levels as nat),
{
    transform(data, seed, levels, false)
}

} // verus!
