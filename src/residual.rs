//! Integrity residuals: a non-negative integer written as a Zeckendorf
//! (Fibonacci positional) bit string, most significant bit first.
use vstd::prelude::*;

verus! {

broadcast use vstd::string::is_ascii_spec_bytes, vstd::utf8::is_ascii_chars_encode_utf8;

/// The Fibonacci numbers: `fib(0) == 0`, `fib(1) == 1`.
pub open spec fn fib(n: nat) -> nat
    decreases n,
{
    if n == 0 {
        0
    } else if n == 1 {
        1
    } else {
        fib((n - 1) as nat) + fib((n - 2) as nat)
    }
}

/// Value of the first `s.len()` bits of a code of length `len`: the bit at
/// position `t` (counted from the front) weighs `fib(len + 1 - t)`, so the
/// last bit of the whole code weighs 1, the one before 2, then 3, 5, 8, ...
pub open spec fn prefix_value(s: Seq<char>, len: nat) -> nat
    decreases s.len(),
{
    if s.len() == 0 {
        0
    } else {
        prefix_value(s.drop_last(), len) + if s.last() == '1' {
            fib((len + 2 - s.len()) as nat)
        } else {
            0
        }
    }
}

/// The integer that a residual string stands for.
pub open spec fn residual_value(s: Seq<char>) -> nat {
    prefix_value(s, s.len())
}

/// Every character is a bit.
pub open spec fn is_bit_string(s: Seq<char>) -> bool {
    forall|t: int| 0 <= t < s.len() ==> (#[trigger] s[t] == '0' || s[t] == '1')
}

/// No two neighbouring bits are both set.
pub open spec fn no_adjacent_ones(s: Seq<char>) -> bool {
    forall|t: int| 0 <= t < s.len() - 1 ==> !(#[trigger] s[t] == '1' && s[t + 1] == '1')
}

/// The canonical residual of `n`: a bit string with no two neighbouring set
/// bits, no leading zero bit (the single bit `0` for zero), whose value is `n`.
pub open spec fn is_canonical_residual(s: Seq<char>, n: nat) -> bool {
    &&& is_bit_string(s)
    &&& no_adjacent_ones(s)
    &&& residual_value(s) == n
    &&& if n == 0 {
        s == seq!['0']
    } else {
        s.len() > 0 && s[0] == '1'
    }
}

/// What decoding a residual string gives: its value where every character is
/// a bit and the value fits in 64 bits, nothing otherwise.
pub open spec fn decoded_residual(s: Seq<char>) -> Option<u64> {
    if is_bit_string(s) && residual_value(s) <= u64::MAX {
        Some(residual_value(s) as u64)
    } else {
        None
    }
}

pub proof fn lemma_fib_monotone(i: nat, j: nat)
    requires
        i <= j,
    ensures
        fib(i) <= fib(j),
    decreases j,
{
    if i < j {
        lemma_fib_monotone(i, (j - 1) as nat);
    }
}

proof fn lemma_fib_strict(j: nat)
    requires
        j >= 3,
    ensures
        fib((j - 1) as nat) < fib(j),
{
    lemma_fib_monotone(1, (j - 2) as nat);
}

proof fn lemma_prefix_monotone(s: Seq<char>, len: nat, a: int, b: int)
    requires
        0 <= a <= b <= s.len(),
    ensures
        prefix_value(s.subrange(0, a), len) <= prefix_value(s.subrange(0, b), len),
    decreases b - a,
{
    if a < b {
        lemma_prefix_monotone(s, len, a, b - 1);
        assert(s.subrange(0, b).drop_last() =~= s.subrange(0, b - 1));
    }
}

/// The Fibonacci numbers `fib(0)`, ..., `fib(m)`, where `fib(m)` is the last
/// one not above `up_to`.
pub fn fib_sequence(up_to: u64) -> (r: Vec<u64>)
    ensures
        r@.len() >= 1,
        forall|i: int| 0 <= i < r@.len() ==> r@[i] == fib(i as nat),
        fib((r@.len() - 1) as nat) <= up_to,
        up_to < fib(r@.len() as nat),
        up_to >= 1 ==> r@.len() >= 3,
{
    let mut fibs: Vec<u64> = vec![0];
    if up_to == 0 {
        assert(fib(1) == 1);
        return fibs;
    }
    fibs.push(1);
    fibs.push(1);
    assert(fib(0) == 0 && fib(1) == 1);
    assert(fib(2) == 1);
    loop
        invariant
            fibs@.len() >= 3,
            forall|i: int| 0 <= i < fibs@.len() ==> fibs@[i] == fib(i as nat),
            fib((fibs@.len() - 1) as nat) <= up_to,
        decreases u64::MAX - fibs@[fibs@.len() - 1],
    {
        let n = fibs.len();
        let a = fibs[n - 1];
        let b = fibs[n - 2];
        assert(fib(n as nat) == fib((n - 1) as nat) + fib((n - 2) as nat));
        match a.checked_add(b) {
            None => {
                return fibs;
            },
            Some(next) => {
                if next > up_to {
                    return fibs;
                }
                proof {
                    lemma_fib_strict(n as nat);
                }
                fibs.push(next);
            },
        }
    }
}

/// Writes `num` as its canonical Zeckendorf residual: greedily from the
/// largest Fibonacci number not above `num` down to 1, a `1` where the term
/// is taken and a `0` where it is not.
pub fn zeckendorf(num: u64) -> (r: String)
    ensures
        is_canonical_residual(r@, num as nat),
{
    if num == 0 {
        proof {
            reveal_strlit("0");
        }
        let mut r = String::new();
        r.append("0");
        assert(r@ =~= seq!['0']);
        assert(r@.drop_last() =~= Seq::<char>::empty());
        assert(prefix_value(Seq::<char>::empty(), 1) == 0);
        assert(residual_value(r@) == 0);
        return r;
    }
    let fibs = fib_sequence(num);
    let k: usize = fibs.len() - 1;
    let ghost len: nat = (k - 1) as nat;
    let mut code = String::new();
    let mut remaining: u64 = num;
    let mut i: usize = k;
    proof {
        reveal_strlit("0");
        reveal_strlit("1");
    }
    while i >= 2
        invariant
            2 <= k + 0 < fibs@.len(),
            k == fibs@.len() - 1,
            len == k - 1,
            1 <= i <= k,
            forall|t: int| 0 <= t < fibs@.len() ==> fibs@[t] == fib(t as nat),
            fib(k as nat) <= num,
            code@.len() == k - i,
            prefix_value(code@, len) + remaining == num,
            remaining < fib((i + 1) as nat),
            code@.len() > 0 && code@.last() == '1' ==> remaining < fib(i as nat),
            is_bit_string(code@),
            no_adjacent_ones(code@),
            code@.len() > 0 ==> code@[0] == '1',
        decreases i,
    {
        let ghost prev = code@;
        proof {
            reveal_strlit("0");
            reveal_strlit("1");
        }
        let f = fibs[i];
        if f <= remaining {
            code.append("1");
            remaining = remaining - f;
            proof {
                assert(code@.drop_last() =~= prev);
                assert(fib((i + 1) as nat) == fib(i as nat) + fib((i - 1) as nat));
                lemma_fib_monotone((i - 1) as nat, i as nat);
                if prev.len() > 0 {
                    assert(prev.last() != '1');
                }
                assert forall|t: int| 0 <= t < code@.len() - 1 implies !(#[trigger] code@[t] == '1'
                    && code@[t + 1] == '1') by {
                    if t < prev.len() - 1 {
                        assert(code@[t] == prev[t] && code@[t + 1] == prev[t + 1]);
                    }
                }
                assert(is_bit_string(code@)) by {
                    assert forall|t: int| 0 <= t < code@.len() implies (#[trigger] code@[t] == '0'
                        || code@[t] == '1') by {
                        if t < prev.len() {
                            assert(code@[t] == prev[t]);
                        }
                    }
                }
            }
        } else {
            code.append("0");
            proof {
                assert(code@.drop_last() =~= prev);
                assert(prev.len() == 0 ==> i == k);
                assert forall|t: int| 0 <= t < code@.len() - 1 implies !(#[trigger] code@[t] == '1'
                    && code@[t + 1] == '1') by {
                    if t < prev.len() - 1 {
                        assert(code@[t] == prev[t] && code@[t + 1] == prev[t + 1]);
                    }
                }
                assert(is_bit_string(code@)) by {
                    assert forall|t: int| 0 <= t < code@.len() implies (#[trigger] code@[t] == '0'
                        || code@[t] == '1') by {
                        if t < prev.len() {
                            assert(code@[t] == prev[t]);
                        }
                    }
                }
            }
        }
        i = i - 1;
    }
    assert(fib(0) == 0 && fib(1) == 1);
    assert(fib(2) == 1);
    code
}

/// Reads a residual string back into the integer it stands for.
pub fn decode_zeckendorf(code: &str) -> (r: Option<u64>)
    ensures
        r == decoded_residual(code@),
{
    if !code.is_ascii() {
        assert(!is_bit_string(code@)) by {
            assert(!vstd::utf8::is_ascii_chars(code@));
        }
        return None;
    }
    let bytes = code.as_bytes();
    let n: usize = bytes.len();
    let ghost s = code@;
    assert(s.len() == n);
    let fibs = fib_sequence(u64::MAX);
    let mut acc: u64 = 0;
    let mut t: usize = 0;
    while t < n
        invariant
            s == code@,
            n == s.len(),
            n == bytes@.len(),
            forall|j: int| 0 <= j < n ==> s[j] as u8 == bytes@[j],
            vstd::utf8::is_ascii_chars(s),
            forall|j: int| 0 <= j < fibs@.len() ==> fibs@[j] == fib(j as nat),
            u64::MAX < fib(fibs@.len() as nat),
            0 <= t <= n,
            acc == prefix_value(s.subrange(0, t as int), n as nat),
            is_bit_string(s.subrange(0, t as int)),
        decreases n - t,
    {
        let ghost pre = s.subrange(0, t as int);
        let ghost post = s.subrange(0, t + 1);
        assert(post.drop_last() =~= pre);
        let b = bytes[t];
        let ghost c = s[t as int];
        assert(c <= '\u{7f}');
        if b == 49u8 {
            assert(c == '1');
            let d: usize = n - t;
            if d >= fibs.len() - 1 {
                proof {
                    assert(prefix_value(post, n as nat) >= fib((d + 1) as nat));
                    lemma_fib_monotone(fibs@.len() as nat, (d + 1) as nat);
                    lemma_prefix_monotone(s, n as nat, t + 1, n as int);
                    assert(s.subrange(0, n as int) =~= s);
                    assert(residual_value(s) >= fib((d + 1) as nat));
                    assert(residual_value(s) > u64::MAX);
                }
                return None;
            }
            match acc.checked_add(fibs[d + 1]) {
                None => {
                    proof {
                        assert(prefix_value(post, n as nat) == acc + fib((d + 1) as nat));
                        lemma_prefix_monotone(s, n as nat, t + 1, n as int);
                        assert(s.subrange(0, n as int) =~= s);
                        assert(residual_value(s) > u64::MAX);
                    }
                    return None;
                },
                Some(v) => {
                    acc = v;
                },
            }
        } else if b != 48u8 {
            assert('0' as u8 == 48u8 && '1' as u8 == 49u8);
            assert(c != '0' && c != '1');
            assert(!is_bit_string(s));
            return None;
        } else {
            assert(c == '0');
        }
        assert(is_bit_string(post)) by {
            assert forall|j: int| 0 <= j < post.len() implies (#[trigger] post[j] == '0'
                || post[j] == '1') by {
                if j < t {
                    assert(post[j] == pre[j]);
                }
            }
        }
        t = t + 1;
    }
    assert(s.subrange(0, n as int) =~= s);
    Some(acc)
}

/// Decoding the canonical residual of `n` gives `n` back; in particular the
/// residual of zero is the single bit `0`.
pub proof fn lemma_residual_round_trip(s: Seq<char>, n: u64)
    requires
        is_canonical_residual(s, n as nat),
    ensures
        decoded_residual(s) == Some(n),
        n == 0 ==> s == seq!['0'],
{
}

/// The leading bit of a code weighs `fib(len + 1)`; the rest is a code of
/// its own.
proof fn lemma_value_first(s: Seq<char>, len: nat)
    requires
        s.len() >= 1,
        len >= 1,
    ensures
        prefix_value(s, len) == (if s[0] == '1' {
            fib(len + 1)
        } else {
            0
        }) + prefix_value(s.drop_first(), (len - 1) as nat),
    decreases s.len(),
{
    if s.len() == 1 {
        assert(s.drop_last() =~= Seq::<char>::empty());
        assert(s.drop_first() =~= Seq::<char>::empty());
        assert(prefix_value(Seq::<char>::empty(), len) == 0);
        assert(prefix_value(Seq::<char>::empty(), (len - 1) as nat) == 0);
        assert(s.last() == s[0]);
    } else {
        lemma_value_first(s.drop_last(), len);
        assert(s.drop_last()[0] == s[0]);
        assert(s.drop_first().drop_last() =~= s.drop_last().drop_first());
        assert(s.drop_first().last() == s.last());
        assert(prefix_value(s.drop_first(), (len - 1) as nat) == prefix_value(
            s.drop_first().drop_last(),
            (len - 1) as nat,
        ) + if s.last() == '1' {
            fib((len + 2 - s.len()) as nat)
        } else {
            0
        });
    }
}

proof fn lemma_tail_shape(s: Seq<char>)
    requires
        s.len() >= 1,
        is_bit_string(s),
        no_adjacent_ones(s),
    ensures
        is_bit_string(s.drop_first()),
        no_adjacent_ones(s.drop_first()),
{
    let t = s.drop_first();
    assert forall|i: int| 0 <= i < t.len() implies (#[trigger] t[i] == '0' || t[i] == '1') by {
        assert(t[i] == s[i + 1]);
    }
    assert forall|i: int| 0 <= i < t.len() - 1 implies !(#[trigger] t[i] == '1' && t[i + 1] == '1') by {
        assert(t[i] == s[i + 1] && t[i + 1] == s[i + 2]);
    }
}

/// A bit string of length `L` without neighbouring set bits is worth less
/// than `fib(L + 2)`.
proof fn lemma_value_bound(s: Seq<char>)
    requires
        is_bit_string(s),
        no_adjacent_ones(s),
    ensures
        residual_value(s) < fib(s.len() + 2),
    decreases s.len(),
{
    let l = s.len();
    assert(fib(0) == 0 && fib(1) == 1);
    assert(fib(2) == 1);
    if l == 0 {
    } else {
        lemma_value_first(s, l);
        lemma_tail_shape(s);
        let t = s.drop_first();
        lemma_value_bound(t);
        if s[0] == '1' && l >= 2 {
            assert(t[0] == s[1]);
            assert(s[1] != '1');
            lemma_value_first(t, (l - 1) as nat);
            lemma_tail_shape(t);
            lemma_value_bound(t.drop_first());
            assert(fib(l + 2) == fib(l + 1) + fib(l));
        } else if s[0] == '1' {
            assert(t.len() == 0);
            assert(fib(3) == 2);
        } else {
            lemma_fib_monotone(l + 1, l + 2);
        }
    }
}

proof fn lemma_same_length_unique(s: Seq<char>, t: Seq<char>)
    requires
        s.len() == t.len(),
        is_bit_string(s),
        no_adjacent_ones(s),
        is_bit_string(t),
        no_adjacent_ones(t),
        residual_value(s) == residual_value(t),
    ensures
        s == t,
    decreases s.len(),
{
    let l = s.len();
    if l > 0 {
        lemma_value_first(s, l);
        lemma_value_first(t, l);
        lemma_tail_shape(s);
        lemma_tail_shape(t);
        lemma_value_bound(s.drop_first());
        lemma_value_bound(t.drop_first());
        assert(s[0] == t[0]);
        lemma_same_length_unique(s.drop_first(), t.drop_first());
        assert(s =~= seq![s[0]] + s.drop_first());
        assert(t =~= seq![t[0]] + t.drop_first());
    } else {
        assert(s =~= t);
    }
}

/// Every non-negative integer has exactly one canonical residual.
pub proof fn lemma_canonical_unique(s: Seq<char>, t: Seq<char>, n: nat)
    requires
        is_canonical_residual(s, n),
        is_canonical_residual(t, n),
    ensures
        s == t,
{
    if n > 0 {
        lemma_value_first(s, s.len());
        lemma_value_first(t, t.len());
        lemma_value_bound(s);
        lemma_value_bound(t);
        if s.len() < t.len() {
            lemma_fib_monotone(s.len() + 2, t.len() + 1);
        } else if t.len() < s.len() {
            lemma_fib_monotone(t.len() + 2, s.len() + 1);
        }
        lemma_same_length_unique(s, t);
    }
}
/// Flipping a single bit of a residual string changes its value.
pub proof fn lemma_flip_changes_value(s: Seq<char>, s2: Seq<char>, t: int)
    requires
        s.len() == s2.len(),
        0 <= t < s.len(),
        is_bit_string(s),
        is_bit_string(s2),
        s[t] != s2[t],
        forall|i: int| 0 <= i < s.len() && i != t ==> s[i] == s2[i],
    ensures
        residual_value(s) != residual_value(s2),
    decreases s.len(),
{
    let l = s.len();
    lemma_value_first(s, l);
    lemma_value_first(s2, l);
    let a = s.drop_first();
    let b = s2.drop_first();
    if t == 0 {
        assert(a =~= b);
        lemma_fib_monotone(1, l + 1);
        assert(fib(1) == 1);
    } else {
        assert forall|i: int| 0 <= i < a.len() implies (#[trigger] a[i] == '0' || a[i] == '1') by {
            assert(a[i] == s[i + 1]);
        }
        assert forall|i: int| 0 <= i < b.len() implies (#[trigger] b[i] == '0' || b[i] == '1') by {
            assert(b[i] == s2[i + 1]);
        }
        assert forall|i: int| 0 <= i < a.len() && i != t - 1 implies a[i] == b[i] by {
            assert(a[i] == s[i + 1] && b[i] == s2[i + 1]);
        }
        lemma_flip_changes_value(a, b, t - 1);
    }
}

/// A residual string with one bit of the canonical residual of `n` flipped
/// does not decode to `n`.
pub proof fn lemma_flipped_residual_rejected(s: Seq<char>, s2: Seq<char>, t: int, n: u64)
    requires
        is_canonical_residual(s, n as nat),
        s.len() == s2.len(),
        0 <= t < s.len(),
        s2[t] == (if s[t] == '1' {
            '0'
        } else {
            '1'
        }),
        forall|i: int| 0 <= i < s.len() && i != t ==> s[i] == s2[i],
    ensures
        decoded_residual(s2) != Some(n),
{
    assert(is_bit_string(s2)) by {
        assert forall|i: int| 0 <= i < s2.len() implies (#[trigger] s2[i] == '0' || s2[i] == '1') by {
            if i != t {
                assert(s[i] == s2[i]);
            }
        }
    }
    lemma_flip_changes_value(s, s2, t);
}
} // verus!
