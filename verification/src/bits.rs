//! Bitsets over `u64` words: bit `s` lives in word `s / 64` at position `s % 64`.
use vstd::prelude::*;

verus! {

/// Number of `u64` words needed to hold `n` bits.
pub fn bs_words(n: usize) -> (r: usize)
    ensures
        r as int == (n as int + 63) / 64,
{
    n / 64 + if n % 64 == 0 { 0 } else { 1 }
}

/// Bit `b` of the word `x`.
pub open spec fn bit(x: u64, b: u64) -> bool {
    (x >> b) & 1u64 == 1u64
}

/// Member `s` is in the bitset `v`.
pub open spec fn bs_has(v: Seq<u64>, s: nat) -> bool {
    &&& s / 64 < v.len()
    &&& bit(v[(s / 64) as int], (s % 64) as u64)
}

/// `v` is a bitset over the universe `0..n`: the right number of words, and no
/// member at or beyond `n`.
pub open spec fn bs_ok(v: Seq<u64>, n: nat) -> bool {
    &&& v.len() == (n + 63) / 64
    &&& forall|s: nat| #[trigger] bs_has(v, s) ==> s < n
}

/// The members of `v` below `n`, as a set.
pub open spec fn bs_set(v: Seq<u64>, n: nat) -> Set<nat> {
    Set::new(|s: nat| s < n && bs_has(v, s))
}

proof fn lemma_bit_or(x: u64, b: u64, c: u64)
    requires
        b < 64,
        c < 64,
    ensures
        bit(x | (1u64 << b), c) == (bit(x, c) || b == c),
{
    assert(((x | (1u64 << b)) >> c) & 1u64 == 1u64 <==> (((x >> c) & 1u64 == 1u64) || b == c))
        by (bit_vector)
        requires
            b < 64,
            c < 64,
    ;
}

proof fn lemma_bit_zero(c: u64)
    requires
        c < 64,
    ensures
        !bit(0u64, c),
{
    assert((0u64 >> c) & 1u64 == 0u64) by (bit_vector);
}

proof fn lemma_bit_top(x: u64, y: u64)
    requires
        bit(x, 63) == bit(y, 63),
    ensures
        x >> 63u64 == y >> 63u64,
{
    assert(((x >> 63u64) & 1u64 == 1u64) == ((y >> 63u64) & 1u64 == 1u64) ==> x >> 63u64 == y >> 63u64)
        by (bit_vector);
}

proof fn lemma_bit_step(x: u64, y: u64, b: u64)
    requires
        b < 63,
        x >> ((b + 1) as u64) == y >> ((b + 1) as u64),
        bit(x, b) == bit(y, b),
    ensures
        x >> b == y >> b,
{
    let b1 = (b + 1) as u64;
    assert(b < 63 && b1 == b + 1 && x >> b1 == y >> b1 && (((x >> b) & 1u64 == 1u64) == ((y >> b)
        & 1u64 == 1u64)) ==> x >> b == y >> b) by (bit_vector);
}

proof fn lemma_bits_from(x: u64, y: u64, b: u64)
    requires
        b < 64,
        forall|c: u64| b <= c < 64 ==> bit(x, c) == bit(y, c),
    ensures
        x >> b == y >> b,
    decreases 64 - b,
{
    if b == 63 {
        lemma_bit_top(x, y);
    } else {
        lemma_bits_from(x, y, (b + 1) as u64);
        lemma_bit_step(x, y, b);
    }
}

/// Two words with the same 64 bits are equal.
pub proof fn lemma_word_eq(x: u64, y: u64)
    requires
        forall|c: u64| c < 64 ==> bit(x, c) == bit(y, c),
    ensures
        x == y,
{
    lemma_bits_from(x, y, 0);
    assert(x >> 0u64 == x) by (bit_vector);
    assert(y >> 0u64 == y) by (bit_vector);
}

/// Two bitsets over the same universe with the same members are equal.
pub proof fn lemma_bs_ext(v1: Seq<u64>, v2: Seq<u64>, n: nat)
    requires
        bs_ok(v1, n),
        bs_ok(v2, n),
        forall|s: nat| s < n ==> bs_has(v1, s) == bs_has(v2, s),
    ensures
        v1 == v2,
{
    assert forall|wi: int| 0 <= wi < v1.len() implies v1[wi] == v2[wi] by {
        assert forall|c: u64| c < 64 implies bit(v1[wi], c) == bit(v2[wi], c) by {
            let s = (wi * 64 + c) as nat;
            assert(s / 64 == wi && s % 64 == c) by (nonlinear_arith)
                requires
                    s == wi * 64 + c,
                    0 <= wi,
                    c < 64,
            ;
            if s < n {
                assert(bs_has(v1, s) == bs_has(v2, s));
            } else {
                if bit(v1[wi], c) {
                    assert(bs_has(v1, s));
                }
                if bit(v2[wi], c) {
                    assert(bs_has(v2, s));
                }
            }
        }
        lemma_word_eq(v1[wi], v2[wi]);
    }
    assert(v1 =~= v2);
}

/// Two bitsets that differ as sequences differ on a member.
pub proof fn lemma_bs_differ(v1: Seq<u64>, v2: Seq<u64>, n: nat)
    requires
        bs_ok(v1, n),
        bs_ok(v2, n),
        v1 != v2,
    ensures
        exists|s: nat| s < n && bs_has(v1, s) != bs_has(v2, s),
{
    if forall|s: nat| s < n ==> bs_has(v1, s) == bs_has(v2, s) {
        lemma_bs_ext(v1, v2, n);
    }
}

/// The empty bitset over `0..n`.
pub fn bs_empty(n: usize) -> (r: Vec<u64>)
    ensures
        bs_ok(r@, n as nat),
        forall|s: nat| !#[trigger] bs_has(r@, s),
{
    let words = bs_words(n);
    let mut v: Vec<u64> = Vec::new();
    let mut i: usize = 0;
    while i < words
        invariant
            i <= words,
            v.len() == i,
            forall|j: int| 0 <= j < i ==> v@[j] == 0u64,
        decreases words - i,
    {
        v.push(0u64);
        i = i + 1;
    }
    proof {
        assert forall|s: nat| !#[trigger] bs_has(v@, s) by {
            if s / 64 < v.len() {
                lemma_bit_zero((s % 64) as u64);
            }
        }
    }
    v
}

/// Add member `s` to the bitset.
pub fn bs_insert(v: &mut Vec<u64>, s: usize, Ghost(n): Ghost<nat>)
    requires
        bs_ok(old(v)@, n),
        s < n,
    ensures
        bs_ok(final(v)@, n),
        forall|t: nat| #[trigger] bs_has(final(v)@, t) == (bs_has(old(v)@, t) || t == s),
{
    proof {
        assert(s / 64 < (n + 63) / 64) by (nonlinear_arith)
            requires
                s < n,
        ;
    }
    let wi = s / 64;
    let b = (s % 64) as u64;
    let x = v[wi];
    v.set(wi, x | (1u64 << b));
    proof {
        assert forall|t: nat| #[trigger] bs_has(v@, t) == (bs_has(old(v)@, t) || t == s) by {
            if t / 64 == wi {
                lemma_bit_or(x, b, (t % 64) as u64);
                if t % 64 == b as nat {
                    assert(t == s);
                }
            } else {
                assert(t != s);
                if t / 64 < v.len() {
                    assert(v@[(t / 64) as int] == old(v)@[(t / 64) as int]);
                }
            }
        }
    }
}

/// Is `s` a member?
pub fn bs_get(v: &Vec<u64>, s: usize) -> (r: bool)
    requires
        s / 64 < v.len(),
    ensures
        r == bs_has(v@, s as nat),
{
    let x = v[s / 64];
    (x >> ((s % 64) as u64)) & 1u64 == 1u64
}

/// The members of `v` in increasing order.
pub fn bs_members(v: &Vec<u64>, Ghost(n): Ghost<nat>) -> (r: Vec<usize>)
    requires
        bs_ok(v@, n),
        n <= u32::MAX,
    ensures
        forall|j: int| 0 <= j < r.len() ==> (#[trigger] r@[j] as nat) < n && bs_has(v@, r@[j] as nat),
        forall|s: nat| s < n && bs_has(v@, s) ==> r@.contains(s as usize),
{
    let mut r: Vec<usize> = Vec::new();
    let mut wi: usize = 0;
    while wi < v.len()
        invariant
            bs_ok(v@, n),
            n <= u32::MAX,
            wi <= v.len(),
            forall|j: int| 0 <= j < r.len() ==> (#[trigger] r@[j] as nat) < n && bs_has(v@, r@[j] as nat),
            forall|s: nat| s < n && bs_has(v@, s) && s / 64 < wi ==> r@.contains(s as usize),
        decreases v.len() - wi,
    {
        let x = v[wi];
        proof {
            assert(wi * 64 + 64 <= u32::MAX + 64) by (nonlinear_arith)
                requires
                    wi < (n + 63) / 64,
                    n <= u32::MAX,
            ;
        }
        if x != 0 {
            let mut b: u64 = 0;
            while b < 64
                invariant
                    bs_ok(v@, n),
                    n <= u32::MAX,
                    wi < v.len(),
                    x == v@[wi as int],
                    wi * 64 + 64 <= u32::MAX + 64,
                    b <= 64,
                    forall|j: int| 0 <= j < r.len() ==> (#[trigger] r@[j] as nat) < n && bs_has(v@, r@[j] as nat),
                    forall|s: nat| s < n && bs_has(v@, s) && (s / 64 < wi || (s / 64 == wi && s % 64 < b)) ==> r@.contains(s as usize),
                decreases 64 - b,
            {
                if (x >> b) & 1u64 == 1u64 {
                    let s: usize = wi * 64 + b as usize;
                    proof {
                        assert(s as nat / 64 == wi && s as nat % 64 == b) by (nonlinear_arith)
                            requires
                                s == wi * 64 + b,
                                b < 64,
                        ;
                        assert(bs_has(v@, s as nat));
                    }
                    let ghost pre = r@;
                    r.push(s);
                    proof {
                        assert(r@[r.len() - 1] == s);
                        assert forall|t: nat| t < n && bs_has(v@, t) && (t / 64 < wi || (t / 64 == wi && t % 64 < b + 1))
                            implies r@.contains(t as usize) by {
                            if t / 64 == wi && t % 64 == b as nat {
                                assert(t == s) by (nonlinear_arith)
                                    requires
                                        t / 64 == wi,
                                        t % 64 == b,
                                        s == wi * 64 + b,
                                ;
                            } else {
                                assert(pre.contains(t as usize));
                                let j = choose|j: int| 0 <= j < pre.len() && pre[j] == t as usize;
                                assert(r@[j] == t as usize);
                            }
                        }
                    }
                }
                b = b + 1;
            }
        } else {
            proof {
                assert forall|s: nat| s < n && bs_has(v@, s) && s / 64 == wi implies false by {
                    lemma_bit_zero((s % 64) as u64);
                }
            }
        }
        wi = wi + 1;
    }
    proof {
        assert forall|s: nat| s < n && bs_has(v@, s) implies r@.contains(s as usize) by {}
    }
    r
}

/// Word-by-word equality of two bitsets.
pub fn bs_eq(a: &Vec<u64>, b: &Vec<u64>) -> (r: bool)
    ensures
        r == (a@ == b@),
{
    if a.len() != b.len() {
        return false;
    }
    let mut i: usize = 0;
    while i < a.len()
        invariant
            a.len() == b.len(),
            i <= a.len(),
            forall|j: int| 0 <= j < i ==> a@[j] == b@[j],
        decreases a.len() - i,
    {
        if a[i] != b[i] {
            return false;
        }
        i = i + 1;
    }
    assert(a@ =~= b@);
    true
}

/// The mixing step of the subset hash.
pub open spec fn mix(h: u64, x: u64) -> u64 {
    (((h << 5u64) | (h >> 59u64)) ^ x).wrapping_mul(0x517cc1b727220a95u64)
}

/// Hash of a word sequence.
pub open spec fn bs_hash(v: Seq<u64>) -> u64
    decreases v.len(),
{
    if v.len() == 0 {
        0
    } else {
        mix(bs_hash(v.drop_last()), v.last())
    }
}

/// Hash a bitset.
pub fn hash_bits(v: &Vec<u64>) -> (r: u64)
    ensures
        r == bs_hash(v@),
{
    let mut h: u64 = 0;
    let mut i: usize = 0;
    while i < v.len()
        invariant
            i <= v.len(),
            h == bs_hash(v@.take(i as int)),
        decreases v.len() - i,
    {
        assert(v@.take(i + 1).drop_last() =~= v@.take(i as int));
        let x = v[i];
        h = (((h << 5u64) | (h >> 59u64)) ^ x).wrapping_mul(0x517cc1b727220a95u64);
        i = i + 1;
    }
    assert(v@.take(v.len() as int) =~= v@);
    h
}

} // verus!
