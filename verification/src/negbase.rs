//! Negative bases: `msd_neg_k`, the numeration system with digits
//! `{0, .., k-1}` and place values `(-k)^i`. Every integer has exactly one
//! representation with no leading zero.
use vstd::prelude::*;
use crate::strs::{str_chars, string_of, push_str, push_num};
use crate::text::{parse_usize, signed_digits, magnitude};
use crate::logic::is_digit;
use crate::walnut::{Parsed, parse_walnut};

verus! {

/// Value of an msd-first word in base `-k`.
pub open spec fn nval(w: Seq<usize>, k: nat) -> int
    decreases w.len(),
{
    if w.len() == 0 {
        0
    } else {
        nval(w.drop_last(), k) * (-(k as int)) + w.last()
    }
}

/// `x` fits an `i64`.
pub open spec fn in_i64(x: int) -> bool {
    i64::MIN <= x <= i64::MAX
}

/// The value computed digit by digit with `i64` arithmetic: `None` on a digit
/// outside the alphabet or an overflow.
pub open spec fn nvalue(w: Seq<usize>, k: nat) -> Option<int>
    decreases w.len(),
{
    if w.len() == 0 {
        Some(0)
    } else {
        match nvalue(w.drop_last(), k) {
            None => None,
            Some(v) => if w.last() >= k {
                None
            } else if !in_i64(v * (-(k as int))) {
                None
            } else if !in_i64(v * (-(k as int)) + w.last()) {
                None
            } else {
                Some(v * (-(k as int)) + w.last())
            },
        }
    }
}

/// The next value in the digit recurrence: `n = r + (-k) * next`, `r = n mod k`.
pub open spec fn nnext(n: int, k: nat) -> int {
    (n - n % (k as int)) / (-(k as int))
}

/// Termination measure of the digit recurrence.
pub open spec fn nmeasure(n: int) -> nat {
    if n < 0 { (2 * (-n) + 1) as nat } else { (2 * n) as nat }
}

pub proof fn lemma_nnext(n: int, k: nat)
    requires
        k >= 2,
        n != 0,
    ensures
        nmeasure(nnext(n, k, )) < nmeasure(n),
        n == n % (k as int) + (-(k as int)) * nnext(n, k),
        0 <= n % (k as int) < k,
{
    let kk = k as int;
    let r = n % kk;
    let m = nnext(n, k);
    assert(0 <= r < kk);
    assert((n - r) % kk == 0) by (nonlinear_arith)
        requires
            kk >= 2,
            r == n % kk,
    ;
    assert(n - r == (-kk) * m) by (nonlinear_arith)
        requires
            kk >= 2,
            (n - r) % kk == 0,
            m == (n - r) / (-kk),
    ;
    if n > 0 {
        assert(nmeasure(n) == 2 * n);
        assert(m <= 0) by (nonlinear_arith)
            requires
                n - r == (-kk) * m,
                n > 0,
                0 <= r < kk,
                kk >= 2,
        ;
        assert(-m < n) by (nonlinear_arith)
            requires
                n - r == (-kk) * m,
                n > 0,
                0 <= r < kk,
                kk >= 2,
                m <= 0,
        ;
        if m < 0 {
            assert(nmeasure(m) == 2 * (-m) + 1);
        } else {
            assert(nmeasure(m) == 0);
        }
    } else {
        assert(nmeasure(n) == 2 * (-n) + 1);
        assert(m >= 1) by (nonlinear_arith)
            requires
                n - r == (-kk) * m,
                n < 0,
                0 <= r < kk,
                kk >= 2,
        ;
        assert(2 * m < 2 * (-n) + 1) by (nonlinear_arith)
            requires
                n - r == (-kk) * m,
                n < 0,
                0 <= r < kk,
                kk >= 2,
        ;
        assert(nmeasure(m) == 2 * m);
    }
}

/// The msd-first digits of `n` in base `-k`, as generated by the recurrence
/// (empty for 0).
pub open spec fn digits_of(n: int, k: nat) -> Seq<usize>
    decreases nmeasure(n),
{
    if n == 0 || k < 2 {
        Seq::empty()
    } else {
        proof {
            lemma_nnext(n, k);
        }
        digits_of(nnext(n, k), k).push((n % (k as int)) as usize)
    }
}

/// The representation `rep` returns: the recurrence's digits, or `[0]` for 0.
pub open spec fn rep_of(n: int, k: nat) -> Seq<usize> {
    if n == 0 { seq![0usize] } else { digits_of(n, k) }
}

/// msd-first digits of `n` in base `-k` (no leading zeros; `[0]` for `n = 0`).
pub fn rep(n: i64, k: u32) -> (r: Vec<usize>)
    requires
        k >= 2,
    ensures
        r@ == rep_of(n as int, k as nat),
        nval(r@, k as nat) == n,
        forall|i: int| 0 <= i < r.len() ==> (#[trigger] r@[i] as nat) < k,
{
    if n == 0 {
        let r: Vec<usize> = vec![0];
        proof {
            assert(r@ =~= seq![0usize]);
            lemma_nval_zero(k as nat);
        }
        return r;
    }
    let kk: i128 = k as i128;
    let mut m: i128 = n as i128;
    let mut out: Vec<usize> = Vec::new();
    proof {
        lemma_digits_value(n as int, k as nat);
    }
    while m != 0
        invariant
            kk == k as int,
            k >= 2,
            i64::MIN <= m <= i64::MAX,
            digits_of(n as int, k as nat) == digits_of(m as int, k as nat) + out@.reverse(),
            m != 0 ==> nmeasure(m as int) <= nmeasure(n as int),
            forall|i: int| 0 <= i < out.len() ==> (#[trigger] out@[i] as nat) < k,
        decreases nmeasure(m as int),
    {
        proof {
            lemma_nnext(m as int, k as nat);
        }
        let (r, next) = neg_step(m, k);
        let ghost pm = m as int;
        let ghost pout = out@;
        out.push(r as usize);
        m = next;
        proof {
            assert(m as int == nnext(pm, k as nat));
            assert(digits_of(pm, k as nat) == digits_of(m as int, k as nat).push(r as usize));
            assert(out@.reverse() =~= seq![r as usize] + pout.reverse());
            assert(digits_of(m as int, k as nat).push(r as usize) + pout.reverse()
                =~= digits_of(m as int, k as nat) + (seq![r as usize] + pout.reverse()));
        }
    }
    let mut res: Vec<usize> = Vec::new();
    let mut i: usize = out.len();
    while i > 0
        invariant
            i <= out.len(),
            res@ == out@.subrange(i as int, out.len() as int).reverse(),
        decreases i,
    {
        i = i - 1;
        let ghost pres = res@;
        res.push(out[i]);
        proof {
            assert(out@.subrange(i as int, out.len() as int) =~= seq![out@[i as int]] + out@.subrange(i + 1, out.len() as int));
            assert(res@ =~= out@.subrange(i as int, out.len() as int).reverse());
        }
    }
    proof {
        assert(digits_of(0, k as nat) =~= Seq::<usize>::empty());
        assert(out@.subrange(0, out.len() as int) =~= out@);
        assert(res@ =~= digits_of(n as int, k as nat));
        assert forall|j: int| 0 <= j < res.len() implies (#[trigger] res@[j] as nat) < k by {
            assert(res@[j] == out@[out.len() - 1 - j]);
        }
    }
    res
}

/// The recurrence's digits have the value they were generated from.
pub proof fn lemma_digits_value(n: int, k: nat)
    requires
        k >= 2,
        k <= u32::MAX,
    ensures
        nval(digits_of(n, k), k) == n,
        forall|i: int| 0 <= i < digits_of(n, k).len() ==> (#[trigger] digits_of(n, k)[i] as nat) < k,
        nval(rep_of(n, k), k) == n,
    decreases nmeasure(n),
{
    if n != 0 {
        lemma_nnext(n, k);
        let m = nnext(n, k);
        lemma_digits_value(m, k);
        let w = digits_of(n, k);
        assert(w == digits_of(m, k).push((n % (k as int)) as usize));
        assert(w.drop_last() =~= digits_of(m, k));
        assert(w.last() == (n % (k as int)) as usize);
        assert(((n % (k as int)) as usize) as int == n % (k as int));
        assert(m * (-(k as int)) == (-(k as int)) * m) by (nonlinear_arith);
        assert(nval(w, k) == nval(digits_of(m, k), k) * (-(k as int)) + w.last());
        assert(rep_of(n, k) == w);
        assert forall|i: int| 0 <= i < w.len() implies (#[trigger] w[i] as nat) < k by {
            if i < w.len() - 1 {
                assert(w[i] == digits_of(m, k)[i]);
            }
        }
    } else {
        lemma_nval_zero(k);
        assert(digits_of(n, k) =~= Seq::<usize>::empty());
    }
}

/// The word `0` has value 0.
pub proof fn lemma_nval_zero(k: nat)
    ensures
        nval(seq![0usize], k) == 0,
{
    assert(seq![0usize].drop_last() =~= Seq::<usize>::empty());
    assert(seq![0usize].last() == 0usize);
    assert(nval(Seq::<usize>::empty(), k) == 0);
    assert(0 * (-(k as int)) == 0);
}


/// One step of the digit recurrence: the digit `m mod k` and the next value.
pub fn neg_step(m: i128, k: u32) -> (r: (u128, i128))
    requires
        k >= 2,
        i64::MIN <= m <= i64::MAX,
        m != 0,
    ensures
        r.0 as int == (m as int) % (k as int),
        r.0 < k,
        r.1 as int == nnext(m as int, k as nat),
        i64::MIN <= r.1 <= i64::MAX,
{
    let kk = k as u128;
    let ghost ki = k as int;
    proof {
        lemma_nnext(m as int, k as nat);
    }
    if m > 0 {
        let a = m as u128;
        let r = a % kk;
        let t = a / kk;
        proof {
            vstd::arithmetic::div_mod::lemma_fundamental_div_mod(a as int, ki);
            assert(a as int == ki * (t as int) + r as int);
            assert(t as int <= a as int) by (nonlinear_arith)
                requires
                    a as int == ki * (t as int) + r as int,
                    ki >= 2,
                    r >= 0,
                    t >= 0,
            ;
            let next = -(t as int);
            assert((m as int - r as int) == (-ki) * next) by (nonlinear_arith)
                requires
                    a as int == ki * (t as int) + r as int,
                    m as int == a as int,
                    next == -(t as int),
            ;
            assert(next == (m as int - r as int) / (-ki)) by (nonlinear_arith)
                requires
                    (m as int - r as int) == (-ki) * next,
                    ki >= 2,
            ;
        }
        (r, -(t as i128))
    } else {
        let a = (-m) as u128;
        let ra = a % kk;
        let r = if ra == 0 { 0u128 } else { kk - ra };
        let t = (a + r) / kk;
        proof {
            vstd::arithmetic::div_mod::lemma_fundamental_div_mod(a as int, ki);
            let q = (a as int) / ki;
            if ra == 0 {
                assert(m as int == (-q) * ki + 0) by (nonlinear_arith)
                    requires
                        a as int == ki * q + ra as int,
                        ra == 0,
                        m as int == -(a as int),
                ;
                vstd::arithmetic::div_mod::lemma_fundamental_div_mod_converse(m as int, ki, -q, 0);
            } else {
                assert(m as int == (-q - 1) * ki + (ki - ra)) by (nonlinear_arith)
                    requires
                        a as int == ki * q + ra as int,
                        m as int == -(a as int),
                ;
                vstd::arithmetic::div_mod::lemma_fundamental_div_mod_converse(m as int, ki, -q - 1, ki - ra);
            }
            assert((a + r) as int == ki * (q + if ra == 0 { 0int } else { 1int })) by (nonlinear_arith)
                requires
                    a as int == ki * q + ra as int,
                    r as int == if ra == 0 { 0int } else { ki - ra },
            ;
            vstd::arithmetic::div_mod::lemma_fundamental_div_mod_converse((a + r) as int, ki, q + if ra == 0 { 0int } else { 1int }, 0);
            assert(t as int == q + if ra == 0 { 0int } else { 1int });
            assert((m as int - r as int) == (-ki) * (t as int)) by (nonlinear_arith)
                requires
                    (a + r) as int == ki * (t as int),
                    m as int == -(a as int),
            ;
            assert(t as int == (m as int - r as int) / (-ki)) by (nonlinear_arith)
                requires
                    (m as int - r as int) == (-ki) * (t as int),
                    ki >= 2,
            ;
            assert(2 * (t as int) <= a as int + ki) by (nonlinear_arith)
                requires
                    (a + r) as int == ki * (t as int),
                    r < ki,
                    a >= 1,
                    ki >= 2,
                    t >= 0,
            ;
            assert(a as int <= 0x8000000000000000);
        }
        (r, t as i128)
    }
}

/// Value of an msd-first word in base `-k`, or `None` on overflow or a digit
/// outside the alphabet.
pub fn value(w: &[usize], k: u32) -> (r: Option<i64>)
    requires
        k >= 2,
    ensures
        match nvalue(w@, k as nat) {
            Some(v) => r == Some(v as i64),
            None => r is None,
        },
{
    let kk: i64 = -(k as i64);
    let mut v: i64 = 0;
    let mut p: usize = 0;
    proof {
        assert(w@.take(0) =~= Seq::<usize>::empty());
    }
    while p < w.len()
        invariant
            k >= 2,
            kk == -(k as int),
            p <= w.len(),
            nvalue(w@.take(p as int), k as nat) == Some(v as int),
        decreases w.len() - p,
    {
        let d = w[p];
        proof {
            assert(w@.take(p + 1).drop_last() =~= w@.take(p as int));
            assert(w@.take(p + 1).last() == d);
            lemma_nvalue_none_prefix(w@, (p + 1) as nat, k as nat);
        }
        if d >= k as usize {
            return None;
        }
        let m = match v.checked_mul(kk) {
            Some(m) => m,
            None => return None,
        };
        let x = match m.checked_add(d as i64) {
            Some(x) => x,
            None => return None,
        };
        v = x;
        p = p + 1;
    }
    proof {
        assert(w@.take(w.len() as int) =~= w@);
    }
    Some(v)
}

/// Once a prefix fails, the whole word fails.
pub proof fn lemma_nvalue_none_prefix(w: Seq<usize>, p: nat, k: nat)
    requires
        p <= w.len(),
    ensures
        nvalue(w.take(p as int), k) is None ==> nvalue(w, k) is None,
    decreases w.len() - p,
{
    if p < w.len() {
        lemma_nvalue_none_prefix(w, (p + 1) as nat, k);
        assert(w.take((p + 1) as int).drop_last() =~= w.take(p as int));
    } else {
        assert(w.take(p as int) =~= w);
    }
}

/// Reading back the representation of `n` gives `n`: `value(rep(n)) == n`
/// (for every `n` at least `k` above the least `i64`, where the digit-by-digit
/// reading cannot overflow).
pub proof fn lemma_value_rep(n: int, k: nat)
    requires
        2 <= k <= u32::MAX,
        i64::MIN + k <= n <= i64::MAX,
    ensures
        nvalue(rep_of(n, k), k) == Some(n),
    decreases nmeasure(n),
{
    let kk = k as int;
    if n == 0 {
        assert(seq![0usize].drop_last() =~= Seq::<usize>::empty());
        assert(nvalue(Seq::<usize>::empty(), k) == Some(0int));
        assert(0 * (-kk) == 0);
    } else {
        lemma_nnext(n, k);
        let m = nnext(n, k);
        let r = n % kk;
        let w = digits_of(n, k);
        assert(w == digits_of(m, k).push(r as usize));
        assert(w.drop_last() =~= digits_of(m, k));
        assert((r as usize) as int == r);
        assert(n - r == (-kk) * m);
        assert(m * (-kk) == n - r) by (nonlinear_arith)
            requires
                n - r == (-kk) * m,
        ;
        if m == 0 {
            assert(digits_of(0, k) =~= Seq::<usize>::empty());
            assert(nvalue(Seq::<usize>::empty(), k) == Some(0int));
        } else {
            assert(kk * m == r - n) by (nonlinear_arith)
                requires
                    n - r == (-kk) * m,
            ;
            if m < 0 {
                assert(kk * m <= 2 * m) by (nonlinear_arith)
                    requires
                        m < 0,
                        kk >= 2,
                ;
            } else {
                assert(2 * m <= kk * m) by (nonlinear_arith)
                    requires
                        m >= 0,
                        kk >= 2,
                ;
            }
            lemma_value_rep(m, k);
            assert(rep_of(m, k) == digits_of(m, k));
        }
        assert(rep_of(n, k) == w);
    }
}

/// `s` starts with the four characters `a b c _`.
pub open spec fn starts4(s: Seq<char>, a: char, b: char, c: char) -> bool {
    s.len() >= 4 && s[0] == a && s[1] == b && s[2] == c && s[3] == '_'
}

/// The name without an `msd_` or `lsd_` order prefix.
pub open spec fn base_part(s: Seq<char>) -> Seq<char> {
    if starts4(s, 'm', 's', 'd') || starts4(s, 'l', 's', 'd') { s.skip(4) } else { s }
}

/// The `k` of a name `[msd_|lsd_]neg_k` with `k` a decimal `u32` (an
/// optional `+` first) of at least 2.
pub open spec fn neg_base(s: Seq<char>) -> Option<nat> {
    let b = base_part(s);
    if starts4(b, 'n', 'e', 'g') && signed_digits(b, 4, b.len() as int, false)
        && 2 <= magnitude(b, 4, b.len() as int) <= u32::MAX {
        Some(magnitude(b, 4, b.len() as int))
    } else {
        None
    }
}

/// `cs` starts with the four characters `a b c _`.
fn has4(cs: &Vec<char>, st: usize, a: char, b: char, c: char) -> (r: bool)
    requires
        st <= cs@.len(),
    ensures
        r == starts4(cs@.skip(st as int), a, b, c),
{
    cs.len() - st >= 4 && cs[st] == a && cs[st + 1] == b && cs[st + 2] == c && cs[st + 3] == '_'
}

/// `Some(k)` if `name` denotes base `-k`: `neg_2`, `msd_neg_2`, `lsd_neg_10`, ...
pub fn base_of(name: &str) -> (r: Option<u32>)
    ensures
        r matches Some(k) ==> neg_base(name@) == Some(k as nat),
        r is None ==> neg_base(name@) is None,
{
    let cs = str_chars(name);
    let st: usize = if has4(&cs, 0, 'm', 's', 'd') || has4(&cs, 0, 'l', 's', 'd') { 4 } else { 0 };
    proof {
        assert(cs@.skip(0) =~= cs@);
        let b = base_part(name@);
        assert(b =~= cs@.skip(st as int));
        if starts4(b, 'n', 'e', 'g') {
            assert(b.skip(4) =~= cs@.skip(st + 4));
        }
    }
    if !has4(&cs, st, 'n', 'e', 'g') {
        return None;
    }
    let ghost b = base_part(name@);
    match parse_usize(&cs, st + 4, cs.len()) {
        Some(v) => {
            proof {
                lemma_shift_digits(cs@, st as int, b);
            }
            if v >= 2 && v <= u32::MAX as usize {
                Some(v as u32)
            } else {
                None
            }
        },
        None => {
            proof {
                lemma_shift_digits(cs@, st as int, b);
            }
            None
        },
    }
}

/// Reading the digits after `neg_` in the whole name or in its base part is the same.
proof fn lemma_shift_digits(cs: Seq<char>, st: int, b: Seq<char>)
    requires
        0 <= st,
        st + 4 <= cs.len(),
        b == cs.skip(st),
    ensures
        signed_digits(cs, st + 4, cs.len() as int, false) == signed_digits(b, 4, b.len() as int, false),
        magnitude(cs, st + 4, cs.len() as int) == magnitude(b, 4, b.len() as int),
{
    let d1 = if st + 4 < cs.len() && (cs[st + 4] == '+' || cs[st + 4] == '-') { st + 5 } else { st + 4 };
    assert(cs.subrange(d1, cs.len() as int) =~= b.subrange(d1 - st, b.len() as int));
    if signed_digits(cs, st + 4, cs.len() as int, false) {
        assert forall|x: int| (d1 - st) <= x < b.len() implies is_digit(#[trigger] b[x]) by {
            assert(b[x] == cs[x + st]);
        }
    }
    if signed_digits(b, 4, b.len() as int, false) {
        assert forall|x: int| d1 <= x < cs.len() implies is_digit(#[trigger] cs[x]) by {
            assert(cs[x] == b[x - st]);
        }
    }
}

/// `"{0,1,..,k-1}"` appended.
/// The digits below `d`, comma-separated.
pub open spec fn digit_list(d: nat) -> Seq<char>
    decreases d,
{
    if d == 0 {
        Seq::empty()
    } else {
        digit_list((d - 1) as nat) + (if d > 1 { seq![','] } else { Seq::empty() }) + crate::strs::dec_text((d - 1) as nat)
    }
}

fn push_digit_set(out: &mut Vec<char>, k: u32)
    ensures
        final(out)@ == old(out)@ + seq!['{'] + digit_list(k as nat) + seq!['}'],
{
    out.push('{');
    let mut d: u32 = 0;
    while d < k
        invariant
            d <= k,
            out@ == old(out)@ + seq!['{'] + digit_list(d as nat),
        decreases k - d,
    {
        let ghost pre = out@;
        if d > 0 {
            out.push(',');
        }
        let ghost mid = out@;
        push_num(out, d as usize);
        proof {
            assert(mid =~= pre + (if d + 1 > 1 { seq![','] } else { Seq::<char>::empty() }));
            assert(out@ =~= old(out)@ + seq!['{'] + digit_list((d + 1) as nat));
        }
        d = d + 1;
    }
    out.push('}');
}

/// Walnut "Custom Bases" text for the validity automaton of base `-k`: one
/// accepting state looping on every digit.
/// One line `d -> 0` for each digit below `d`.
pub open spec fn loop_lines(d: nat) -> Seq<char>
    decreases d,
{
    if d == 0 { Seq::empty() } else { loop_lines((d - 1) as nat) + crate::strs::dec_text((d - 1) as nat) + " -> 0\n"@ }
}

/// The validity file of base `-k`: a comment, the alphabet, and one
/// accepting state looping on every digit.
pub open spec fn validity_text(k: nat) -> Seq<char> {
    let kt = crate::strs::dec_text(k);
    let km = crate::strs::dec_text((k - 1) as nat);
    "# msd_neg_"@ + kt + ": base -"@ + kt + ", digits {0.."@ + km + "}, place values (-"@ + kt
        + ")^i.\n# Every word is a representation, so the language is all of {0.."@ + km + "}*.\n\n"@
        + seq!['{'] + digit_list(k) + seq!['}'] + "\n\n0 1\n"@ + loop_lines(k)
}

pub fn validity_txt(k: u32) -> (r: String)
    requires
        k >= 2,
    ensures
        r@ == validity_text(k as nat),
{
    let mut s: Vec<char> = Vec::new();
    push_str(&mut s, "# msd_neg_");
    push_num(&mut s, k as usize);
    push_str(&mut s, ": base -");
    push_num(&mut s, k as usize);
    push_str(&mut s, ", digits {0..");
    push_num(&mut s, (k - 1) as usize);
    push_str(&mut s, "}, place values (-");
    push_num(&mut s, k as usize);
    push_str(&mut s, ")^i.\n# Every word is a representation, so the language is all of {0..");
    push_num(&mut s, (k - 1) as usize);
    push_str(&mut s, "}*.\n\n");
    push_digit_set(&mut s, k);
    push_str(&mut s, "\n\n0 1\n");
    let ghost head = s@;
    let mut d: u32 = 0;
    while d < k
        invariant
            d <= k,
            s@ == head + loop_lines(d as nat),
        decreases k - d,
    {
        push_num(&mut s, d as usize);
        push_str(&mut s, " -> 0\n");
        d = d + 1;
        proof {
            assert(s@ =~= head + loop_lines(d as nat));
        }
    }
    proof {
        assert(head + loop_lines(k as nat) =~= validity_text(k as nat));
    }
    string_of(s.as_slice())
}

/// The state of the msd adder of base `-k` for the prefix value `t`
/// (`0`, `-1` or `+1`), if it has one.
pub open spec fn add_code(t: int) -> Option<nat> {
    if t == 0 { Some(0) } else if t == -1 { Some(1) } else if t == 1 { Some(2) } else { None }
}

fn code(t: i64) -> (r: Option<usize>)
    ensures
        r matches Some(c) ==> add_code(t as int) == Some(c as nat),
        r is None ==> add_code(t as int) is None,
{
    if t == 0 { Some(0) } else if t == -1 { Some(1) } else if t == 1 { Some(2) } else { None }
}

/// Walnut "Custom Bases" text for the msd adder of base `-k` (3 states): the
/// state is the value `t` of the prefix read so far in the recurrence
/// `t_p = (x_p + y_p - z_p) - k t_(p+1)`, and the word is accepted iff it
/// ends at `t = 0`.
/// The adder's line for state value `c` on digits `x, y, z` of base `-n`, if
/// the move exists.
pub open spec fn add_line(n: int, c: int, x: nat, y: nat, z: nat) -> Seq<char> {
    match add_code(x + y - z - n * c) {
        Some(t) => crate::strs::dec_text(x) + seq![' '] + crate::strs::dec_text(y) + seq![' '] + crate::strs::dec_text(z)
            + " -> "@ + crate::strs::dec_text(t) + seq!['\n'],
        None => Seq::empty(),
    }
}

/// Lines for third digits below `m`.
pub open spec fn add_zs(n: int, c: int, x: nat, y: nat, m: nat) -> Seq<char>
    decreases m,
{
    if m == 0 { Seq::empty() } else { add_zs(n, c, x, y, (m - 1) as nat) + add_line(n, c, x, y, (m - 1) as nat) }
}

/// Lines for second digits below `m`.
pub open spec fn add_ys(n: int, c: int, x: nat, m: nat) -> Seq<char>
    decreases m,
{
    if m == 0 { Seq::empty() } else { add_ys(n, c, x, (m - 1) as nat) + add_zs(n, c, x, (m - 1) as nat, n as nat) }
}

/// Lines for first digits below `m`.
pub open spec fn add_xs(n: int, c: int, m: nat) -> Seq<char>
    decreases m,
{
    if m == 0 { Seq::empty() } else { add_xs(n, c, (m - 1) as nat) + add_ys(n, c, (m - 1) as nat, n as nat) }
}

/// The prefix value of adder state `q`.
pub open spec fn add_value(q: nat) -> int {
    if q == 0 { 0 } else if q == 1 { -1 } else { 1 }
}

/// States below `m` with their transitions, base `-n`.
pub open spec fn add_states(m: nat, n: int) -> Seq<char>
    decreases m,
{
    if m == 0 {
        Seq::empty()
    } else {
        let q = (m - 1) as nat;
        add_states(q, n) + seq!['\n'] + crate::strs::dec_text(q) + (if q == 0 { " 1\n"@ } else { " 0\n"@ })
            + add_xs(n, add_value(q), n as nat)
    }
}

/// The adder file of base `-k`.
pub open spec fn addition_text(k: nat) -> Seq<char> {
    let kt = crate::strs::dec_text(k);
    "# msd_neg_"@ + kt + "_addition: (x,y,z) with x + y = z in base -"@ + kt
        + ".\n# State = t, the value of the prefix read so far in the recurrence\n#   t_p = (x_p + y_p - z_p) - "@ + kt
        + " * t_(p+1),   t_L = 0,   accept iff t_0 = 0.\n# state 0 = t 0 (accepting), state 1 = t -1, state 2 = t +1.\n\n"@
        + seq!['{'] + digit_list(k) + seq!['}'] + seq![' '] + seq!['{'] + digit_list(k) + seq!['}'] + seq![' ']
        + seq!['{'] + digit_list(k) + seq!['}'] + seq!['\n'] + add_states(3, k as int)
}

/// Append the adder's line for state value `c` on `x, y, z`, if the move exists.
fn push_add_line(s: &mut Vec<char>, n: i64, c: i64, x: i64, y: i64, z: i64)
    requires
        2 <= n <= 0xffff_ffff,
        -1 <= c <= 1,
        0 <= x < n,
        0 <= y < n,
        0 <= z < n,
    ensures
        final(s)@ == old(s)@ + add_line(n as int, c as int, x as nat, y as nat, z as nat),
{
    proof {
        assert(-0x1_0000_0000 <= n * c <= 0x1_0000_0000) by (nonlinear_arith)
            requires
                0 <= n <= 0xffff_ffff,
                -1 <= c <= 1,
        ;
    }
    if let Some(t) = code(x + y - z - n * c) {
        push_num(s, x as usize);
        s.push(' ');
        push_num(s, y as usize);
        s.push(' ');
        push_num(s, z as usize);
        push_str(s, " -> ");
        push_num(s, t);
        s.push('\n');
        proof {
            assert(s@ =~= old(s)@ + add_line(n as int, c as int, x as nat, y as nat, z as nat));
        }
    } else {
        proof {
            assert(s@ =~= old(s)@ + add_line(n as int, c as int, x as nat, y as nat, z as nat));
        }
    }
}

pub fn addition_txt(k: u32) -> (r: String)
    requires
        k >= 2,
    ensures
        r@ == addition_text(k as nat),
{
    let n = k as i64;
    let mut s: Vec<char> = Vec::new();
    push_str(&mut s, "# msd_neg_");
    push_num(&mut s, k as usize);
    push_str(&mut s, "_addition: (x,y,z) with x + y = z in base -");
    push_num(&mut s, k as usize);
    push_str(&mut s, ".\n# State = t, the value of the prefix read so far in the recurrence\n#   t_p = (x_p + y_p - z_p) - ");
    push_num(&mut s, k as usize);
    push_str(&mut s, " * t_(p+1),   t_L = 0,   accept iff t_0 = 0.\n# state 0 = t 0 (accepting), state 1 = t -1, state 2 = t +1.\n\n");
    push_digit_set(&mut s, k);
    s.push(' ');
    push_digit_set(&mut s, k);
    s.push(' ');
    push_digit_set(&mut s, k);
    s.push('\n');
    let ghost head = s@;
    let mut q: usize = 0;
    while q < 3
        invariant
            n == k as i64,
            k >= 2,
            q <= 3,
            s@ == head + add_states(q as nat, n as int),
        decreases 3 - q,
    {
        let c: i64 = if q == 0 { 0 } else if q == 1 { -1 } else { 1 };
        let ghost s0 = s@;
        s.push('\n');
        push_num(&mut s, q);
        push_str(&mut s, if q == 0 { " 1\n" } else { " 0\n" });
        let ghost s1 = s@;
        assert(s1 =~= s0 + seq!['\n'] + crate::strs::dec_text(q as nat) + (if q == 0 { " 1\n"@ } else { " 0\n"@ }));
        let mut x: i64 = 0;
        while x < n
            invariant
                n == k as i64,
                n >= 2,
                c as int == add_value(q as nat),
                -1 <= c <= 1,
                0 <= x <= n,
                s@ == s1 + add_xs(n as int, c as int, x as nat),
            decreases n - x,
        {
            let ghost s2 = s@;
            let mut y: i64 = 0;
            while y < n
                invariant
                    n == k as i64,
                    n >= 2,
                    -1 <= c <= 1,
                    0 <= x < n,
                    0 <= y <= n,
                    s@ == s2 + add_ys(n as int, c as int, x as nat, y as nat),
                decreases n - y,
            {
                let ghost s3 = s@;
                let mut z: i64 = 0;
                while z < n
                    invariant
                        n == k as i64,
                        n >= 2,
                        -1 <= c <= 1,
                        0 <= x < n,
                        0 <= y < n,
                        0 <= z <= n,
                        s@ == s3 + add_zs(n as int, c as int, x as nat, y as nat, z as nat),
                    decreases n - z,
                {
                    push_add_line(&mut s, n, c, x, y, z);
                    z = z + 1;
                    proof {
                        assert(s@ =~= s3 + add_zs(n as int, c as int, x as nat, y as nat, z as nat));
                    }
                }
                y = y + 1;
                proof {
                    assert(s@ =~= s2 + add_ys(n as int, c as int, x as nat, y as nat));
                }
            }
            x = x + 1;
            proof {
                assert(s@ =~= s1 + add_xs(n as int, c as int, x as nat));
            }
        }
        q = q + 1;
        proof {
            assert(s@ =~= head + add_states(q as nat, n as int));
        }
    }
    proof {
        assert(head + add_states(3, k as int) =~= addition_text(k as nat));
    }
    string_of(s.as_slice())
}

/// Walnut "Custom Bases" text for the msd comparison of base `-k` (3
/// states): the first differing digit decides, and every later digit flips
/// the verdict, because consecutive place values have opposite signs.
/// The comparison's successor of state `q` on digits `x, y`: from "equal"
/// the first difference decides, and every later digit flips the verdict.
pub open spec fn lt_next(q: nat, x: nat, y: nat) -> nat {
    if q == 0 {
        if x == y { 0 } else if x < y { 1 } else { 2 }
    } else if q == 1 {
        2
    } else {
        1
    }
}

/// The state of the comparison after reading the digit pairs of `x` and `y`,
/// most significant first.
pub open spec fn lt_run(x: Seq<usize>, y: Seq<usize>) -> nat
    decreases x.len(),
{
    if x.len() == 0 || y.len() == 0 {
        0
    } else {
        lt_next(lt_run(x.drop_last(), y.drop_last()), x.last() as nat, y.last() as nat)
    }
}

/// The comparison file of base `-k` decides `x < y`: on two digit words of the
/// same length, its run ends in state 0 when the values are equal, 1 when
/// `x < y` and 2 when `x > y`, and the file marks state 1, and only it, accepting.
pub proof fn lemma_less_than_decides(x: Seq<usize>, y: Seq<usize>, k: nat)
    requires
        k >= 2,
        x.len() == y.len(),
        forall|i: int| 0 <= i < x.len() ==> (#[trigger] x[i] as nat) < k,
        forall|i: int| 0 <= i < y.len() ==> (#[trigger] y[i] as nat) < k,
    ensures
        lt_run(x, y) == (if nval(x, k) == nval(y, k) { 0nat } else if nval(x, k) < nval(y, k) { 1nat } else { 2nat }),
        (lt_head(lt_run(x, y))[3] == '1') <==> nval(x, k) < nval(y, k),
    decreases x.len(),
{
    reveal_strlit("\n0 0\n");
    reveal_strlit("\n1 1\n");
    reveal_strlit("\n2 0\n");
    if x.len() > 0 {
        let x0 = x.drop_last();
        let y0 = y.drop_last();
        assert forall|i: int| 0 <= i < x0.len() implies (#[trigger] x0[i] as nat) < k by {
            assert(x0[i] == x[i]);
        }
        assert forall|i: int| 0 <= i < y0.len() implies (#[trigger] y0[i] as nat) < k by {
            assert(y0[i] == y[i]);
        }
        lemma_less_than_decides(x0, y0, k);
        let d = nval(x0, k) - nval(y0, k);
        let a = x.last() as int;
        let b = y.last() as int;
        assert(x.last() == x[x.len() - 1]);
        assert(y.last() == y[y.len() - 1]);
        assert(nval(x, k) - nval(y, k) == -(k as int) * d + (a - b)) by (nonlinear_arith)
            requires
                nval(x, k) == nval(x0, k) * (-(k as int)) + a,
                nval(y, k) == nval(y0, k) * (-(k as int)) + b,
                d == nval(x0, k) - nval(y0, k);
        if d < 0 {
            assert(-(k as int) * d + (a - b) > 0) by (nonlinear_arith)
                requires d <= -1, k >= 2, 0 <= a < k, 0 <= b < k;
        } else if d > 0 {
            assert(-(k as int) * d + (a - b) < 0) by (nonlinear_arith)
                requires d >= 1, k >= 2, 0 <= a < k, 0 <= b < k;
        } else {
            assert(-(k as int) * d == 0) by (nonlinear_arith) requires d == 0;
        }
    }
}

/// The transition lines of state `q` for first digit `x` and second digits below `m`.
pub open spec fn lt_row(q: nat, x: nat, m: nat) -> Seq<char>
    decreases m,
{
    if m == 0 {
        Seq::empty()
    } else {
        lt_row(q, x, (m - 1) as nat) + crate::strs::dec_text(x) + seq![' '] + crate::strs::dec_text((m - 1) as nat)
            + " -> "@ + crate::strs::dec_text(lt_next(q, x, (m - 1) as nat)) + seq!['\n']
    }
}

/// The transition lines of state `q` for first digits below `m`, base `n`.
pub open spec fn lt_rows(q: nat, m: nat, n: nat) -> Seq<char>
    decreases m,
{
    if m == 0 { Seq::empty() } else { lt_rows(q, (m - 1) as nat, n) + lt_row(q, (m - 1) as nat, n) }
}

/// The header line of state `q`: its number and whether it accepts.
pub open spec fn lt_head(q: nat) -> Seq<char> {
    if q == 0 { "\n0 0\n"@ } else if q == 1 { "\n1 1\n"@ } else { "\n2 0\n"@ }
}

/// States below `m` with their transitions, base `n`.
pub open spec fn lt_states(m: nat, n: nat) -> Seq<char>
    decreases m,
{
    if m == 0 { Seq::empty() } else { lt_states((m - 1) as nat, n) + lt_head((m - 1) as nat) + lt_rows((m - 1) as nat, n, n) }
}

/// The comparison file of base `-k`.
pub open spec fn less_than_text(k: nat) -> Seq<char> {
    let kt = crate::strs::dec_text(k);
    "# msd_neg_"@ + kt + "_less_than: (x,y) with x < y in base -"@ + kt
        + ".\n# The first differing digit decides, and every later digit flips the verdict,\n# because consecutive place values have opposite signs.\n# state 0 = equal so far, state 1 = x < y (accepting), state 2 = x > y.\n\n"@
        + seq!['{'] + digit_list(k) + seq!['}'] + seq![' '] + seq!['{'] + digit_list(k) + seq!['}'] + seq!['\n']
        + lt_states(3, k)
}

/// Append the comparison's transition line of state `q` on `x, y`.
fn push_lt_line(s: &mut Vec<char>, q: usize, x: usize, y: usize)
    ensures
        final(s)@ == old(s)@ + crate::strs::dec_text(x as nat) + seq![' '] + crate::strs::dec_text(y as nat)
            + " -> "@ + crate::strs::dec_text(lt_next(q as nat, x as nat, y as nat)) + seq!['\n'],
{
    let t: usize = if q == 0 {
        if x == y { 0 } else if x < y { 1 } else { 2 }
    } else if q == 1 {
        2
    } else {
        1
    };
    push_num(s, x);
    s.push(' ');
    push_num(s, y);
    push_str(s, " -> ");
    push_num(s, t);
    s.push('\n');
    proof {
        assert(s@ =~= old(s)@ + crate::strs::dec_text(x as nat) + seq![' '] + crate::strs::dec_text(y as nat)
            + " -> "@ + crate::strs::dec_text(lt_next(q as nat, x as nat, y as nat)) + seq!['\n']);
    }
}

pub fn less_than_txt(k: u32) -> (r: String)
    requires
        k >= 2,
    ensures
        r@ == less_than_text(k as nat),
{
    let n = k as usize;
    let mut s: Vec<char> = Vec::new();
    push_str(&mut s, "# msd_neg_");
    push_num(&mut s, n);
    push_str(&mut s, "_less_than: (x,y) with x < y in base -");
    push_num(&mut s, n);
    push_str(&mut s, ".\n# The first differing digit decides, and every later digit flips the verdict,\n# because consecutive place values have opposite signs.\n# state 0 = equal so far, state 1 = x < y (accepting), state 2 = x > y.\n\n");
    push_digit_set(&mut s, k);
    s.push(' ');
    push_digit_set(&mut s, k);
    s.push('\n');
    let ghost head = s@;
    let mut q: usize = 0;
    while q < 3
        invariant
            q <= 3,
            n == k,
            s@ == head + lt_states(q as nat, n as nat),
        decreases 3 - q,
    {
        let ghost s0 = s@;
        push_str(&mut s, if q == 0 { "\n0 0\n" } else if q == 1 { "\n1 1\n" } else { "\n2 0\n" });
        assert(s@ == s0 + lt_head(q as nat));
        let ghost s1 = s@;
        let mut x: usize = 0;
        while x < n
            invariant
                x <= n,
                q < 3,
                s@ == s1 + lt_rows(q as nat, x as nat, n as nat),
            decreases n - x,
        {
            let ghost s2 = s@;
            let mut y: usize = 0;
            while y < n
                invariant
                    x < n,
                    y <= n,
                    q < 3,
                    s@ == s2 + lt_row(q as nat, x as nat, y as nat),
                decreases n - y,
            {
                push_lt_line(&mut s, q, x, y);
                y = y + 1;
                proof {
                    assert(s@ =~= s2 + lt_row(q as nat, x as nat, y as nat));
                }
            }
            x = x + 1;
            proof {
                assert(s@ =~= s1 + lt_rows(q as nat, x as nat, n as nat));
            }
        }
        q = q + 1;
        proof {
            assert(s@ =~= head + lt_states(q as nat, n as nat));
        }
    }
    proof {
        assert(head + lt_states(3, k as nat) =~= less_than_text(k as nat));
    }
    string_of(s.as_slice())
}

/// The three automata of base `-k`, parsed: validity, addition and comparison.
pub fn parsed(k: u32) -> (r: Result<(Parsed, Parsed, Parsed), String>)
    requires
        k >= 2,
    ensures
        r matches Ok((v, a, l)) ==> v.wf() && a.wf() && l.wf(),
{
    let v = parse_walnut(validity_txt(k).as_str(), None)?;
    let a = parse_walnut(addition_txt(k).as_str(), Some(k as usize))?;
    let l = parse_walnut(less_than_txt(k).as_str(), Some(k as usize))?;
    Ok((v, a, l))
}
} // verus!
