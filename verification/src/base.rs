//! Arithmetic automata for base-`k` Presburger arithmetic.
//!
//! Under a numeration system the adder and the comparison come from that
//! system's automata and every result is conjoined with "each track is a valid
//! representation"; in plain base `k` the built-in constructions below are used.
use vstd::prelude::*;
use crate::dfa::{Dfa, State, MAX_ALPHA, spow, sdigit, word_over, distinct, trun, lemma_trun, lemma_word_over_sub, lemma_spow_pos};
use crate::strs::names;
use crate::product::{positions, proj_word};
use crate::ops::Ctx;
use crate::dfao::kdigits;
use crate::chain::{digit_chain, padded};
use crate::quant::zeros;
use crate::numsys::NumSys;

verus! {

/// Track `j` of the word `u`: the digit of coordinate `j` of every letter.
pub open spec fn track(u: Seq<usize>, j: nat, k: nat) -> Seq<nat> {
    u.map_values(|s: usize| sdigit(s as nat, j, k))
}

/// The word `w` over `r`'s variables, read over the variable order `vs`.
pub open spec fn over(w: Seq<usize>, vs: Seq<Seq<char>>, r: &Dfa) -> Seq<usize> {
    proj_word(w, positions(vs, names(r.vars@)), r.k as nat)
}

/// Value of a most-significant-digit-first digit string.
pub open spec fn val_msd(s: Seq<nat>, k: nat) -> int
    decreases s.len(),
{
    if s.len() == 0 {
        0
    } else {
        val_msd(s.drop_last(), k) * k + s.last()
    }
}

/// Value of a least-significant-digit-first digit string.
pub open spec fn val_lsd(s: Seq<nat>, k: nat) -> int
    decreases s.len(),
{
    if s.len() == 0 {
        0
    } else {
        val_lsd(s.drop_last(), k) + s.last() * spow(k, (s.len() - 1) as nat)
    }
}

/// Value of a digit string in the given digit order.
pub open spec fn val(s: Seq<nat>, k: nat, lsd: bool) -> int {
    if lsd { val_lsd(s, k) } else { val_msd(s, k) }
}

/// Every letter carries the same digit on both tracks.
pub open spec fn digits_equal(u: Seq<usize>, k: nat) -> bool {
    forall|i: int| 0 <= i < u.len() ==> #[trigger] sdigit(u[i] as nat, 0, k) == sdigit(u[i] as nat, 1, k)
}

/// The word is `0* 1 0*`.
pub open spec fn one_one(w: Seq<usize>) -> bool {
    exists|i: int| 0 <= i < w.len() && w[i] == 1 && forall|j: int| 0 <= j < w.len() && j != i ==> #[trigger] w[j] == 0
}

/// Attach `vs` (in coordinate order) to an automaton and permute the coordinates
/// into sorted order.
pub fn named(d: &Dfa, vs: &Vec<String>) -> (r: Dfa)
    requires
        d.wf(),
        vs.len() == d.vars.len(),
        distinct(names(vs@)),
    ensures
        r.wf(),
        r.sorted(),
        r.k == d.k,
        forall|x: Seq<char>| names(r.vars@).contains(x) <==> names(vs@).contains(x),
        r.vars.len() == vs.len(),
        forall|w: Seq<usize>| word_over(w, r.alpha as nat) ==> #[trigger] r.accepts(w) == d.accepts(over(w, names(vs@), &r)),
{
    let r = d.rename(vs);
    proof {
        crate::product::lemma_merged(names(vs@), Seq::empty());
    }
    r
}

/// The one-state-per-digit-position table of "both tracks carry the same digit".
fn digit_equal_raw(k: usize, vs: Vec<String>) -> (r: Dfa)
    requires
        k >= 1,
        k * k <= MAX_ALPHA,
        vs.len() == 2,
        distinct(names(vs@)),
    ensures
        r.wf(),
        r.k == k,
        r.vars@ == vs@,
        forall|w: Seq<usize>| word_over(w, r.alpha as nat) ==> #[trigger] r.accepts(w) == digits_equal(w, k as nat),
{
    let alpha = k * k;
    let mut trans: Vec<State> = Vec::new();
    let mut s: usize = 0;
    proof {
        assert(spow(k as nat, 2) == k * k) by {
            assert(spow(k as nat, 1) == k * spow(k as nat, 0));
        }
    }
    proof {
        assert(spow(k as nat, 0) == 1);
        assert(spow(k as nat, 1) == k * 1);
    }
    while s < 2 * alpha
        invariant
            k >= 1,
            alpha == k * k,
            alpha <= MAX_ALPHA,
            spow(k as nat, 1) == k,
            spow(k as nat, 0) == 1,
            s <= 2 * alpha,
            trans.len() == s,
            forall|i: int| 0 <= i < s ==> #[trigger] trans@[i] == (if i < alpha && sdigit(i as nat, 0, k as nat) == sdigit(i as nat, 1, k as nat) { 0u32 } else { 1u32 }),
        decreases 2 * alpha - s,
    {
        let v: u32 = if s < alpha && crate::dfa::digit(s, 0, k) == crate::dfa::digit(s, 1, k) { 0 } else { 1 };
        trans.push(v);
        s = s + 1;
    }
    let d = Dfa::new(k, vs, 2, trans, vec![true, false]);
    proof {
        assert forall|w: Seq<usize>| word_over(w, d.alpha as nat) implies #[trigger] d.accepts(w) == digits_equal(w, k as nat) by {
            lemma_digit_equal_run(&d, w);
        }
    }
    d
}

proof fn lemma_digit_equal_run(d: &Dfa, w: Seq<usize>)
    requires
        d.wf(),
        d.nstates == 2,
        d.alpha == d.k * d.k,
        d.accept@ == seq![true, false],
        forall|i: int| 0 <= i < 2 * d.alpha ==> #[trigger] d.trans@[i] == (if i < d.alpha && sdigit(i as nat, 0, d.k as nat) == sdigit(i as nat, 1, d.k as nat) { 0u32 } else { 1u32 }),
        word_over(w, d.alpha as nat),
    ensures
        d.run_from(0, w) == (if digits_equal(w, d.k as nat) { 0nat } else { 1nat }),
        d.accepts(w) == digits_equal(w, d.k as nat),
    decreases w.len(),
{
    let k = d.k as nat;
    if w.len() > 0 {
        let w0 = w.drop_last();
        lemma_word_over_sub(w, d.alpha as nat);
        lemma_digit_equal_run(d, w0);
        let a = w.last() as nat;
        let p = d.run_from(0, w0);
        assert(d.run_from(0, w) == crate::dfa::tstep(d.trans@, d.alpha as nat, p, a));
        if p == 0 {
            assert(d.trans@[a as int] == (if sdigit(a, 0, k) == sdigit(a, 1, k) { 0u32 } else { 1u32 }));
        } else {
            assert(d.trans@[(d.alpha + a) as int] == 1u32);
        }
        if digits_equal(w, k) {
            assert forall|i: int| 0 <= i < w0.len() implies #[trigger] sdigit(w0[i] as nat, 0, k) == sdigit(w0[i] as nat, 1, k) by {
                assert(w0[i] == w[i]);
                assert(sdigit(w[i] as nat, 0, k) == sdigit(w[i] as nat, 1, k));
            }
            assert(sdigit(w[w.len() - 1] as nat, 0, k) == sdigit(w[w.len() - 1] as nat, 1, k));
        } else {
            let i = choose|i: int| 0 <= i < w.len() && sdigit(w[i] as nat, 0, k) != sdigit(w[i] as nat, 1, k);
            if i < w.len() - 1 {
                assert(w0[i] == w[i]);
                assert(!digits_equal(w0, k));
            }
        }
    }
}

/// `x = y` as digit strings (both tracks carry the same digit everywhere).
pub fn digit_equal(k: usize, x: &str, y: &str) -> (r: Dfa)
    requires
        k >= 1,
        k * k <= MAX_ALPHA,
        x@ != y@,
    ensures
        r.wf(),
        r.sorted(),
        r.k == k,
        forall|v: Seq<char>| names(r.vars@).contains(v) <==> (v == x@ || v == y@),
        r.vars.len() == 2,
        forall|w: Seq<usize>| word_over(w, r.alpha as nat) ==> #[trigger] r.accepts(w) == digits_equal(over(w, seq![x@, y@], &r), k as nat),
{
    let vs: Vec<String> = vec![crate::strs::str_to_string(x), crate::strs::str_to_string(y)];
    proof {
        assert(names(vs@) =~= seq![x@, y@]);
    }
    let raw = digit_equal_raw(k, crate::strs::copy_names(&vs));
    let r = named(&raw, &vs);
    proof {
        assert forall|v: Seq<char>| names(r.vars@).contains(v) <==> (v == x@ || v == y@) by {
            assert(names(vs@)[0] == x@);
            assert(names(vs@)[1] == y@);
            if names(vs@).contains(v) {
                let i = choose|i: int| 0 <= i < names(vs@).len() && names(vs@)[i] == v;
            }
            if v == x@ {
                assert(names(vs@).contains(names(vs@)[0]));
            }
            if v == y@ {
                assert(names(vs@).contains(names(vs@)[1]));
            }
        }
        assert forall|w: Seq<usize>| word_over(w, r.alpha as nat) implies #[trigger] r.accepts(w) == digits_equal(over(w, seq![x@, y@], &r), k as nat) by {
            let u = over(w, names(vs@), &r);
            assert(names(vs@) == seq![x@, y@]);
            crate::product::lemma_proj_word(w, positions(names(vs@), names(r.vars@)), k as nat);
            assert(positions(names(vs@), names(r.vars@)).len() == 2);
            assert(spow(k as nat, 2) == k * k) by {
                assert(spow(k as nat, 0) == 1);
                assert(spow(k as nat, 1) == k * 1);
                assert(spow(k as nat, 2) == k * spow(k as nat, 1));
            }
        }
    }
    r
}


/// The letter's verdict on `x < y`: 1 if its `x` digit is smaller, 2 if larger, 0 if equal.
pub open spec fn verdict(a: nat, k: nat) -> nat {
    if sdigit(a, 0, k) < sdigit(a, 1, k) {
        1
    } else if sdigit(a, 0, k) > sdigit(a, 1, k) {
        2
    } else {
        0
    }
}

/// The verdict of the first letter whose digits differ (0 if none).
pub open spec fn first_verdict(u: Seq<usize>, k: nat) -> nat
    decreases u.len(),
{
    if u.len() == 0 {
        0
    } else if first_verdict(u.drop_last(), k) != 0 {
        first_verdict(u.drop_last(), k)
    } else {
        verdict(u.last() as nat, k)
    }
}

/// The verdict of the last letter whose digits differ (0 if none).
pub open spec fn last_verdict(u: Seq<usize>, k: nat) -> nat
    decreases u.len(),
{
    if u.len() == 0 {
        0
    } else if verdict(u.last() as nat, k) != 0 {
        verdict(u.last() as nat, k)
    } else {
        last_verdict(u.drop_last(), k)
    }
}

/// Read most significant digit first, the first differing digit decides `x < y`;
/// least significant first, the last one does.
pub open spec fn lex_less(u: Seq<usize>, k: nat, lsd: bool) -> bool {
    if lsd { last_verdict(u, k) == 1 } else { first_verdict(u, k) == 1 }
}

/// How `a` compares with `b`: 0 when equal, 1 when smaller, 2 when larger.
pub open spec fn order_code(a: int, b: int) -> nat {
    if a == b { 0 } else if a < b { 1 } else { 2 }
}

/// Read most significant digit first, the first differing digit compares the
/// two values.
pub proof fn lemma_first_verdict_values(u: Seq<usize>, k: nat)
    requires
        k >= 1,
    ensures
        first_verdict(u, k) == order_code(val_msd(track(u, 0, k), k), val_msd(track(u, 1, k), k)),
    decreases u.len(),
{
    if u.len() > 0 {
        let u0 = u.drop_last();
        let a = u.last();
        lemma_first_verdict_values(u0, k);
        assert(u0.push(a) =~= u);
        lemma_track_push(u0, a, 0, k);
        lemma_track_push(u0, a, 1, k);
        let x0 = val_msd(track(u0, 0, k), k);
        let y0 = val_msd(track(u0, 1, k), k);
        let da = sdigit(a as nat, 0, k) as int;
        let db = sdigit(a as nat, 1, k) as int;
        crate::product::lemma_sdigit_lt(a as nat, 0, k);
        crate::product::lemma_sdigit_lt(a as nat, 1, k);
        assert(track(u, 0, k).last() == da);
        assert(track(u, 1, k).last() == db);
        let x = val_msd(track(u, 0, k), k);
        let y = val_msd(track(u, 1, k), k);
        assert(x == x0 * k + da);
        assert(y == y0 * k + db);
        if x0 < y0 {
            assert(x < y) by (nonlinear_arith)
                requires x == x0 * k + da, y == y0 * k + db, x0 < y0, 0 <= da < k, 0 <= db < k;
        } else if x0 > y0 {
            assert(x > y) by (nonlinear_arith)
                requires x == x0 * k + da, y == y0 * k + db, x0 > y0, 0 <= da < k, 0 <= db < k;
        } else {
            assert(x - y == da - db) by (nonlinear_arith)
                requires x == x0 * k + da, y == y0 * k + db, x0 == y0;
        }
    }
}

/// Read least significant digit first, the last differing digit compares the
/// two values.
pub proof fn lemma_last_verdict_values(u: Seq<usize>, k: nat)
    requires
        k >= 1,
    ensures
        last_verdict(u, k) == order_code(val_lsd(track(u, 0, k), k), val_lsd(track(u, 1, k), k)),
    decreases u.len(),
{
    if u.len() > 0 {
        let u0 = u.drop_last();
        let a = u.last();
        lemma_last_verdict_values(u0, k);
        assert(u0.push(a) =~= u);
        lemma_track_push(u0, a, 0, k);
        lemma_track_push(u0, a, 1, k);
        lemma_track_digits(u0, 0, k);
        lemma_track_digits(u0, 1, k);
        lemma_val_lsd_bound(track(u0, 0, k), k);
        lemma_val_lsd_bound(track(u0, 1, k), k);
        let x0 = val_lsd(track(u0, 0, k), k);
        let y0 = val_lsd(track(u0, 1, k), k);
        let p = spow(k, u0.len());
        let da = sdigit(a as nat, 0, k) as int;
        let db = sdigit(a as nat, 1, k) as int;
        assert(track(u, 0, k).last() == da);
        assert(track(u, 1, k).last() == db);
        let x = val_lsd(track(u, 0, k), k);
        let y = val_lsd(track(u, 1, k), k);
        assert(x == x0 + da * p);
        assert(y == y0 + db * p);
        if da < db {
            assert(x < y) by (nonlinear_arith)
                requires x == x0 + da * p, y == y0 + db * p, 0 <= x0 < p, 0 <= y0 < p, da < db;
        } else if da > db {
            assert(x > y) by (nonlinear_arith)
                requires x == x0 + da * p, y == y0 + db * p, 0 <= x0 < p, 0 <= y0 < p, da > db;
        } else {
            assert(x - y == x0 - y0) by (nonlinear_arith)
                requires x == x0 + da * p, y == y0 + db * p, da == db;
        }
    }
}

/// Equal digits on both tracks is a verdict of 0, read either way.
pub proof fn lemma_digits_equal_verdict(u: Seq<usize>, k: nat)
    ensures
        digits_equal(u, k) <==> first_verdict(u, k) == 0,
        digits_equal(u, k) <==> last_verdict(u, k) == 0,
    decreases u.len(),
{
    if u.len() > 0 {
        let u0 = u.drop_last();
        lemma_digits_equal_verdict(u0, k);
        assert(u.last() == u[u.len() - 1]);
        if digits_equal(u, k) {
            assert forall|i: int| 0 <= i < u0.len() implies #[trigger] sdigit(u0[i] as nat, 0, k) == sdigit(u0[i] as nat, 1, k) by {
                assert(u0[i] == u[i]);
            }
        }
        if digits_equal(u0, k) && verdict(u.last() as nat, k) == 0 {
            assert forall|i: int| 0 <= i < u.len() implies #[trigger] sdigit(u[i] as nat, 0, k) == sdigit(u[i] as nat, 1, k) by {
                if i < u0.len() {
                    assert(u0[i] == u[i]);
                }
            }
        }
        if !digits_equal(u0, k) && first_verdict(u0, k) == 0 {
            assert(false);
        }
        if last_verdict(u0, k) != 0 && !digits_equal(u, k) {
        }
    }
}

/// The digit comparison automata compare values: `x < y` exactly when the value
/// of the `x` track is below that of the `y` track, and the digits agree
/// exactly when the values do, in either digit order.
pub proof fn lemma_lex_values(u: Seq<usize>, k: nat, lsd: bool)
    requires
        k >= 1,
    ensures
        lex_less(u, k, lsd) <==> val(track(u, 0, k), k, lsd) < val(track(u, 1, k), k, lsd),
        digits_equal(u, k) <==> val(track(u, 0, k), k, lsd) == val(track(u, 1, k), k, lsd),
{
    lemma_first_verdict_values(u, k);
    lemma_last_verdict_values(u, k);
    lemma_digits_equal_verdict(u, k);
}

/// The three-state comparison table over coordinates `(x, y)`.
fn less_than_raw(k: usize, lsd: bool, vs: Vec<String>) -> (r: Dfa)
    requires
        k >= 1,
        k * k <= MAX_ALPHA,
        vs.len() == 2,
        distinct(names(vs@)),
    ensures
        r.wf(),
        r.k == k,
        r.vars@ == vs@,
        forall|w: Seq<usize>| word_over(w, r.alpha as nat) ==> #[trigger] r.accepts(w) == lex_less(w, k as nat, lsd),
{
    let alpha = k * k;
    proof {
        assert(spow(k as nat, 0) == 1);
        assert(spow(k as nat, 1) == k * 1);
        assert(spow(k as nat, 2) == k * spow(k as nat, 1));
    }
    let mut trans: Vec<State> = Vec::new();
    let mut st: usize = 0;
    while st < 3
        invariant
            k >= 1,
            alpha == k * k,
            alpha <= MAX_ALPHA,
            spow(k as nat, 1) == k,
            spow(k as nat, 0) == 1,
            st <= 3,
            trans.len() == st * alpha,
            forall|i: int| 0 <= i < trans.len() ==> (#[trigger] trans@[i] as nat) < 3,
            forall|q: nat, a: nat| q < st && a < alpha ==> #[trigger] trans@[(q * alpha + a) as int] as nat == (if lsd {
                if verdict(a, k as nat) == 0 { q } else { verdict(a, k as nat) }
            } else if q == 0 { verdict(a, k as nat) } else { q }),
        decreases 3 - st,
    {
        let mut a: usize = 0;
        while a < alpha
            invariant
                k >= 1,
                alpha == k * k,
                alpha <= MAX_ALPHA,
                spow(k as nat, 1) == k,
                spow(k as nat, 0) == 1,
                st < 3,
                a <= alpha,
                trans.len() == st * alpha + a,
                forall|i: int| 0 <= i < trans.len() ==> (#[trigger] trans@[i] as nat) < 3,
                forall|q: nat, b: nat| (q < st || (q == st && b < a)) && b < alpha ==> #[trigger] trans@[(q * alpha + b) as int] as nat == (if lsd {
                    if verdict(b, k as nat) == 0 { q } else { verdict(b, k as nat) }
                } else if q == 0 { verdict(b, k as nat) } else { q }),
            decreases alpha - a,
        {
            let x = crate::dfa::digit(a, 0, k);
            let y = crate::dfa::digit(a, 1, k);
            let v: u32 = if x < y { 1 } else if x > y { 2 } else { 0 };
            let t: u32 = if lsd { if v == 0 { st as u32 } else { v } } else if st == 0 { v } else { st as u32 };
            let ghost pre = trans@;
            trans.push(t);
            proof {
                assert forall|q: nat, b: nat| (q < st || (q == st && b < a + 1)) && b < alpha implies #[trigger] trans@[(q * alpha + b) as int] as nat == (if lsd {
                    if verdict(b, k as nat) == 0 { q } else { verdict(b, k as nat) }
                } else if q == 0 { verdict(b, k as nat) } else { q }) by {
                    if q < st {
                        crate::dfa::lemma_index(q, b, st as nat, alpha as nat);
                        assert(trans@[(q * alpha + b) as int] == pre[(q * alpha + b) as int]);
                    } else if b < a {
                        assert(trans@[(q * alpha + b) as int] == pre[(q * alpha + b) as int]);
                    }
                }
            }
            a = a + 1;
        }
        proof {
            assert((st + 1) * alpha == st * alpha + alpha) by (nonlinear_arith);
        }
        st = st + 1;
    }
    let d = Dfa::new(k, vs, 3, trans, vec![false, true, false]);
    proof {
        assert forall|w: Seq<usize>| word_over(w, d.alpha as nat) implies #[trigger] d.accepts(w) == lex_less(w, k as nat, lsd) by {
            lemma_less_run(&d, lsd, w);
        }
    }
    d
}

proof fn lemma_less_run(d: &Dfa, lsd: bool, w: Seq<usize>)
    requires
        d.wf(),
        d.nstates == 3,
        d.alpha == d.k * d.k,
        d.accept@ == seq![false, true, false],
        forall|q: nat, a: nat| q < 3 && a < d.alpha ==> #[trigger] d.trans@[(q * d.alpha + a) as int] as nat == (if lsd {
            if verdict(a, d.k as nat) == 0 { q } else { verdict(a, d.k as nat) }
        } else if q == 0 { verdict(a, d.k as nat) } else { q }),
        word_over(w, d.alpha as nat),
    ensures
        d.run_from(0, w) == (if lsd { last_verdict(w, d.k as nat) } else { first_verdict(w, d.k as nat) }),
        d.accepts(w) == lex_less(w, d.k as nat, lsd),
    decreases w.len(),
{
    if w.len() > 0 {
        let w0 = w.drop_last();
        lemma_word_over_sub(w, d.alpha as nat);
        lemma_less_run(d, lsd, w0);
        let a = w.last() as nat;
        let p = d.run_from(0, w0);
        assert(d.run_from(0, w) == crate::dfa::tstep(d.trans@, d.alpha as nat, p, a));
        assert(p < 3) by {
            lemma_trun(d.trans@, 3, d.alpha as nat, 0, w0);
        }
        assert(d.trans@[(p * d.alpha + a) as int] as nat == (if lsd {
            if verdict(a, d.k as nat) == 0 { p } else { verdict(a, d.k as nat) }
        } else if p == 0 { verdict(a, d.k as nat) } else { p }));
    }
}

/// `x < y` read digit by digit: the first (msd) or last (lsd) differing digit decides.
pub fn less_than_plain(k: usize, x: &str, y: &str, lsd: bool) -> (r: Dfa)
    requires
        k >= 1,
        k * k <= MAX_ALPHA,
        x@ != y@,
    ensures
        r.wf(),
        r.sorted(),
        r.k == k,
        forall|v: Seq<char>| names(r.vars@).contains(v) <==> (v == x@ || v == y@),
        r.vars.len() == 2,
        forall|w: Seq<usize>| word_over(w, r.alpha as nat) ==> #[trigger] r.accepts(w) == lex_less(over(w, seq![x@, y@], &r), k as nat, lsd),
{
    let vs: Vec<String> = vec![crate::strs::str_to_string(x), crate::strs::str_to_string(y)];
    proof {
        assert(names(vs@) =~= seq![x@, y@]);
    }
    let raw = less_than_raw(k, lsd, crate::strs::copy_names(&vs));
    let n = named(&raw, &vs);
    let r = n.minimize();
    proof {
        assert forall|v: Seq<char>| names(r.vars@).contains(v) <==> (v == x@ || v == y@) by {
            assert(names(vs@)[0] == x@);
            assert(names(vs@)[1] == y@);
            if names(vs@).contains(v) {
                let i = choose|i: int| 0 <= i < names(vs@).len() && names(vs@)[i] == v;
            }
            if v == x@ {
                assert(names(vs@).contains(names(vs@)[0]));
            }
            if v == y@ {
                assert(names(vs@).contains(names(vs@)[1]));
            }
        }
        assert forall|w: Seq<usize>| word_over(w, r.alpha as nat) implies #[trigger] r.accepts(w) == lex_less(over(w, seq![x@, y@], &r), k as nat, lsd) by {
            assert(names(vs@) == seq![x@, y@]);
            assert(r.accepts(w) == n.accepts(w));
            crate::product::lemma_proj_word(w, positions(names(vs@), names(r.vars@)), k as nat);
            assert(positions(names(vs@), names(r.vars@)).len() == 2);
            assert(spow(k as nat, 2) == k * k) by {
                assert(spow(k as nat, 0) == 1);
                assert(spow(k as nat, 1) == k * 1);
                assert(spow(k as nat, 2) == k * spow(k as nat, 1));
            }
        }
    }
    r
}

/// Number of letters of `w` equal to 1.
pub open spec fn count_ones(w: Seq<usize>) -> nat
    decreases w.len(),
{
    if w.len() == 0 {
        0
    } else {
        count_ones(w.drop_last()) + if w.last() == 1 { 1nat } else { 0nat }
    }
}

/// Every letter is a 0 or a 1.
pub open spec fn binary(w: Seq<usize>) -> bool {
    forall|i: int| 0 <= i < w.len() ==> #[trigger] w[i] <= 1
}

proof fn lemma_pow_run(d: &Dfa, w: Seq<usize>)
    requires
        d.wf(),
        d.nstates == 3,
        d.alpha == d.k,
        d.accept@ == seq![false, true, false],
        forall|q: nat, a: nat| q < 3 && a < d.alpha ==> #[trigger] d.trans@[(q * d.alpha + a) as int] as nat == (
            if q == 0 && a == 0 { 0nat } else if q == 0 && a == 1 { 1nat } else if q == 1 && a == 0 { 1nat } else { 2nat }),
        word_over(w, d.alpha as nat),
    ensures
        d.run_from(0, w) == (if !binary(w) || count_ones(w) > 1 { 2nat } else { count_ones(w) }),
    decreases w.len(),
{
    if w.len() > 0 {
        let w0 = w.drop_last();
        lemma_word_over_sub(w, d.alpha as nat);
        lemma_pow_run(d, w0);
        let a = w.last() as nat;
        let p = d.run_from(0, w0);
        assert(d.run_from(0, w) == crate::dfa::tstep(d.trans@, d.alpha as nat, p, a));
        assert(p < 3) by {
            lemma_trun(d.trans@, 3, d.alpha as nat, 0, w0);
        }
        assert(d.trans@[(p * d.alpha + a) as int] as nat == (
            if p == 0 && a == 0 { 0nat } else if p == 0 && a == 1 { 1nat } else if p == 1 && a == 0 { 1nat } else { 2nat }));
        if binary(w) {
            assert forall|i: int| 0 <= i < w0.len() implies #[trigger] w0[i] <= 1 by {
                assert(w0[i] == w[i]);
            }
            assert(w[w.len() - 1] <= 1);
        } else {
            let i = choose|i: int| 0 <= i < w.len() && !(w[i] <= 1);
            if i < w.len() - 1 {
                assert(w0[i] == w[i]);
            }
        }
    }
}

/// `{k^j : j >= 0}`: in both digit orders the language is `0* 1 0*`.
pub fn power_of_k(k: usize, x: &str) -> (r: Dfa)
    requires
        2 <= k <= MAX_ALPHA,
    ensures
        r.wf(),
        r.k == k,
        names(r.vars@) == seq![x@],
        forall|w: Seq<usize>| word_over(w, r.alpha as nat) ==> #[trigger] r.accepts(w) == (binary(w) && count_ones(w) == 1),
{
    let mut trans: Vec<State> = Vec::new();
    let mut i: usize = 0;
    while i < 3 * k
        invariant
            2 <= k <= MAX_ALPHA,
            i <= 3 * k,
            trans.len() == i,
            forall|j: int| 0 <= j < i ==> #[trigger] trans@[j] as nat == (
                if j == 0 { 0nat } else if j == 1 { 1nat } else if j == k as int { 1nat } else { 2nat }),
        decreases 3 * k - i,
    {
        let v: u32 = if i == 0 { 0 } else if i == 1 { 1 } else if i == k { 1 } else { 2 };
        trans.push(v);
        i = i + 1;
    }
    let vs: Vec<String> = vec![crate::strs::str_to_string(x)];
    proof {
        assert(spow(k as nat, 0) == 1);
        assert(spow(k as nat, 1) == k * 1);
        assert(names(vs@) =~= seq![x@]);
        assert(3 * k == 3 * spow(k as nat, 1));
    }
    let d = Dfa::new(k, vs, 3, trans, vec![false, true, false]);
    let r = d.minimize();
    proof {
        assert forall|q: nat, a: nat| q < 3 && a < d.alpha implies #[trigger] d.trans@[(q * d.alpha + a) as int] as nat == (
            if q == 0 && a == 0 { 0nat } else if q == 0 && a == 1 { 1nat } else if q == 1 && a == 0 { 1nat } else { 2nat }) by {
            crate::dfa::lemma_index(q, a, 3, k as nat);
            assert(q * k + a < 3 * k);
            if q == 0 {
                assert(q * k + a == a);
            } else if q == 1 {
                assert(q * k + a == k + a);
            } else {
                assert(q * k + a == 2 * k + a);
            }
        }
        assert forall|w: Seq<usize>| word_over(w, r.alpha as nat) implies #[trigger] r.accepts(w) == (binary(w) && count_ones(w) == 1) by {
            lemma_pow_run(&d, w);
        }
    }
    r
}

/// A digit string below `k` has an lsd value in `[0, k^len)`.
pub proof fn lemma_val_lsd_bound(s: Seq<nat>, k: nat)
    requires
        k >= 1,
        forall|i: int| 0 <= i < s.len() ==> #[trigger] s[i] < k,
    ensures
        0 <= val_lsd(s, k) < spow(k, s.len()),
    decreases s.len(),
{
    lemma_spow_pos(k, s.len());
    if s.len() > 0 {
        let s0 = s.drop_last();
        assert forall|i: int| 0 <= i < s0.len() implies #[trigger] s0[i] < k by {
            assert(s0[i] == s[i]);
        }
        lemma_val_lsd_bound(s0, k);
        let p = spow(k, s0.len());
        assert(s.last() == s[s.len() - 1]);
        assert(spow(k, s.len()) == k * p);
        assert(val_lsd(s0, k) + s.last() * p < k * p) by (nonlinear_arith)
            requires
                val_lsd(s0, k) < p,
                s.last() < k,
                s.last() >= 0,
        ;
        assert(0 <= s.last() * p) by (nonlinear_arith)
            requires
                s.last() >= 0,
                p >= 1,
        ;
    }
}

/// Prepending a digit to an lsd string multiplies the rest by `k`.
pub proof fn lemma_val_lsd_prepend(d: nat, t: Seq<nat>, k: nat)
    ensures
        val_lsd(seq![d] + t, k) == d + k * val_lsd(t, k),
    decreases t.len(),
{
    if t.len() == 0 {
        assert(seq![d] + t =~= seq![d]);
        assert(seq![d].drop_last() =~= Seq::<nat>::empty());
        assert(spow(k, 0) == 1);
        assert(seq![d].last() == d);
        assert(val_lsd(Seq::<nat>::empty(), k) == 0);
        assert(val_lsd(seq![d], k) == val_lsd(Seq::<nat>::empty(), k) + d * spow(k, 0));
        assert(val_lsd(t, k) == 0);
    } else {
        let t0 = t.drop_last();
        lemma_val_lsd_prepend(d, t0, k);
        assert((seq![d] + t).len() == t.len() + 1);
        assert((seq![d] + t).drop_last() =~= seq![d] + t0);
        assert(val_lsd(seq![d] + t, k) == val_lsd(seq![d] + t0, k) + t.last() * spow(k, t.len() as nat));
        assert(val_lsd(t, k) == val_lsd(t0, k) + t.last() * spow(k, (t.len() - 1) as nat));
        assert((seq![d] + t).last() == t.last());
        assert(spow(k, t.len() as nat) == k * spow(k, (t.len() - 1) as nat));
        assert(t.last() * (k * spow(k, (t.len() - 1) as nat)) == k * (t.last() * spow(k, (t.len() - 1) as nat))) by (nonlinear_arith);
        assert(k * (val_lsd(t0, k) + t.last() * spow(k, (t.len() - 1) as nat))
            == k * val_lsd(t0, k) + k * (t.last() * spow(k, (t.len() - 1) as nat))) by (nonlinear_arith);
    }
}

/// The lsd value of the reversed string is the msd value.
pub proof fn lemma_val_reverse(s: Seq<nat>, k: nat)
    ensures
        val_lsd(s.reverse(), k) == val_msd(s, k),
    decreases s.len(),
{
    if s.len() == 0 {
        assert(s.reverse() =~= s);
    } else {
        let s0 = s.drop_last();
        lemma_val_reverse(s0, k);
        assert(s.reverse() =~= seq![s.last()] + s0.reverse());
        lemma_val_lsd_prepend(s.last(), s0.reverse(), k);
        assert(k * val_msd(s0, k) == val_msd(s0, k) * k) by (nonlinear_arith);
    }
}

/// `x + y - z` over the three tracks, least significant digit first.
pub open spec fn excess(u: Seq<usize>, k: nat) -> int {
    val_lsd(track(u, 0, k), k) + val_lsd(track(u, 1, k), k) - val_lsd(track(u, 2, k), k)
}

/// The carry state of the lsd adder after `u`: the carry when the prefix sums
/// match up to it, else the dead state 2.
pub open spec fn carry_state(u: Seq<usize>, k: nat) -> nat {
    if excess(u, k) == 0 {
        0
    } else if excess(u, k) == spow(k, u.len()) {
        1
    } else {
        2
    }
}

/// The table of the lsd adder over coordinates `(x, y, z)`.
pub open spec fn adder_step(q: nat, a: nat, k: nat) -> nat {
    if q >= 2 {
        2
    } else if (sdigit(a, 0, k) + sdigit(a, 1, k) + q) % k == sdigit(a, 2, k) {
        (sdigit(a, 0, k) + sdigit(a, 1, k) + q) / k
    } else {
        2
    }
}

proof fn lemma_track_push(u: Seq<usize>, a: usize, j: nat, k: nat)
    ensures
        track(u.push(a), j, k) == track(u, j, k).push(sdigit(a as nat, j, k)),
        track(u.push(a), j, k).drop_last() == track(u, j, k),
{
    assert(track(u.push(a), j, k) =~= track(u, j, k).push(sdigit(a as nat, j, k)));
}

proof fn lemma_track_digits(u: Seq<usize>, j: nat, k: nat)
    requires
        k >= 1,
    ensures
        forall|i: int| 0 <= i < track(u, j, k).len() ==> #[trigger] track(u, j, k)[i] < k,
{
    assert forall|i: int| 0 <= i < track(u, j, k).len() implies #[trigger] track(u, j, k)[i] < k by {
        crate::product::lemma_sdigit_lt(u[i] as nat, j, k);
    }
}

/// One step of the adder keeps the carry state exact.
proof fn lemma_carry_step(u: Seq<usize>, a: usize, k: nat)
    requires
        k >= 2,
    ensures
        carry_state(u.push(a), k) == adder_step(carry_state(u, k), a as nat, k),
{
    let i = u.len();
    let p = spow(k, i);
    lemma_spow_pos(k, i);
    let a0 = sdigit(a as nat, 0, k);
    let a1 = sdigit(a as nat, 1, k);
    let a2 = sdigit(a as nat, 2, k);
    crate::product::lemma_sdigit_lt(a as nat, 0, k);
    crate::product::lemma_sdigit_lt(a as nat, 1, k);
    crate::product::lemma_sdigit_lt(a as nat, 2, k);
    lemma_track_push(u, a, 0, k);
    lemma_track_push(u, a, 1, k);
    lemma_track_push(u, a, 2, k);
    let v = u.push(a);
    assert(v.len() == i + 1);
    assert(val_lsd(track(v, 0, k), k) == val_lsd(track(u, 0, k), k) + a0 * p);
    assert(val_lsd(track(v, 1, k), k) == val_lsd(track(u, 1, k), k) + a1 * p);
    assert(val_lsd(track(v, 2, k), k) == val_lsd(track(u, 2, k), k) + a2 * p);
    let e = excess(u, k);
    let e2 = excess(v, k);
    assert(e2 == e + a0 * p + a1 * p - a2 * p);
    assert(e2 == e + (a0 + a1 - a2) * p) by (nonlinear_arith)
        requires
            e2 == e + a0 * p + a1 * p - a2 * p,
    ;
    let p2 = spow(k, i + 1);
    assert(p2 == k * p);
    lemma_track_digits(u, 0, k);
    lemma_track_digits(u, 1, k);
    lemma_track_digits(u, 2, k);
    lemma_val_lsd_bound(track(u, 0, k), k);
    lemma_val_lsd_bound(track(u, 1, k), k);
    lemma_val_lsd_bound(track(u, 2, k), k);
    assert(-p < e < 2 * p);
    let q = carry_state(u, k);
    if q < 2 {
        assert(e == q * p);
        let sum = a0 + a1 + q;
        assert(e2 == (sum - a2) * p) by (nonlinear_arith)
            requires
                e == q * p,
                e2 == e + (a0 + a1 - a2) * p,
                sum == a0 + a1 + q,
        ;
        if sum % k == a2 {
            let c = sum / k;
            assert(sum == c * k + a2) by (nonlinear_arith)
                requires
                    k >= 2,
                    c == sum / k,
                    sum % k == a2,
                    sum >= 0,
            ;
            assert(c <= 1) by (nonlinear_arith)
                requires
                    sum == c * k + a2,
                    a0 < k,
                    a1 < k,
                    q <= 1,
                    sum == a0 + a1 + q,
                    a2 >= 0,
                    k >= 2,
            ;
            assert(e2 == c * p2) by (nonlinear_arith)
                requires
                    e2 == (sum - a2) * p,
                    sum == c * k + a2,
                    p2 == k * p,
            ;
            assert(p2 >= 1) by (nonlinear_arith)
                requires
                    p >= 1,
                    k >= 2,
                    p2 == k * p,
            ;
        } else {
            if e2 == 0 {
                assert(sum - a2 == 0) by (nonlinear_arith)
                    requires
                        e2 == (sum - a2) * p,
                        e2 == 0,
                        p >= 1,
                ;
                assert(sum % k == a2) by (nonlinear_arith)
                    requires
                        sum == a2,
                        a2 < k,
                        a2 >= 0,
                ;
            }
            if e2 == p2 {
                assert(sum - a2 == k) by (nonlinear_arith)
                    requires
                        e2 == (sum - a2) * p,
                        e2 == p2,
                        p2 == k * p,
                        p >= 1,
                ;
                assert(sum % k == a2) by (nonlinear_arith)
                    requires
                        sum == a2 + k,
                        a2 < k,
                        a2 >= 0,
                        k >= 2,
                ;
            }
        }
    } else {
        if e2 == 0 || e2 == p2 {
            let m: int = if e2 == 0 { 0 } else { k as int };
            assert(e2 == m * p);
            let mm = m - (a0 + a1 - a2);
            assert(e == mm * p) by (nonlinear_arith)
                requires
                    e2 == m * p,
                    e2 == e + (a0 + a1 - a2) * p,
                    mm == m - (a0 + a1 - a2),
            ;
            assert(mm == 0 || mm == 1) by (nonlinear_arith)
                requires
                    e == mm * p,
                    -p < e < 2 * p,
                    p >= 1,
            ;
            if mm == 0 {
                assert(e == 0) by (nonlinear_arith)
                    requires
                        e == mm * p,
                        mm == 0,
                ;
            } else {
                assert(e == p) by (nonlinear_arith)
                    requires
                        e == mm * p,
                        mm == 1,
                ;
            }
            assert(q == 2);
            assert(false);
        }
    }
}

/// The lsd adder's run is the carry state.
proof fn lemma_adder_run(d: &Dfa, w: Seq<usize>)
    requires
        d.wf(),
        d.k >= 2,
        d.nstates == 3,
        d.alpha == d.k * d.k * d.k,
        forall|q: nat, a: nat| q < 3 && a < d.alpha ==> #[trigger] d.trans@[(q * d.alpha + a) as int] as nat == adder_step(q, a, d.k as nat),
        word_over(w, d.alpha as nat),
    ensures
        d.run_from(0, w) == carry_state(w, d.k as nat),
    decreases w.len(),
{
    let k = d.k as nat;
    if w.len() == 0 {
        assert(track(w, 0, k) =~= Seq::<nat>::empty());
        assert(track(w, 1, k) =~= Seq::<nat>::empty());
        assert(track(w, 2, k) =~= Seq::<nat>::empty());
    } else {
        let w0 = w.drop_last();
        lemma_word_over_sub(w, d.alpha as nat);
        lemma_adder_run(d, w0);
        let a = w.last();
        assert(w0.push(a) =~= w);
        lemma_carry_step(w0, a, k);
        let p = d.run_from(0, w0);
        assert(p < 3) by {
            lemma_trun(d.trans@, 3, d.alpha as nat, 0, w0);
        }
        assert(d.run_from(0, w) == crate::dfa::tstep(d.trans@, d.alpha as nat, p, a as nat));
    }
}

/// The lsd adder `x + y = z` over coordinates `(x, y, z)`: states are the carry 0, 1 and dead.
fn adder_lsd(k: usize, vs: Vec<String>) -> (r: Dfa)
    requires
        k >= 2,
        k * k * k <= MAX_ALPHA,
        vs.len() == 3,
        distinct(names(vs@)),
    ensures
        r.wf(),
        r.k == k,
        r.vars@ == vs@,
        forall|w: Seq<usize>| word_over(w, r.alpha as nat) ==> #[trigger] r.accepts(w) == (excess(w, k as nat) == 0),
{
    proof {
        assert(k * k <= k * k * k) by (nonlinear_arith)
            requires k >= 2;
        assert(k <= k * k) by (nonlinear_arith)
            requires k >= 2;
    }
    let alpha = k * k * k;
    proof {
        assert(spow(k as nat, 0) == 1);
        assert(spow(k as nat, 1) == k * 1);
        assert(spow(k as nat, 2) == k * spow(k as nat, 1));
        assert(spow(k as nat, 3) == k * spow(k as nat, 2));
        assert(k * (k * k) == k * k * k) by (nonlinear_arith);
        assert(k * k <= k * k * k) by (nonlinear_arith)
            requires k >= 2;
    }
    let mut trans: Vec<State> = Vec::new();
    let mut st: usize = 0;
    while st < 3
        invariant
            k >= 2,
            k <= MAX_ALPHA,
            alpha == k * k * k,
            alpha <= MAX_ALPHA,
            k * k <= alpha,
            spow(k as nat, 0) == 1,
            spow(k as nat, 1) == k,
            spow(k as nat, 2) == k * k,
            st <= 3,
            trans.len() == st * alpha,
            forall|i: int| 0 <= i < trans.len() ==> (#[trigger] trans@[i] as nat) < 3,
            forall|q: nat, a: nat| q < st && a < alpha ==> #[trigger] trans@[(q * alpha + a) as int] as nat == adder_step(q, a, k as nat),
        decreases 3 - st,
    {
        let mut a: usize = 0;
        while a < alpha
            invariant
                k >= 2,
                k <= MAX_ALPHA,
                alpha == k * k * k,
                alpha <= MAX_ALPHA,
                k * k <= alpha,
                spow(k as nat, 0) == 1,
                spow(k as nat, 1) == k,
                spow(k as nat, 2) == k * k,
                st < 3,
                a <= alpha,
                trans.len() == st * alpha + a,
                forall|i: int| 0 <= i < trans.len() ==> (#[trigger] trans@[i] as nat) < 3,
                forall|q: nat, b: nat| (q < st || (q == st && b < a)) && b < alpha ==> #[trigger] trans@[(q * alpha + b) as int] as nat == adder_step(q, b, k as nat),
            decreases alpha - a,
        {
            let t: u32 = if st >= 2 {
                2
            } else {
                let x = crate::dfa::digit(a, 0, k);
                let y = crate::dfa::digit(a, 1, k);
                let z = crate::dfa::digit(a, 2, k);
                let sum = x + y + st;
                if sum % k == z {
                    proof {
                        assert(sum / k <= 2) by (nonlinear_arith)
                            requires
                                x < k,
                                y < k,
                                st <= 1,
                                sum == x + y + st,
                                k >= 2,
                        ;
                    }
                    (sum / k) as u32
                } else {
                    2
                }
            };
            let ghost pre = trans@;
            proof {
                if st < 2 {
                    let x = sdigit(a as nat, 0, k as nat);
                    let y = sdigit(a as nat, 1, k as nat);
                    let sum: int = x + y + st;
                    crate::product::lemma_sdigit_lt(a as nat, 0, k as nat);
                    crate::product::lemma_sdigit_lt(a as nat, 1, k as nat);
                    assert(sum / (k as int) <= 1) by (nonlinear_arith)
                        requires
                            x < k,
                            y < k,
                            st <= 1,
                            sum == x + y + st,
                            k >= 2,
                    ;
                }
            }
            trans.push(t);
            proof {
                assert forall|q: nat, b: nat| (q < st || (q == st && b < a + 1)) && b < alpha implies #[trigger] trans@[(q * alpha + b) as int] as nat == adder_step(q, b, k as nat) by {
                    if q < st {
                        crate::dfa::lemma_index(q, b, st as nat, alpha as nat);
                        assert(trans@[(q * alpha + b) as int] == pre[(q * alpha + b) as int]);
                    } else if b < a {
                        assert(trans@[(q * alpha + b) as int] == pre[(q * alpha + b) as int]);
                    }
                }
            }
            a = a + 1;
        }
        proof {
            assert((st + 1) * alpha == st * alpha + alpha) by (nonlinear_arith);
        }
        st = st + 1;
    }
    let d = Dfa::new(k, vs, 3, trans, vec![true, false, false]);
    proof {
        assert forall|w: Seq<usize>| word_over(w, d.alpha as nat) implies #[trigger] d.accepts(w) == (excess(w, k as nat) == 0) by {
            lemma_adder_run(&d, w);
            lemma_spow_pos(k as nat, w.len());
        }
    }
    d
}

proof fn lemma_track_reverse(u: Seq<usize>, j: nat, k: nat)
    ensures
        track(u.reverse(), j, k) == track(u, j, k).reverse(),
{
    assert(track(u.reverse(), j, k) =~= track(u, j, k).reverse());
}

/// The sum `x + y = z` holds of the three tracks of `u`, read in the given digit order.
pub open spec fn sum_holds(u: Seq<usize>, k: nat, lsd: bool) -> bool {
    val(track(u, 0, k), k, lsd) + val(track(u, 1, k), k, lsd) == val(track(u, 2, k), k, lsd)
}

/// Three distinct names, as a list.
pub open spec fn three(x: Seq<char>, y: Seq<char>, z: Seq<char>) -> bool {
    x != y && y != z && x != z
}

/// The variables of `r` are exactly the names in `vs`.
pub open spec fn vars_are(r: &Dfa, vs: Seq<Seq<char>>) -> bool {
    &&& r.vars.len() == vs.len()
    &&& forall|v: Seq<char>| names(r.vars@).contains(v) <==> vs.contains(v)
}

/// `x + y = z`.
pub fn adder(k: usize, x: &str, y: &str, z: &str, cx: &Ctx) -> (r: Option<Dfa>)
    requires
        k >= 2,
        k * k * k <= MAX_ALPHA,
        three(x@, y@, z@),
        cx.wf(),
        cx.fits(k as nat),
    ensures
        r matches Some(d) ==> {
            &&& d.wf()
            &&& d.sorted()
            &&& d.k == k
            &&& vars_are(&d, seq![x@, y@, z@])
            &&& forall|w: Seq<usize>| word_over(w, d.alpha as nat) ==> #[trigger] d.accepts(w) == match cx.ns {
                None => sum_holds(over(w, seq![x@, y@, z@], &d), k as nat, cx.lsd),
                Some(ns) => ns.add_of(cx.lsd).accepts(over(w, seq![x@, y@, z@], &d)) && cx.valid_word(w, 3, k as nat),
            }
        },
        (cx.ns is None && cx.lsd) ==> r is Some,
{
    let vs: Vec<String> = vec![crate::strs::str_to_string(x), crate::strs::str_to_string(y), crate::strs::str_to_string(z)];
    proof {
        assert(names(vs@) =~= seq![x@, y@, z@]);
    }
    match &cx.ns {
        Some(ns) => {
            let a = ns.add(cx.lsd);
            let n = named(a, &vs);
            let rr = match ns.restrict(&n, cx.lsd) {
                Some(rr) => rr,
                None => return None,
            };
            let d = rr.minimize();
            proof {
                assert(names(rr.vars@) == names(n.vars@));
                assert forall|w: Seq<usize>| word_over(w, d.alpha as nat) implies #[trigger] d.accepts(w) ==
                    (ns.add_of(cx.lsd).accepts(over(w, seq![x@, y@, z@], &d)) && cx.valid_word(w, 3, k as nat)) by {
                    assert(d.accepts(w) == rr.accepts(w));
                    assert(crate::product::lift_word(w, n.vars@, rr.vars@, k as nat) == crate::product::lift_word(w, n.vars@, n.vars@, k as nat));
                    crate::product::lemma_sorted_distinct(names(n.vars@));
                    crate::product::lemma_lift_same(w, n.vars@, k as nat);
                }
                assert forall|v: Seq<char>| names(d.vars@).contains(v) <==> seq![x@, y@, z@].contains(v) by {
                    assert(names(vs@) == seq![x@, y@, z@]);
                }
            }
            Some(d)
        },
        None => {
            let raw = adder_lsd(k, crate::strs::copy_names(&vs));
            let lsd = cx.lsd;
            let base = if lsd {
                raw
            } else {
                match raw.reverse_dfa() {
                    Some(b) => b,
                    None => return None,
                }
            };
            proof {
                assert forall|v: Seq<usize>| word_over(v, base.alpha as nat) implies #[trigger] base.accepts(v) == sum_holds(v, k as nat, lsd) by {
                    if !lsd {
                        let rv = v.reverse();
                        assert(word_over(rv, base.alpha as nat));
                        lemma_track_reverse(v, 0, k as nat);
                        lemma_track_reverse(v, 1, k as nat);
                        lemma_track_reverse(v, 2, k as nat);
                        lemma_val_reverse(track(v, 0, k as nat), k as nat);
                        lemma_val_reverse(track(v, 1, k as nat), k as nat);
                        lemma_val_reverse(track(v, 2, k as nat), k as nat);
                        assert(base.accepts(v) == raw.accepts(rv));
                    }
                }
            }
            let n = named(&base, &vs);
            let d = n.minimize();
            proof {
                assert forall|w: Seq<usize>| word_over(w, d.alpha as nat) implies #[trigger] d.accepts(w) ==
                    sum_holds(over(w, seq![x@, y@, z@], &d), k as nat, cx.lsd) by {
                    assert(d.accepts(w) == n.accepts(w));
                    crate::product::lemma_proj_word(w, positions(names(vs@), names(n.vars@)), k as nat);
                    assert(positions(names(vs@), names(n.vars@)).len() == 3);
                }
                assert forall|v: Seq<char>| names(d.vars@).contains(v) <==> seq![x@, y@, z@].contains(v) by {
                    assert(names(vs@) == seq![x@, y@, z@]);
                }
            }
            Some(d)
        },
    }
}

/// `x < y`.
pub fn less_than(k: usize, x: &str, y: &str, cx: &Ctx) -> (r: Option<Dfa>)
    requires
        k >= 1,
        k * k <= MAX_ALPHA,
        x@ != y@,
        cx.wf(),
        cx.fits(k as nat),
    ensures
        r matches Some(d) ==> {
            &&& d.wf()
            &&& d.sorted()
            &&& d.k == k
            &&& vars_are(&d, seq![x@, y@])
            &&& forall|w: Seq<usize>| word_over(w, d.alpha as nat) ==> #[trigger] d.accepts(w) == match cx.ns {
                None => lex_less(over(w, seq![x@, y@], &d), k as nat, cx.lsd),
                Some(ns) => ns.lt_of(cx.lsd).accepts(over(w, seq![x@, y@], &d)) && cx.valid_word(w, 2, k as nat),
            }
        },
        cx.ns is None ==> r is Some,
{
    match &cx.ns {
        Some(ns) => {
            let vs: Vec<String> = vec![crate::strs::str_to_string(x), crate::strs::str_to_string(y)];
            proof {
                assert(names(vs@) =~= seq![x@, y@]);
            }
            let a = ns.lt(cx.lsd);
            let n = named(a, &vs);
            let rr = match ns.restrict(&n, cx.lsd) {
                Some(rr) => rr,
                None => return None,
            };
            let d = rr.minimize();
            proof {
                assert(names(rr.vars@) == names(n.vars@));
                assert forall|w: Seq<usize>| word_over(w, d.alpha as nat) implies #[trigger] d.accepts(w) ==
                    (ns.lt_of(cx.lsd).accepts(over(w, seq![x@, y@], &d)) && cx.valid_word(w, 2, k as nat)) by {
                    assert(d.accepts(w) == rr.accepts(w));
                    assert(crate::product::lift_word(w, n.vars@, rr.vars@, k as nat) == crate::product::lift_word(w, n.vars@, n.vars@, k as nat));
                    crate::product::lemma_sorted_distinct(names(n.vars@));
                    crate::product::lemma_lift_same(w, n.vars@, k as nat);
                }
                assert forall|v: Seq<char>| names(d.vars@).contains(v) <==> seq![x@, y@].contains(v) by {
                    assert(names(vs@) == seq![x@, y@]);
                }
            }
            Some(d)
        },
        None => {
            let d = less_than_plain(k, x, y, cx.lsd);
            proof {
                assert forall|v: Seq<char>| names(d.vars@).contains(v) <==> seq![x@, y@].contains(v) by {
                    if v == x@ {
                        assert(seq![x@, y@][0] == v);
                    }
                    if v == y@ {
                        assert(seq![x@, y@][1] == v);
                    }
                }
            }
            Some(d)
        },
    }
}

/// `x = y`: digit-string equality, restricted to valid representations under a
/// numeration system (where canonical representations are unique).
pub fn equal(k: usize, x: &str, y: &str, cx: &Ctx) -> (r: Option<Dfa>)
    requires
        k >= 1,
        k * k <= MAX_ALPHA,
        x@ != y@,
        cx.wf(),
        cx.fits(k as nat),
    ensures
        r matches Some(d) ==> {
            &&& d.wf()
            &&& d.sorted()
            &&& d.k == k
            &&& vars_are(&d, seq![x@, y@])
            &&& forall|w: Seq<usize>| word_over(w, d.alpha as nat) ==> #[trigger] d.accepts(w) ==
                (digits_equal(over(w, seq![x@, y@], &d), k as nat) && cx.valid_word(w, 2, k as nat))
        },
        cx.ns is None ==> r is Some,
{
    let e = digit_equal(k, x, y);
    proof {
        assert forall|v: Seq<char>| names(e.vars@).contains(v) <==> seq![x@, y@].contains(v) by {
            if v == x@ {
                assert(seq![x@, y@][0] == v);
            }
            if v == y@ {
                assert(seq![x@, y@][1] == v);
            }
        }
    }
    match &cx.ns {
        None => Some(e),
        Some(ns) => {
            let rr = match ns.restrict(&e, cx.lsd) {
                Some(rr) => rr,
                None => return None,
            };
            let d = rr.minimize();
            proof {
                assert(names(rr.vars@) == names(e.vars@));
                assert forall|w: Seq<usize>| word_over(w, d.alpha as nat) implies #[trigger] d.accepts(w) ==
                    (digits_equal(over(w, seq![x@, y@], &d), k as nat) && cx.valid_word(w, 2, k as nat)) by {
                    assert(d.accepts(w) == rr.accepts(w));
                    assert(crate::product::lift_word(w, e.vars@, rr.vars@, k as nat) == crate::product::lift_word(w, e.vars@, e.vars@, k as nat));
                    crate::product::lemma_sorted_distinct(names(e.vars@));
                    crate::product::lemma_lift_same(w, e.vars@, k as nat);
                }
            }
            Some(d)
        },
    }
}

/// Largest constant a formula may mention.
pub const MAX_CONSTANT: u64 = 1000000000000;

/// `spow` grows with its base.
proof fn lemma_spow_base_mono(a: nat, b: nat, i: nat)
    requires
        1 <= a <= b,
    ensures
        spow(a, i) <= spow(b, i),
    decreases i,
{
    if i > 0 {
        lemma_spow_base_mono(a, b, (i - 1) as nat);
        lemma_spow_pos(a, (i - 1) as nat);
        let x = spow(a, (i - 1) as nat);
        let y = spow(b, (i - 1) as nat);
        assert(a * x <= b * y) by (nonlinear_arith)
            requires
                1 <= a <= b,
                1 <= x <= y,
        ;
    }
}

/// Sixty-four digits in any base from 2 exceed every `u64`.
proof fn lemma_spow_64(k: nat)
    requires
        k >= 2,
    ensures
        spow(k, 64) > u64::MAX,
{
    assert(spow(2, 0) == 1);
    assert(spow(2, 1) == 2);
    crate::quant::lemma_spow_add(2, 1, 1);
    assert(spow(2, 2) == 4);
    crate::quant::lemma_spow_add(2, 2, 2);
    assert(spow(2, 4) == 16);
    crate::quant::lemma_spow_add(2, 4, 4);
    assert(spow(2, 8) == 256);
    crate::quant::lemma_spow_add(2, 8, 8);
    assert(spow(2, 16) == 65536);
    crate::quant::lemma_spow_add(2, 16, 16);
    assert(spow(2, 32) == 4294967296);
    crate::quant::lemma_spow_add(2, 32, 32);
    assert(spow(2, 64) == 18446744073709551616);
    lemma_spow_base_mono(2, k, 64);
}

/// Digits of a positive number lie below the base, and the first is not zero.
pub proof fn lemma_kdigits(n: nat, k: nat)
    requires
        2 <= k <= MAX_ALPHA,
    ensures
        word_over(kdigits(n, k), k),
        n > 0 ==> kdigits(n, k)[0] != 0,
        n == 0 ==> kdigits(n, k).len() == 0,
    decreases n,
{
    if n > 0 {
        let q = n / k;
        assert(q < n) by (nonlinear_arith)
            requires
                k >= 2,
                n > 0,
                q == n / k,
        ;
        lemma_kdigits(q, k);
        assert(n % k < k) by (nonlinear_arith)
            requires
                k >= 2,
        ;
        assert(((n % k) as usize) as nat == n % k);
        if q == 0 {
            assert(n % k == n) by (nonlinear_arith)
                requires
                    k >= 2,
                    n / k == 0,
            ;
        }
    }
}

/// The base-`k` digits of `c`, most significant first.
pub fn base_digits(k: usize, c: u64) -> (r: Vec<usize>)
    requires
        2 <= k <= MAX_ALPHA,
    ensures
        r@ == kdigits(c as nat, k as nat),
        r.len() <= 64,
{
    let ghost kk = k as nat;
    let mut ds: Vec<usize> = Vec::new();
    let mut m: u64 = c;
    let kb = k as u64;
    proof {
        assert(ds@.reverse() =~= Seq::<usize>::empty());
        assert(kdigits(c as nat, kk) =~= kdigits(m as nat, kk) + ds@.reverse());
        assert(spow(kk, 0) == 1);
        assert(ds.len() == 0);
        assert(spow(kk, ds.len() as nat) == 1);
        assert(m * spow(kk, ds.len() as nat) <= c);
    }
    while m > 0
        invariant
            2 <= k <= MAX_ALPHA,
            kk == k,
            kb == k,
            kdigits(c as nat, kk) == kdigits(m as nat, kk) + ds@.reverse(),
            m * spow(kk, ds.len() as nat) <= c,
            ds.len() <= 64,
        decreases m,
    {
        proof {
            lemma_spow_64(kk);
            lemma_spow_pos(kk, ds.len() as nat);
            if ds.len() >= 64 {
                crate::dfa::lemma_spow_mono(kk, 64, ds.len() as nat);
                assert(m * spow(kk, ds.len() as nat) >= spow(kk, ds.len() as nat)) by (nonlinear_arith)
                    requires
                        m >= 1,
                ;
            }
        }
        let d = (m % kb) as usize;
        let q = m / kb;
        let ghost pre = ds@;
        ds.push(d);
        proof {
            assert(kdigits(m as nat, kk) == kdigits(q as nat, kk).push(d));
            assert(ds@.reverse() =~= seq![d] + pre.reverse());
            assert(kdigits(c as nat, kk) =~= kdigits(q as nat, kk) + ds@.reverse());
            let p = spow(kk, pre.len() as nat);
            assert(spow(kk, ds.len() as nat) == kk * p);
            assert(q * (kk * p) <= m * p) by (nonlinear_arith)
                requires
                    q as nat == (m as nat) / kk,
                    kk >= 2,
                    p >= 1,
            ;
        }
        m = q;
    }
    proof {
        assert(kdigits(0, kk) =~= Seq::<usize>::empty());
        assert(kdigits(c as nat, kk) =~= ds@.reverse());
    }
    let mut r: Vec<usize> = Vec::new();
    let mut i: usize = ds.len();
    while i > 0
        invariant
            i <= ds.len(),
            r@ == ds@.reverse().take((ds.len() - i) as int),
        decreases i,
    {
        i = i - 1;
        r.push(ds[i]);
        proof {
            assert(r@ =~= ds@.reverse().take((ds.len() - i) as int));
        }
    }
    proof {
        assert(ds@.reverse().take(ds.len() as int) =~= ds@.reverse());
    }
    r
}

/// `ds` is a numeration system's canonical word for `c` with its leading
/// zeros removed.
pub open spec fn canonical(ns: NumSys, ds: Seq<usize>, c: u64) -> bool {
    &&& word_over(ds, ns.digits as nat)
    &&& (ds.len() > 0 ==> ds[0] != 0)
    &&& exists|z: nat| #![trigger zeros(z)] {
        let w = zeros(z) + ds;
        &&& 1 <= w.len() <= crate::numsys::MAXLEN + 1
        &&& ((forall|i: int| 0 <= i < w.len() ==> #[trigger] w[i] == 0)
            || (ns.rank(w) == c && ns.vacc@[ns.vrun(w, w.len()) as int]))
    }
}

/// `x = c` for a fixed constant `c`: the one-track automaton accepting the
/// zero paddings of `c`'s canonical digit word. Constants above
/// `MAX_CONSTANT` are refused.
pub fn constant(k: usize, x: &str, c: u64, cx: &Ctx) -> (r: Result<Dfa, String>)
    requires
        2 <= k <= MAX_ALPHA,
        cx.wf(),
        cx.fits(k as nat),
    ensures
        r is Err <==> c > MAX_CONSTANT,
        r matches Err(e) ==> e@ == "constant too large (max 1000000000000)"@,
        r matches Ok(d) ==> {
            &&& d.wf()
            &&& d.k == k
            &&& d.alpha == k
            &&& names(d.vars@) == seq![x@]
            &&& match cx.ns {
                None => forall|w: Seq<usize>| word_over(w, k as nat) ==> #[trigger] d.accepts(w)
                    == padded(w, kdigits(c as nat, k as nat), cx.lsd),
                Some(ns) => exists|ds: Seq<usize>| canonical(ns, ds, c) && forall|w: Seq<usize>| word_over(w, k as nat)
                    ==> #[trigger] d.accepts(w) == padded(w, ds, cx.lsd),
            }
        },
{
    if c > MAX_CONSTANT {
        return Err(crate::strs::str_to_string("constant too large (max 1000000000000)"));
    }
    match &cx.ns {
        None => {
            let ds = base_digits(k, c);
            proof {
                lemma_kdigits(c as nat, k as nat);
            }
            let d = digit_chain(k, x, &ds, cx.lsd);
            let m = d.minimize();
            proof {
                assert forall|w: Seq<usize>| word_over(w, k as nat) implies #[trigger] m.accepts(w)
                    == padded(w, kdigits(c as nat, k as nat), cx.lsd) by {
                    assert(m.accepts(w) == d.accepts(w));
                }
            }
            Ok(m)
        },
        Some(ns) => {
            let rep = ns.rep(c);
            let mut z: usize = 0;
            while z < rep.len() && rep[z] == 0
                invariant
                    z <= rep.len(),
                    forall|i: int| 0 <= i < z ==> #[trigger] rep@[i] == 0,
                decreases rep.len() - z,
            {
                z = z + 1;
            }
            let mut ds: Vec<usize> = Vec::new();
            let mut i: usize = z;
            while i < rep.len()
                invariant
                    z <= i <= rep.len(),
                    ds@ == rep@.subrange(z as int, i as int),
                decreases rep.len() - i,
            {
                ds.push(rep[i]);
                i = i + 1;
                proof {
                    assert(ds@ =~= rep@.subrange(z as int, i as int));
                }
            }
            proof {
                assert(zeros(z as nat) + ds@ =~= rep@);
                assert(word_over(ds@, ns.digits as nat));
                assert(canonical(*ns, ds@, c));
            }
            let d = digit_chain(k, x, &ds, cx.lsd);
            let m = d.minimize();
            proof {
                assert forall|w: Seq<usize>| word_over(w, k as nat) implies #[trigger] m.accepts(w)
                    == padded(w, ds@, cx.lsd) by {
                    assert(m.accepts(w) == d.accepts(w));
                }
            }
            Ok(m)
        },
    }
}
} // verus!
