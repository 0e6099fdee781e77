//! One-track automata recognising a single digit word up to zero padding.
use vstd::prelude::*;
use crate::dfa::{Dfa, State, MAX_ALPHA, spow, table_ok, tstep, trun, word_over, lemma_index};
use crate::quant::{zeros, pad};
use crate::strs::names;

verus! {

/// The digit word as read in the given order (reversed for lsd).
pub open spec fn orient(ds: Seq<usize>, lsd: bool) -> Seq<usize> {
    if lsd {
        ds.reverse()
    } else {
        ds
    }
}

/// `w` is a zero padding of the oriented digit word.
pub open spec fn padded(w: Seq<usize>, ds: Seq<usize>, lsd: bool) -> bool {
    exists|j: nat| w == #[trigger] pad(orient(ds, lsd), j, lsd)
}

/// Successor in the most-significant-first chain of `ds` (state `len + 1` is dead).
pub open spec fn msd_next(ds: Seq<usize>, s: nat, d: nat) -> nat {
    let l = ds.len();
    if s < l && d == ds[s as int] {
        s + 1
    } else if s == 0 && d == 0 {
        0
    } else {
        l + 1
    }
}

/// Successor in the least-significant-first chain of `es` (state `len + 1` is dead).
pub open spec fn lsd_next(es: Seq<usize>, s: nat, d: nat) -> nat {
    let l = es.len();
    if s < l && d == es[s as int] {
        s + 1
    } else if s == l && d == 0 {
        l
    } else {
        l + 1
    }
}

/// `u` is some leading zeros followed by the first `p` digits of `ds`.
pub open spec fn mshape(u: Seq<usize>, ds: Seq<usize>, p: nat) -> bool {
    p <= ds.len() && p <= u.len() && u == zeros((u.len() - p) as nat) + ds.take(p as int)
}

/// `u` is the first `p` digits of `es`, or (for `p` its length) `es` and trailing zeros.
pub open spec fn lshape(u: Seq<usize>, es: Seq<usize>, p: nat) -> bool {
    ||| (p < es.len() && u == es.take(p as int))
    ||| (p == es.len() && es.len() <= u.len() && u == es + zeros((u.len() - es.len()) as nat))
}

/// At most one `p` fits a word, when the digit word does not start with zero.
proof fn lemma_mshape_unique(u: Seq<usize>, ds: Seq<usize>, p: nat, q: nat)
    requires
        ds.len() > 0 ==> ds[0] != 0,
        mshape(u, ds, p),
        mshape(u, ds, q),
    ensures
        p == q,
{
    if p < q {
        let a = (u.len() - q) as int;
        assert(u[a] == ds.take(q as int)[0]);
        assert(u[a] == zeros((u.len() - p) as nat)[a]);
    } else if q < p {
        let a = (u.len() - p) as int;
        assert(u[a] == ds.take(p as int)[0]);
        assert(u[a] == zeros((u.len() - q) as nat)[a]);
    }
}

/// Removing the last letter of a word of the shape `p + 1` (or `0`) gives the shape `p` (or `0`).
proof fn lemma_mshape_back(u: Seq<usize>, ds: Seq<usize>, q: nat)
    requires
        u.len() > 0,
        mshape(u, ds, q),
    ensures
        q >= 1 ==> mshape(u.drop_last(), ds, (q - 1) as nat) && u.last() == ds[q - 1],
        q == 0 ==> mshape(u.drop_last(), ds, 0) && u.last() == 0,
{
    let v = u.drop_last();
    if q >= 1 {
        assert(v =~= zeros((v.len() - (q - 1)) as nat) + ds.take(q - 1));
        assert(u[u.len() - 1] == ds.take(q as int)[q - 1]);
    } else {
        assert(v =~= zeros(v.len()) + ds.take(0));
        assert(u[u.len() - 1] == zeros(u.len())[u.len() - 1]);
    }
}

/// The most-significant-first chain reaches state `p <= len` exactly on the
/// words of shape `p`, and the dead state on the rest.
proof fn lemma_msd_run(t: Seq<State>, k: nat, ds: Seq<usize>, u: Seq<usize>)
    requires
        ds.len() > 0 ==> ds[0] != 0,
        forall|s: nat, d: nat| s < ds.len() + 2 && d < k ==> #[trigger] tstep(t, k, s, d) == msd_next(ds, s, d),
        word_over(u, k),
    ensures
        trun(t, k, 0, u) <= ds.len() ==> mshape(u, ds, trun(t, k, 0, u)),
        trun(t, k, 0, u) <= ds.len() + 1,
        trun(t, k, 0, u) == ds.len() + 1 ==> forall|q: nat| !#[trigger] mshape(u, ds, q),
    decreases u.len(),
{
    let l = ds.len();
    if u.len() == 0 {
        assert(u =~= zeros(0) + ds.take(0));
    } else {
        let v = u.drop_last();
        let d = u.last() as nat;
        assert(word_over(v, k));
        lemma_msd_run(t, k, ds, v);
        let p = trun(t, k, 0, v);
        assert(trun(t, k, 0, u) == tstep(t, k, p, d));
        assert(tstep(t, k, p, d) == msd_next(ds, p, d));
        if p <= l {
            assert(u =~= v.push(u.last()));
            assert(mshape(v, ds, p));
            if p < l && d == ds[p as int] {
                assert(ds.take((p + 1) as int) =~= ds.take(p as int).push(ds[p as int]));
                assert(zeros((u.len() - (p + 1)) as nat) =~= zeros((v.len() - p) as nat));
                assert(u =~= zeros((u.len() - (p + 1)) as nat) + ds.take((p + 1) as int));
            } else if p == 0 && d == 0 {
                assert(ds.take(0) =~= Seq::<usize>::empty());
                assert(v =~= zeros(v.len()));
                assert(zeros(u.len()) =~= zeros(v.len()).push(0));
                assert(u =~= zeros(u.len()) + ds.take(0));
            } else {
                assert forall|q: nat| !#[trigger] mshape(u, ds, q) by {
                    if mshape(u, ds, q) {
                        lemma_mshape_back(u, ds, q);
                        if q >= 1 {
                            lemma_mshape_unique(v, ds, p, (q - 1) as nat);
                        } else {
                            lemma_mshape_unique(v, ds, p, 0);
                        }
                    }
                }
            }
        } else {
            assert forall|q: nat| !#[trigger] mshape(u, ds, q) by {
                if mshape(u, ds, q) {
                    lemma_mshape_back(u, ds, q);
                    if q >= 1 {
                        assert(mshape(v, ds, (q - 1) as nat));
                    } else {
                        assert(mshape(v, ds, 0));
                    }
                }
            }
        }
    }
}

/// At most one `p` fits a word.
proof fn lemma_lshape_unique(u: Seq<usize>, es: Seq<usize>, p: nat, q: nat)
    requires
        lshape(u, es, p),
        lshape(u, es, q),
    ensures
        p == q,
{
    if p < es.len() {
        assert(u.len() == p);
    }
    if q < es.len() {
        assert(u.len() == q);
    }
}

/// The least-significant-first chain reaches state `p <= len` exactly on the
/// words of shape `p`, and the dead state on the rest.
proof fn lemma_lsd_run(t: Seq<State>, k: nat, es: Seq<usize>, u: Seq<usize>)
    requires
        forall|s: nat, d: nat| s < es.len() + 2 && d < k ==> #[trigger] tstep(t, k, s, d) == lsd_next(es, s, d),
        word_over(u, k),
    ensures
        trun(t, k, 0, u) <= es.len() ==> lshape(u, es, trun(t, k, 0, u)),
        trun(t, k, 0, u) <= es.len() + 1,
        trun(t, k, 0, u) == es.len() + 1 ==> forall|q: nat| !#[trigger] lshape(u, es, q),
    decreases u.len(),
{
    let l = es.len();
    if u.len() == 0 {
        if l == 0 {
            assert(u =~= es + zeros(0));
        } else {
            assert(u =~= es.take(0));
        }
    } else {
        let v = u.drop_last();
        let d = u.last() as nat;
        assert(word_over(v, k));
        lemma_lsd_run(t, k, es, v);
        let p = trun(t, k, 0, v);
        assert(trun(t, k, 0, u) == tstep(t, k, p, d));
        assert(tstep(t, k, p, d) == lsd_next(es, p, d));
        assert(u =~= v.push(u.last()));
        if p <= l && p < l && d == es[p as int] {
            assert(v =~= es.take(p as int));
            assert(es.take((p + 1) as int) =~= es.take(p as int).push(es[p as int]));
            if p + 1 < l {
                assert(u =~= es.take((p + 1) as int));
            } else {
                assert(es.take((p + 1) as int) =~= es);
                assert(u =~= es + zeros(0));
            }
        } else if p == l && d == 0 {
            assert(v =~= es + zeros((v.len() - l) as nat));
            assert(zeros((u.len() - l) as nat) =~= zeros((v.len() - l) as nat).push(0));
            assert(u =~= es + zeros((u.len() - l) as nat));
        } else {
            assert forall|q: nat| !#[trigger] lshape(u, es, q) by {
                if lshape(u, es, q) {
                    if q < l {
                        assert(u.len() == q);
                        assert(q >= 1);
                        assert(v =~= es.take(q - 1));
                        assert(lshape(v, es, (q - 1) as nat));
                        assert(u[q - 1] == es[q - 1]);
                        if p <= l {
                            lemma_lshape_unique(v, es, p, (q - 1) as nat);
                        }
                    } else if u.len() > l {
                        assert(v =~= es + zeros((v.len() - l) as nat));
                        assert(lshape(v, es, l));
                        assert(u[u.len() - 1] == zeros((u.len() - l) as nat)[u.len() - 1 - l]);
                        if p <= l {
                            lemma_lshape_unique(v, es, p, l);
                        }
                    } else {
                        assert(u =~= es);
                        assert(v =~= es.take(l - 1));
                        assert(lshape(v, es, (l - 1) as nat));
                        assert(u[l - 1] == es[l - 1]);
                        if p <= l {
                            lemma_lshape_unique(v, es, p, (l - 1) as nat);
                        }
                    }
                }
            }
        }
    }
}

/// The successor in the chain, computed.
fn chain_next(ds: &Vec<usize>, s: usize, d: usize, lsd: bool) -> (r: usize)
    requires
        ds.len() < usize::MAX - 2,
    ensures
        lsd ==> r == lsd_next(ds@.reverse(), s as nat, d as nat),
        !lsd ==> r == msd_next(ds@, s as nat, d as nat),
{
    let l = ds.len();
    if lsd {
        if s < l && d == ds[l - 1 - s] {
            s + 1
        } else if s == l && d == 0 {
            l
        } else {
            l + 1
        }
    } else {
        if s < l && d == ds[s] {
            s + 1
        } else if s == 0 && d == 0 {
            0
        } else {
            l + 1
        }
    }
}

/// The one-track automaton over `x` accepting exactly the zero paddings of
/// the digit word `ds` (most significant digit first, no leading zero) read
/// in the given order.
pub fn digit_chain(k: usize, x: &str, ds: &Vec<usize>, lsd: bool) -> (r: Dfa)
    requires
        2 <= k <= MAX_ALPHA,
        ds.len() <= 128,
        word_over(ds@, k as nat),
        ds.len() > 0 ==> ds@[0] != 0,
    ensures
        r.wf(),
        r.k == k,
        r.alpha == k,
        names(r.vars@) == seq![x@],
        forall|w: Seq<usize>| word_over(w, k as nat) ==> #[trigger] r.accepts(w) == padded(w, ds@, lsd),
{
    let l = ds.len();
    let n = l + 2;
    let ghost kk = k as nat;
    let mut trans: Vec<State> = Vec::new();
    let mut s: usize = 0;
    while s < n
        invariant
            2 <= k <= MAX_ALPHA,
            kk == k,
            l == ds.len(),
            l <= 128,
            n == l + 2,
            s <= n,
            trans@.len() == s * k,
            forall|i: int| 0 <= i < trans@.len() ==> (#[trigger] trans@[i] as nat) < n,
            forall|a: nat, e: nat| a < s && e < k ==> #[trigger] tstep(trans@, kk, a, e)
                == if lsd { lsd_next(ds@.reverse(), a, e) } else { msd_next(ds@, a, e) },
        decreases n - s,
    {
        let mut d: usize = 0;
        while d < k
            invariant
                2 <= k <= MAX_ALPHA,
                kk == k,
                l == ds.len(),
                l <= 128,
                n == l + 2,
                s < n,
                d <= k,
                trans@.len() == s * k + d,
                forall|i: int| 0 <= i < trans@.len() ==> (#[trigger] trans@[i] as nat) < n,
                forall|a: nat, e: nat| (a < s && e < k) || (a == s && e < d) ==> #[trigger] tstep(trans@, kk, a, e)
                    == if lsd { lsd_next(ds@.reverse(), a, e) } else { msd_next(ds@, a, e) },
            decreases k - d,
        {
            let nx = chain_next(ds, s, d, lsd);
            let ghost pre = trans@;
            trans.push(nx as u32);
            proof {
                assert forall|a: nat, e: nat| (a < s && e < k) || (a == s && e < d + 1) implies #[trigger] tstep(trans@, kk, a, e)
                    == if lsd { lsd_next(ds@.reverse(), a, e) } else { msd_next(ds@, a, e) } by {
                    if a == s && e == d {
                        assert(a * k + e == pre.len());
                    } else {
                        if a < s {
                            lemma_index(a, e, s as nat, kk);
                        } else {
                            assert(a * k + e < a * k + d);
                        }
                        assert(a * k + e < pre.len());
                        assert(tstep(trans@, kk, a, e) == tstep(pre, kk, a, e));
                    }
                }
            }
            d = d + 1;
        }
        proof {
            assert(trans@.len() == (s + 1) * k) by (nonlinear_arith)
                requires
                    trans@.len() == s * k + k,
            ;
        }
        s = s + 1;
    }
    let mut accept: Vec<bool> = Vec::new();
    let mut q: usize = 0;
    while q < n
        invariant
            q <= n,
            n == l + 2,
            accept@.len() == q,
            forall|i: int| 0 <= i < q ==> #[trigger] accept@[i] == (i == l),
        decreases n - q,
    {
        accept.push(q == l);
        q = q + 1;
    }
    let vs: Vec<String> = vec![crate::strs::str_to_string(x)];
    proof {
        assert(spow(kk, 0) == 1);
        assert(spow(kk, 1) == kk * spow(kk, 0));
        assert(names(vs@) =~= seq![x@]);
    }
    let r = Dfa::new(k, vs, n, trans, accept);
    proof {
        assert forall|w: Seq<usize>| word_over(w, kk) implies #[trigger] r.accepts(w) == padded(w, ds@, lsd) by {
            let st = trun(r.trans@, kk, 0, w);
            if lsd {
                let es = ds@.reverse();
                lemma_lsd_run(r.trans@, kk, es, w);
                if st == l {
                    let j = (w.len() - l) as nat;
                    assert(w == pad(orient(ds@, lsd), j, lsd));
                } else if padded(w, ds@, lsd) {
                    let j = choose|j: nat| w == #[trigger] pad(orient(ds@, lsd), j, lsd);
                    assert(lshape(w, es, l as nat));
                    if st < l {
                        lemma_lshape_unique(w, es, st, l as nat);
                    }
                }
            } else {
                lemma_msd_run(r.trans@, kk, ds@, w);
                if st == l {
                    let j = (w.len() - l) as nat;
                    assert(ds@.take(l as int) =~= ds@);
                    assert(w == pad(orient(ds@, lsd), j, lsd));
                } else if padded(w, ds@, lsd) {
                    let j = choose|j: nat| w == #[trigger] pad(orient(ds@, lsd), j, lsd);
                    assert(ds@.take(l as int) =~= ds@);
                    assert(mshape(w, ds@, l as nat));
                    if st < l {
                        lemma_mshape_unique(w, ds@, st, l as nat);
                    }
                }
            }
        }
    }
    r
}
} // verus!
