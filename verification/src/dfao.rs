//! Deterministic finite automata with output: the k-automatic sequences.
use vstd::prelude::*;
use crate::dfa::{Dfa, State, MAX_ALPHA, spow, table_ok, tstep, trun, word_over, lemma_trun, lemma_tstep, lemma_index, lemma_trun_concat};
use crate::product::proj_word;
use crate::strs::{names, seq_lt};
use crate::nfa::Subsets;

verus! {

/// The base-`k` digits of `n`, most significant first, without leading zeros.
pub open spec fn kdigits(n: nat, k: nat) -> Seq<usize>
    decreases n,
{
    if k < 2 || n == 0 {
        seq![]
    } else {
        proof {
            assert(n / k < n) by (nonlinear_arith)
                requires
                    k >= 2,
                    n > 0,
            ;
        }
        kdigits(n / k, k).push((n % k) as usize)
    }
}

/// Largest transition monoid the digit-order conversion builds.
pub const MONOID_CAP: usize = 2000000;

/// The map sending each state `q < m` to the state reached from `q` by reading
/// `u` backwards, most significant digit first.
pub open spec fn gfun(trans: Seq<State>, k: nat, m: nat, u: Seq<usize>) -> Seq<u64> {
    Seq::new(m, |q: int| trun(trans, k, q as nat, u.reverse()) as u64)
}

/// At least `MONOID_CAP` digit words give pairwise different maps.
pub open spec fn monoid_large(trans: Seq<State>, k: nat, m: nat) -> bool {
    exists|ws: Seq<Seq<usize>>|
        #![trigger ws.len()]
        ws.len() >= MONOID_CAP && (forall|i: int| 0 <= i < ws.len() ==> word_over(#[trigger] ws[i], k))
            && (forall|i: int, j: int| 0 <= i < j < ws.len() ==> gfun(trans, k, m, #[trigger] ws[i]) != gfun(trans, k, m, #[trigger] ws[j]))
}

/// Appending a (more significant) digit `d` composes the map with the step on `d`.
pub proof fn lemma_gfun_push(trans: Seq<State>, k: nat, m: nat, u: Seq<usize>, d: usize)
    requires
        table_ok(trans, m, k),
        m <= u32::MAX,
        word_over(u, k),
        (d as nat) < k,
    ensures
        forall|q: nat| q < m ==> (#[trigger] gfun(trans, k, m, u.push(d))[q as int]) as nat
            == trun(trans, k, tstep(trans, k, q, d as nat), u.reverse()),
        forall|q: nat| q < m ==> #[trigger] tstep(trans, k, q, d as nat) < m,
        forall|q: nat| q < m ==> (#[trigger] gfun(trans, k, m, u)[q as int]) as nat == trun(trans, k, q, u.reverse()),
        forall|q: nat| q < m ==> (gfun(trans, k, m, u)[q as int] as nat) < m,
{
    assert(u.push(d).reverse() =~= seq![d] + u.reverse());
    assert forall|q: nat| q < m implies (#[trigger] gfun(trans, k, m, u.push(d))[q as int]) as nat
        == trun(trans, k, tstep(trans, k, q, d as nat), u.reverse()) by {
        lemma_trun_concat(trans, k, q, seq![d], u.reverse());
        assert(seq![d].drop_last() =~= Seq::<usize>::empty());
        assert(seq![d].last() == d);
        assert(trun(trans, k, q, Seq::<usize>::empty()) == q);
        assert(trun(trans, k, q, seq![d]) == tstep(trans, k, q, d as nat));
        lemma_tstep(trans, m, k, q, d as nat);
        assert(word_over(u.reverse(), k));
        lemma_trun(trans, m, k, tstep(trans, k, q, d as nat), u.reverse());
        let t = trun(trans, k, tstep(trans, k, q, d as nat), u.reverse());
        assert(trun(trans, k, q, u.push(d).reverse()) == t);
        lemma_u64_fits(t, m);
        assert(gfun(trans, k, m, u.push(d))[q as int] == t as u64);
    }
    assert forall|q: nat| q < m implies #[trigger] tstep(trans, k, q, d as nat) < m by {
        lemma_tstep(trans, m, k, q, d as nat);
    }
    assert forall|q: nat| q < m implies (#[trigger] gfun(trans, k, m, u)[q as int]) as nat == trun(trans, k, q, u.reverse())
        && (gfun(trans, k, m, u)[q as int] as nat) < m by {
        assert(word_over(u.reverse(), k));
        lemma_trun(trans, m, k, q, u.reverse());
        lemma_u64_fits(trun(trans, k, q, u.reverse()), m);
    }
}

/// A state below a table's size fits in a `u64`.
proof fn lemma_u64_fits(x: nat, m: nat)
    requires
        x < m,
        m <= u32::MAX,
    ensures
        x as u64 == x,
{
}

/// Reading `u` least significant digit first through the monoid table `lt`
/// reaches an element whose map is the map of `u`.
proof fn lemma_lsd_run(
    trans: Seq<State>,
    k: nat,
    m: nat,
    lt: Seq<State>,
    n: nat,
    ws: Seq<Seq<usize>>,
    u: Seq<usize>,
)
    requires
        table_ok(trans, m, k),
        m <= u32::MAX,
        table_ok(lt, n, k),
        ws.len() == n,
        n >= 1,
        gfun(trans, k, m, ws[0]) == gfun(trans, k, m, seq![]),
        forall|j: int| 0 <= j < n ==> word_over(#[trigger] ws[j], k),
        forall|j: nat, d: nat| j < n && d < k ==> gfun(trans, k, m, ws[#[trigger] tstep(lt, k, j, d) as int])
            == gfun(trans, k, m, ws[j as int].push(d as usize)),
        word_over(u, k),
    ensures
        trun(lt, k, 0, u) < n,
        gfun(trans, k, m, ws[trun(lt, k, 0, u) as int]) == gfun(trans, k, m, u),
    decreases u.len(),
{
    lemma_trun(lt, n, k, 0, u);
    if u.len() == 0 {
        assert(u =~= seq![]);
    } else {
        let v = u.drop_last();
        let d = u.last();
        assert(word_over(v, k));
        lemma_lsd_run(trans, k, m, lt, n, ws, v);
        let j = trun(lt, k, 0, v);
        assert(u =~= v.push(d));
        assert(trun(lt, k, 0, u) == tstep(lt, k, j, d as nat));
        assert(gfun(trans, k, m, ws[tstep(lt, k, j, d as nat) as int]) == gfun(trans, k, m, ws[j as int].push(d)));
        lemma_gfun_push(trans, k, m, ws[j as int], d);
        lemma_gfun_push(trans, k, m, v, d);
        assert(gfun(trans, k, m, ws[j as int].push(d)) =~= gfun(trans, k, m, v.push(d))) by {
            assert forall|q: int| 0 <= q < m implies gfun(trans, k, m, ws[j as int].push(d))[q] == gfun(trans, k, m, v.push(d))[q] by {
                let qn = q as nat;
                let t = tstep(trans, k, qn, d as nat);
                assert(gfun(trans, k, m, ws[j as int].push(d))[qn as int] as nat == trun(trans, k, t, ws[j as int].reverse()));
                assert(gfun(trans, k, m, v.push(d))[qn as int] as nat == trun(trans, k, t, v.reverse()));
                assert(t < m);
                assert(gfun(trans, k, m, ws[j as int])[t as int] == gfun(trans, k, m, v)[t as int]);
                assert(gfun(trans, k, m, ws[j as int])[t as int] as nat == trun(trans, k, t, ws[j as int].reverse()));
                assert(gfun(trans, k, m, v)[t as int] as nat == trun(trans, k, t, v.reverse()));
            }
        }
    }
}

/// The least-significant-digit-first form of a sequence given most significant
/// digit first: its states are the maps `q -> delta*(q, reverse(u))` over the
/// words `u` read so far (the transition monoid), found breadth first. Fails
/// when the monoid reaches `MONOID_CAP` elements.
fn build_lsd(k: usize, m: usize, trans: &Vec<State>, out: &Vec<u8>) -> (r: Result<(usize, Vec<State>, Vec<u8>), String>)
    requires
        1 <= k <= crate::dfa::MAX_ALPHA,
        1 <= m <= u32::MAX,
        table_ok(trans@, m as nat, k as nat),
        out@.len() == m,
    ensures
        r matches Ok((n, lt, lo)) ==> 1 <= n < MONOID_CAP + k && table_ok(lt@, n as nat, k as nat) && lo@.len() == n
            && (forall|u: Seq<usize>| word_over(u, k as nat) ==> #[trigger] lo@[trun(lt@, k as nat, 0, u) as int]
                == out@[trun(trans@, k as nat, 0, u.reverse()) as int])
            && (tstep(trans@, k as nat, 0, 0) == 0 ==> forall|q: nat| q < n ==> #[trigger] lo@[tstep(lt@, k as nat, q, 0) as int]
                == lo@[q as int]),
        r is Err ==> monoid_large(trans@, k as nat, m as nat),
{
    let ghost kk = k as nat;
    let ghost mm = m as nat;
    let mut id: Vec<u64> = Vec::new();
    let mut q: usize = 0;
    while q < m
        invariant
            q <= m,
            m <= u32::MAX,
            id@.len() == q,
            forall|x: int| 0 <= x < q ==> id@[x] == x as u64,
        decreases m - q,
    {
        id.push(q as u64);
        q = q + 1;
    }
    proof {
        assert(id@ =~= gfun(trans@, kk, mm, seq![])) by {
            assert forall|x: int| 0 <= x < m implies id@[x] == gfun(trans@, kk, mm, seq![])[x] by {
                assert(Seq::<usize>::empty().reverse() =~= Seq::<usize>::empty());
            }
        }
    }
    let mut sub = Subsets::new(id);
    let ghost mut ws: Seq<Seq<usize>> = seq![seq![]];
    let mut lt: Vec<State> = Vec::new();
    let mut i: usize = 0;
    while i < sub.order.len()
        invariant
            1 <= k <= crate::dfa::MAX_ALPHA,
            1 <= m <= u32::MAX,
            kk == k,
            mm == m,
            table_ok(trans@, mm, kk),
            sub.wf(),
            1 <= sub.order.len() < MONOID_CAP,
            i <= sub.order.len(),
            ws.len() == sub.order.len(),
            ws[0] == Seq::<usize>::empty(),
            forall|j: int| 0 <= j < ws.len() ==> word_over(#[trigger] ws[j], kk),
            forall|j: int| 0 <= j < ws.len() ==> #[trigger] sub.order@[j]@ == gfun(trans@, kk, mm, ws[j]),
            lt@.len() == i * k,
            forall|x: int| 0 <= x < lt@.len() ==> (#[trigger] lt@[x] as int) < sub.order.len(),
            forall|j: nat, d: nat| j < i && d < k ==> gfun(trans@, kk, mm, ws[#[trigger] tstep(lt@, kk, j, d) as int])
                == gfun(trans@, kk, mm, ws[j as int].push(d as usize)),
        decreases MONOID_CAP - i,
    {
        let g = sub.order[i].clone();
        proof {
            assert(g@ == gfun(trans@, kk, mm, ws[i as int]));
            lemma_gfun_push(trans@, kk, mm, ws[i as int], 0);
        }
        let mut d: usize = 0;
        while d < k
            invariant
                1 <= k <= crate::dfa::MAX_ALPHA,
                1 <= m <= u32::MAX,
                kk == k,
                mm == m,
                table_ok(trans@, mm, kk),
                sub.wf(),
                1 <= sub.order.len() < MONOID_CAP + d,
                i < sub.order.len(),
                d <= k,
                g@ == gfun(trans@, kk, mm, ws[i as int]),
                ws.len() == sub.order.len(),
                ws[0] == Seq::<usize>::empty(),
                forall|j: int| 0 <= j < ws.len() ==> word_over(#[trigger] ws[j], kk),
                forall|j: int| 0 <= j < ws.len() ==> #[trigger] sub.order@[j]@ == gfun(trans@, kk, mm, ws[j]),
                lt@.len() == i * k + d,
                forall|x: int| 0 <= x < lt@.len() ==> (#[trigger] lt@[x] as int) < sub.order.len(),
                forall|j: nat, e: nat| (j < i && e < k) || (j == i && e < d) ==> gfun(trans@, kk, mm, ws[#[trigger] tstep(lt@, kk, j, e) as int])
                    == gfun(trans@, kk, mm, ws[j as int].push(e as usize)),
            decreases k - d,
        {
            proof {
                lemma_gfun_push(trans@, kk, mm, ws[i as int], d);
            }
            let mut ng: Vec<u64> = Vec::new();
            let mut q: usize = 0;
            while q < m
                invariant
                    1 <= k <= crate::dfa::MAX_ALPHA,
                    1 <= m <= u32::MAX,
                    d < k,
                    table_ok(trans@, m as nat, k as nat),
                    g@.len() == m,
                    forall|x: int| 0 <= x < m ==> (#[trigger] g@[x] as nat) < m,
                    q <= m,
                    ng@.len() == q,
                    forall|x: int| 0 <= x < q ==> #[trigger] ng@[x] == g@[tstep(trans@, k as nat, x as nat, d as nat) as int],
                decreases m - q,
            {
                proof {
                    lemma_index(q as nat, d as nat, m as nat, k as nat);
                    lemma_tstep(trans@, m as nat, k as nat, q as nat, d as nat);
                }
                assert(q * k + d < trans.len());
                let t = trans[q * k + d] as usize;
                ng.push(g[t]);
                q = q + 1;
            }
            proof {
                assert(ng@ =~= gfun(trans@, kk, mm, ws[i as int].push(d))) by {
                    assert forall|x: int| 0 <= x < m implies ng@[x] == gfun(trans@, kk, mm, ws[i as int].push(d))[x] by {
                        let xn = x as nat;
                        let t = tstep(trans@, kk, xn, d as nat);
                        assert(g@[t as int] as nat == trun(trans@, kk, t, ws[i as int].reverse()));
                    }
                }
            }
            let ghost pre_len = sub.order.len();
            let ghost pre_lt = lt@;
            let (nid, fresh) = sub.intern(ng);
            proof {
                if fresh {
                    ws = ws.push(ws[i as int].push(d));
                    assert(word_over(ws[ws.len() - 1], kk));
                } else {
                    assert(sub.order@[nid as int]@ == gfun(trans@, kk, mm, ws[i as int].push(d)));
                }
            }
            lt.push(nid);
            proof {
                assert forall|j: nat, e: nat| (j < i && e < k) || (j == i && e < d + 1) implies gfun(trans@, kk, mm, ws[#[trigger] tstep(lt@, kk, j, e) as int])
                    == gfun(trans@, kk, mm, ws[j as int].push(e as usize)) by {
                    if j == i && e == d {
                        assert(j * k + e == pre_lt.len());
                        assert(tstep(lt@, kk, j, e) == nid);
                    } else {
                        if j < i {
                            lemma_index(j, e, i as nat, kk);
                        } else {
                            assert(j * k + e < j * k + d);
                        }
                        assert(j * k + e < pre_lt.len());
                        assert(tstep(lt@, kk, j, e) == tstep(pre_lt, kk, j, e));
                    }
                }
                assert(lt@.len() == i * k + (d + 1));
            }
            d = d + 1;
        }
        proof {
            assert(lt@.len() == (i + 1) * k) by (nonlinear_arith)
                requires
                    lt@.len() == i * k + k,
            ;
        }
        i = i + 1;
        if sub.order.len() >= MONOID_CAP {
            proof {
                assert(ws.len() >= MONOID_CAP);
                assert forall|a: int, b: int| 0 <= a < b < ws.len() implies gfun(trans@, kk, mm, #[trigger] ws[a])
                    != gfun(trans@, kk, mm, #[trigger] ws[b]) by {
                    assert(sub.order@[a]@ != sub.order@[b]@);
                }
            }
            return Err(crate::strs::str_to_string("transition monoid too large"));
        }
    }
    let n = sub.order.len();
    let mut lo: Vec<u8> = Vec::new();
    let mut j: usize = 0;
    while j < n
        invariant
            n == sub.order.len(),
            1 <= k,
            1 <= m <= u32::MAX,
            mm == m,
            kk == k,
            table_ok(trans@, mm, kk),
            out@.len() == m,
            ws.len() == n,
            forall|x: int| 0 <= x < ws.len() ==> word_over(#[trigger] ws[x], kk),
            forall|x: int| 0 <= x < ws.len() ==> #[trigger] sub.order@[x]@ == gfun(trans@, kk, mm, ws[x]),
            j <= n,
            lo@.len() == j,
            forall|x: int| 0 <= x < j ==> #[trigger] lo@[x] == out@[gfun(trans@, kk, mm, ws[x])[0] as int],
        decreases n - j,
    {
        proof {
            lemma_gfun_push(trans@, kk, mm, ws[j as int], 0);
        }
        let e = sub.order[j][0] as usize;
        lo.push(out[e]);
        j = j + 1;
    }
    proof {
        assert(table_ok(lt@, n as nat, kk));
        assert forall|u: Seq<usize>| word_over(u, kk) implies #[trigger] lo@[trun(lt@, kk, 0, u) as int]
            == out@[trun(trans@, kk, 0, u.reverse()) as int] by {
            lemma_lsd_run(trans@, kk, mm, lt@, n as nat, ws, u);
            let x = trun(lt@, kk, 0, u);
            lemma_gfun_push(trans@, kk, mm, u, 0);
            lemma_gfun_push(trans@, kk, mm, ws[x as int], 0);
        }
        if tstep(trans@, kk, 0, 0) == 0 {
            assert forall|q: nat| q < n implies #[trigger] lo@[tstep(lt@, kk, q, 0) as int] == lo@[q as int] by {
                lemma_tstep(lt@, n as nat, kk, q, 0);
                let t = tstep(lt@, kk, q, 0);
                lemma_gfun_push(trans@, kk, mm, ws[q as int], 0);
                assert(gfun(trans@, kk, mm, ws[t as int]) == gfun(trans@, kk, mm, ws[q as int].push(0)));
                assert(gfun(trans@, kk, mm, ws[q as int].push(0))[0] as nat == trun(trans@, kk, 0, ws[q as int].reverse()));
            }
        }
    }
    Ok((n, lt, lo))
}

/// Exchange the letters `start` and `0`, fixing the others.
pub open spec fn swap_spec(a: nat, start: nat) -> nat {
    if a == start {
        0
    } else if a == 0 {
        start
    } else {
        a
    }
}

/// `m` words, each of length `k`.
pub open spec fn shape_ok(sigma: Seq<Vec<u8>>, m: nat, k: nat) -> bool {
    sigma.len() == m && forall|a: int| 0 <= a < m ==> (#[trigger] sigma[a])@.len() == k
}

/// The letter at position `n` of the fixed point of `sigma` that starts with `start`.
pub open spec fn fixpoint(sigma: Seq<Vec<u8>>, start: nat, k: nat, n: nat) -> nat
    decreases n,
{
    if k < 2 || n == 0 {
        start
    } else {
        proof {
            assert(n / k < n) by (nonlinear_arith)
                requires
                    k >= 2,
                    n > 0,
            ;
        }
        sigma[fixpoint(sigma, start, k, n / k) as int]@[(n % k) as int] as nat
    }
}

/// The table of the morphism with `start` and `0` exchanged, so that the start
/// letter becomes state `0`.
pub open spec fn morph_table(t: Seq<State>, sigma: Seq<Vec<u8>>, start: nat, k: nat, m: nat) -> bool {
    &&& table_ok(t, m, k)
    &&& forall|a: nat, d: nat| a < m && d < k ==> #[trigger] tstep(t, k, a, d)
        == swap_spec(sigma[swap_spec(a, start) as int]@[d as int] as nat, start)
}

/// Reading the digits of `n` from state `0` reaches the (relabelled) letter
/// of the fixed point at `n`.
proof fn lemma_morph_run(t: Seq<State>, sigma: Seq<Vec<u8>>, start: nat, k: nat, m: nat, n: nat)
    requires
        2 <= k <= crate::dfa::MAX_ALPHA,
        start < m,
        morph_table(t, sigma, start, k, m),
        shape_ok(sigma, m, k),
        forall|a: int, d: int| 0 <= a < m && 0 <= d < k ==> (#[trigger] sigma[a]@[d] as nat) < m,
    ensures
        trun(t, k, 0, kdigits(n, k)) == swap_spec(fixpoint(sigma, start, k, n), start),
        fixpoint(sigma, start, k, n) < m,
    decreases n,
{
    if n > 0 {
        let q = n / k;
        assert(q < n) by (nonlinear_arith)
            requires
                k >= 2,
                n > 0,
                q == n / k,
        ;
        lemma_morph_run(t, sigma, start, k, m, q);
        let w = kdigits(n, k);
        assert(w.drop_last() =~= kdigits(q, k));
        let f = fixpoint(sigma, start, k, q);
        let d = n % k;
        assert(swap_spec(swap_spec(f, start), start) == f);
        assert(tstep(t, k, swap_spec(f, start), d) == swap_spec(sigma[f as int]@[d as int] as nat, start));
        assert(d < k) by (nonlinear_arith)
            requires
                k >= 2,
                d == n % k,
        ;
        assert((d as usize) as nat == d);
        assert(w == kdigits(q, k).push(d as usize));
        assert(w.last() == d as usize);
        assert(trun(t, k, 0, w) == tstep(t, k, trun(t, k, 0, w.drop_last()), d));
        assert(fixpoint(sigma, start, k, n) == sigma[f as int]@[d as int] as nat);
        assert(d < k) by (nonlinear_arith)
            requires
                k >= 2,
                d == n % k,
        ;
    } else {
        assert(kdigits(n, k) =~= Seq::<usize>::empty());
    }
}

/// The two digits of a letter over a pair of base-`k` tracks.
proof fn lemma_pair_digits(c: nat, k: nat)
    requires
        k >= 1,
        c < k * k,
    ensures
        crate::product::sym_proj(c, seq![0nat], k) == c % k,
        crate::product::sym_proj(c, seq![1nat], k) == c / k,
        c / k < k,
        c % k < k,
{
    assert(seq![0nat].drop_last() =~= Seq::<nat>::empty());
    assert(seq![1nat].drop_last() =~= Seq::<nat>::empty());
    assert(spow(k, 0) == 1);
    assert(spow(k, 1) == k * spow(k, 0));
    assert(crate::product::sym_proj(c, Seq::<nat>::empty(), k) == 0);
    assert(crate::dfa::sdigit(c, 0, k) == (c / 1) % k);
    assert(crate::dfa::sdigit(c, 1, k) == (c / k) % k);
    assert(crate::product::sym_proj(c, seq![0nat], k) == crate::product::sym_proj(c, Seq::<nat>::empty(), k)
        + crate::dfa::sdigit(c, 0, k) * spow(k, 0));
    assert(crate::product::sym_proj(c, seq![1nat], k) == crate::product::sym_proj(c, Seq::<nat>::empty(), k)
        + crate::dfa::sdigit(c, 1, k) * spow(k, 0));
    assert(c / k < k) by (nonlinear_arith)
        requires
            k >= 1,
            c < k * k,
    ;
    assert(c % k < k) by (nonlinear_arith)
        requires
            k >= 1,
    ;
    assert((c / k) % k == c / k) by (nonlinear_arith)
        requires
            k >= 1,
            c / k < k,
    ;
    assert(c / 1 == c);
}

/// The pair table moves each track through `tr`: state `p * n + q` goes on
/// letter `a + b * k` to `tr(p, a) * n + tr(q, b)`.
pub open spec fn pair_ok(t: Seq<State>, tr: Seq<State>, k: nat, n: nat) -> bool {
    forall|s: nat, c: nat| s < n * n && c < k * k ==> #[trigger] tstep(t, k * k, s, c)
        == tstep(tr, k, s / n, c % k) * n + tstep(tr, k, s % n, c / k)
}

/// Running the pair table runs `tr` on each track.
proof fn lemma_pair_run(t: Seq<State>, tr: Seq<State>, k: nat, n: nat, w: Seq<usize>)
    requires
        1 <= k <= MAX_ALPHA,
        n >= 1,
        table_ok(tr, n, k),
        pair_ok(t, tr, k, n),
        word_over(w, k * k),
    ensures
        trun(t, k * k, 0, w) == trun(tr, k, 0, proj_word(w, seq![0nat], k)) * n + trun(tr, k, 0, proj_word(w, seq![1nat], k)),
        word_over(proj_word(w, seq![0nat], k), k),
        word_over(proj_word(w, seq![1nat], k), k),
    decreases w.len(),
{
    let w0 = proj_word(w, seq![0nat], k);
    let w1 = proj_word(w, seq![1nat], k);
    assert forall|i: int| 0 <= i < w.len() implies (#[trigger] w0[i] as nat) < k && w0[i] as nat == (w[i] as nat) % k by {
        lemma_pair_digits(w[i] as nat, k);
        assert(w0[i] == crate::product::sym_proj(w[i] as nat, seq![0nat], k) as usize);
    }
    assert forall|i: int| 0 <= i < w.len() implies (#[trigger] w1[i] as nat) < k && w1[i] as nat == (w[i] as nat) / k by {
        lemma_pair_digits(w[i] as nat, k);
        assert(w1[i] == crate::product::sym_proj(w[i] as nat, seq![1nat], k) as usize);
    }
    if w.len() == 0 {
        assert(w0 =~= Seq::<usize>::empty());
        assert(w1 =~= Seq::<usize>::empty());
    } else {
        let v = w.drop_last();
        let c = w.last() as nat;
        lemma_pair_run(t, tr, k, n, v);
        let v0 = proj_word(v, seq![0nat], k);
        let v1 = proj_word(v, seq![1nat], k);
        assert(w0.drop_last() =~= v0);
        assert(w1.drop_last() =~= v1);
        let p = trun(tr, k, 0, v0);
        let q = trun(tr, k, 0, v1);
        lemma_trun(tr, n, k, 0, v0);
        lemma_trun(tr, n, k, 0, v1);
        let st = p * n + q;
        assert(st < n * n) by (nonlinear_arith)
            requires
                p < n,
                q < n,
                st == p * n + q,
        ;
        vstd::arithmetic::div_mod::lemma_fundamental_div_mod_converse(st as int, n as int, p as int, q as int);
        assert(c < k * k);
        assert(w0.last() as nat == c % k);
        assert(w1.last() as nat == c / k);
        assert(st / n == p);
        assert(st % n == q);
        assert(trun(t, k * k, 0, w) == tstep(t, k * k, trun(t, k * k, 0, v), c));
        assert(tstep(t, k * k, st, c) == tstep(tr, k, st / n, c % k) * n + tstep(tr, k, st % n, c / k));
        assert(trun(tr, k, 0, w0) == tstep(tr, k, p, c % k));
        assert(trun(tr, k, 0, w1) == tstep(tr, k, q, c / k));
    }
}

/// A base-`k` automatic sequence: the output of the state reached by reading a
/// position's digits. It is kept in both digit orders (`trans`/`out` read the
/// most significant digit first, `ltrans`/`lout` the least significant first).
pub struct Dfao {
    pub k: usize,
    pub nstates: usize,
    pub trans: Vec<State>,
    pub out: Vec<u8>,
    pub name: String,
    pub lnstates: usize,
    pub ltrans: Vec<State>,
    pub lout: Vec<u8>,
}

impl Dfao {
    /// Output after reading `w` most significant digit first.
    pub open spec fn msd_out(&self, w: Seq<usize>) -> u8 {
        self.out@[trun(self.trans@, self.k as nat, 0, w) as int]
    }

    /// Output after reading `w` least significant digit first.
    pub open spec fn lsd_out(&self, w: Seq<usize>) -> u8 {
        self.lout@[trun(self.ltrans@, self.k as nat, 0, w) as int]
    }

    /// Output after reading `w` in the given digit order.
    pub open spec fn out_at(&self, lsd: bool, w: Seq<usize>) -> u8 {
        if lsd {
            self.lsd_out(w)
        } else {
            self.msd_out(w)
        }
    }

    /// The `n`-th term of the sequence.
    pub open spec fn term(&self, n: nat) -> u8 {
        self.msd_out(kdigits(n, self.k as nat))
    }

    /// Both tables are total and in range, and the two digit orders describe
    /// the same sequence: reading a word backwards in the second gives the
    /// output of reading it forwards in the first.
    pub open spec fn wf(&self) -> bool {
        &&& 1 <= self.k <= crate::dfa::MAX_ALPHA
        &&& 1 <= self.nstates <= u32::MAX
        &&& table_ok(self.trans@, self.nstates as nat, self.k as nat)
        &&& self.out@.len() == self.nstates
        &&& 1 <= self.lnstates <= u32::MAX
        &&& table_ok(self.ltrans@, self.lnstates as nat, self.k as nat)
        &&& self.lout@.len() == self.lnstates
        &&& forall|w: Seq<usize>| word_over(w, self.k as nat) ==> #[trigger] self.lsd_out(w) == self.msd_out(w.reverse())
    }

    /// Reading a zero does not change the output (what padding needs).
    pub open spec fn zero_stable_spec(&self, lsd: bool) -> bool {
        if lsd {
            forall|q: nat| q < self.lnstates ==> #[trigger] self.lout@[tstep(self.ltrans@, self.k as nat, q, 0) as int]
                == self.lout@[q as int]
        } else {
            tstep(self.trans@, self.k as nat, 0, 0) == 0
        }
    }

    /// The sequence that codes the fixed point of a `k`-uniform morphism
    /// `sigma` on the letters `0..m`, starting from `start` (whose image must
    /// begin with `start`), through `coding`.
    pub fn from_morphism(k: usize, m: usize, sigma: &[Vec<u8>], coding: &[u8], start: usize, name: &str) -> (r: Result<Dfao, String>)
        requires
            1 <= k <= crate::dfa::MAX_ALPHA,
            shape_ok(sigma@, m as nat, k as nat) ==> {
                &&& start < m
                &&& m <= 255
                &&& coding@.len() >= m
                &&& forall|a: int, d: int| 0 <= a < m && 0 <= d < k ==> (#[trigger] sigma@[a]@[d] as int) < m
            },
        ensures
            !shape_ok(sigma@, m as nat, k as nat) ==> r is Err,
            shape_ok(sigma@, m as nat, k as nat) && sigma@[start as int]@[0] as int != start ==> r is Err,
            r is Ok ==> shape_ok(sigma@, m as nat, k as nat) && sigma@[start as int]@[0] as int == start,
            r matches Ok(d) ==> {
                &&& d.wf()
                &&& d.k == k
                &&& d.nstates == m
                &&& d.name@ == name@
                &&& morph_table(d.trans@, sigma@, start as nat, k as nat, m as nat)
                &&& d.zero_stable_spec(false)
                &&& d.zero_stable_spec(true)
                &&& k >= 2 ==> forall|n: nat| #[trigger] d.term(n) == coding@[fixpoint(sigma@, start as nat, k as nat, n) as int]
            },
            r is Err && shape_ok(sigma@, m as nat, k as nat) && sigma@[start as int]@[0] as int == start ==> exists|t: Seq<State>|
                morph_table(t, sigma@, start as nat, k as nat, m as nat) && monoid_large(t, k as nat, m as nat),
    {
        if sigma.len() != m {
            return Err(crate::strs::str_to_string("morphism has the wrong number of words"));
        }
        let mut a: usize = 0;
        while a < m
            invariant
                sigma@.len() == m,
                a <= m,
                forall|b: int| 0 <= b < a ==> (#[trigger] sigma@[b])@.len() == k,
            decreases m - a,
        {
            if sigma[a].len() != k {
                return Err(crate::strs::str_to_string("morphism word has the wrong length"));
            }
            a = a + 1;
        }
        if sigma[start][0] as usize != start {
            return Err(crate::strs::str_to_string("morphism not prolongable on start letter"));
        }
        let ghost sg = sigma@;
        let ghost st = start as nat;
        let mut trans: Vec<State> = Vec::new();
        let mut out: Vec<u8> = Vec::new();
        let mut a: usize = 0;
        while a < m
            invariant
                1 <= k <= crate::dfa::MAX_ALPHA,
                sg == sigma@,
                st == start,
                shape_ok(sg, m as nat, k as nat),
                start < m,
                m <= 255,
                coding@.len() >= m,
                forall|b: int, d: int| 0 <= b < m && 0 <= d < k ==> (#[trigger] sg[b]@[d] as int) < m,
                a <= m,
                trans@.len() == a * k,
                out@.len() == a,
                forall|x: int| 0 <= x < trans@.len() ==> (#[trigger] trans@[x] as int) < m,
                forall|b: nat, d: nat| b < a && d < k ==> #[trigger] tstep(trans@, k as nat, b, d)
                    == swap_spec(sg[swap_spec(b, st) as int]@[d as int] as nat, st),
                forall|b: int| 0 <= b < a ==> #[trigger] out@[b] == coding@[swap_spec(b as nat, st) as int],
            decreases m - a,
        {
            let orig: usize = if a == start { 0 } else if a == 0 { start } else { a };
            out.push(coding[orig]);
            let mut d: usize = 0;
            while d < k
                invariant
                    1 <= k <= crate::dfa::MAX_ALPHA,
                    sg == sigma@,
                    st == start,
                    shape_ok(sg, m as nat, k as nat),
                    start < m,
                    m <= 255,
                    forall|b: int, e: int| 0 <= b < m && 0 <= e < k ==> (#[trigger] sg[b]@[e] as int) < m,
                    a < m,
                    orig == swap_spec(a as nat, st),
                    d <= k,
                    trans@.len() == a * k + d,
                    forall|x: int| 0 <= x < trans@.len() ==> (#[trigger] trans@[x] as int) < m,
                    forall|b: nat, e: nat| (b < a && e < k) || (b == a && e < d) ==> #[trigger] tstep(trans@, k as nat, b, e)
                        == swap_spec(sg[swap_spec(b, st) as int]@[e as int] as nat, st),
                decreases k - d,
            {
                let x = sigma[orig][d] as usize;
                let y: usize = if x == start { 0 } else if x == 0 { start } else { x };
                let ghost pre = trans@;
                trans.push(y as u32);
                proof {
                    assert forall|b: nat, e: nat| (b < a && e < k) || (b == a && e < d + 1) implies #[trigger] tstep(trans@, k as nat, b, e)
                        == swap_spec(sg[swap_spec(b, st) as int]@[e as int] as nat, st) by {
                        if b == a && e == d {
                            assert(b * k + e == pre.len());
                        } else {
                            if b < a {
                                lemma_index(b, e, a as nat, k as nat);
                            } else {
                                assert(b * k + e < b * k + d);
                            }
                            assert(b * k + e < pre.len());
                            assert(tstep(trans@, k as nat, b, e) == tstep(pre, k as nat, b, e));
                        }
                    }
                }
                d = d + 1;
            }
            proof {
                assert(trans@.len() == (a + 1) * k) by (nonlinear_arith)
                    requires
                        trans@.len() == a * k + k,
                ;
            }
            a = a + 1;
        }
        proof {
            assert(table_ok(trans@, m as nat, k as nat));
            assert(morph_table(trans@, sg, st, k as nat, m as nat));
            assert(tstep(trans@, k as nat, 0, 0) == 0) by {
                assert(swap_spec(0, st) == st);
                assert(sg[st as int]@[0] as nat == st);
            }
        }
        match build_lsd(k, m, &trans, &out) {
            Err(e) => {
                proof {
                    assert(morph_table(trans@, sg, st, k as nat, m as nat) && monoid_large(trans@, k as nat, m as nat));
                }
                Err(e)
            },
            Ok((lnstates, ltrans, lout)) => {
                let d = Dfao {
                    k,
                    nstates: m,
                    trans,
                    out,
                    name: crate::strs::str_to_string(name),
                    lnstates,
                    ltrans,
                    lout,
                };
                proof {
                    assert forall|w: Seq<usize>| word_over(w, d.k as nat) implies #[trigger] d.lsd_out(w) == d.msd_out(w.reverse()) by {
                    }
                    if k >= 2 {
                        assert forall|n: nat| #[trigger] d.term(n) == coding@[fixpoint(sg, st, k as nat, n) as int] by {
                            lemma_morph_run(d.trans@, sg, st, k as nat, m as nat, n);
                            let f = fixpoint(sg, st, k as nat, n);
                            assert(swap_spec(swap_spec(f, st), st) == f);
                        }
                    }
                }
                Ok(d)
            },
        }
    }

    /// The automaton over the single variable `x` accepting the positions
    /// (in the given digit order) where the sequence takes the value `a`.
    pub fn pred_letter(&self, x: &str, a: u8, lsd: bool) -> (r: Dfa)
        requires
            self.wf(),
            self.zero_stable_spec(lsd),
        ensures
            r.wf(),
            r.k == self.k,
            r.vars@.len() == 1,
            r.vars@[0]@ == x@,
            r.alpha == self.k,
            forall|w: Seq<usize>| word_over(w, self.k as nat) ==> #[trigger] r.accepts(w) == (self.out_at(lsd, w) == a),
    {
        let (n, tr, out) = self.active(lsd);
        let mut accept: Vec<bool> = Vec::new();
        let mut q: usize = 0;
        while q < n
            invariant
                q <= n,
                out@.len() == n,
                accept@.len() == q,
                forall|j: int| 0 <= j < q ==> #[trigger] accept@[j] == (out@[j] == a),
            decreases n - q,
        {
            accept.push(out[q] == a);
            q = q + 1;
        }
        let mut vars: Vec<String> = Vec::new();
        vars.push(crate::strs::str_to_string(x));
        proof {
            assert(spow(self.k as nat, 0) == 1);
            assert(spow(self.k as nat, 1) == self.k * spow(self.k as nat, 0));
            assert(vars@.len() == 1);
            assert(names(vars@) =~= seq![x@]);
        }
        let d = Dfa::new(self.k, vars, n, tr.clone(), accept);
        let r = d.minimize();
        proof {
            assert(d.alpha == self.k);
            assert(d.trans@ =~= tr@);
            assert forall|w: Seq<usize>| word_over(w, self.k as nat) implies #[trigger] r.accepts(w) == (self.out_at(lsd, w) == a) by {
                assert(r.accepts(w) == d.accepts(w));
                lemma_trun(tr@, n as nat, self.k as nat, 0, w);
            }
        }
        r
    }

    /// The automaton over the two variables `x` and `y`, listed in sorted
    /// order, accepting the pairs of positions where the sequence takes equal
    /// values; `None` when its alphabet or state count would not fit.
    pub fn pred_eq(&self, x: &str, y: &str, lsd: bool) -> (r: Option<Dfa>)
        requires
            self.wf(),
            self.zero_stable_spec(lsd),
            x@ != y@,
        ensures
            ({
                let n: int = if lsd { self.lnstates as int } else { self.nstates as int };
                r is None <==> !(self.k * self.k <= MAX_ALPHA && n * n <= u32::MAX && n * n * (self.k * self.k) <= usize::MAX)
            }),
            r matches Some(d) ==> {
                &&& d.wf()
                &&& d.sorted()
                &&& d.k == self.k
                &&& d.alpha == self.k * self.k
                &&& names(d.vars@) == if seq_lt(x@, y@) { seq![x@, y@] } else { seq![y@, x@] }
                &&& forall|w: Seq<usize>| word_over(w, d.alpha as nat) ==> #[trigger] d.accepts(w)
                    == (self.out_at(lsd, proj_word(w, seq![0nat], self.k as nat)) == self.out_at(lsd, proj_word(w, seq![1nat], self.k as nat)))
            },
    {
        let k = self.k;
        let (n, tr, out) = self.active(lsd);
        if k > MAX_ALPHA / k {
            proof {
                assert(k * k > MAX_ALPHA) by (nonlinear_arith)
                    requires
                        k > MAX_ALPHA / k,
                        k >= 1,
                ;
            }
            return None;
        }
        proof {
            assert(k * k <= MAX_ALPHA) by (nonlinear_arith)
                requires
                    k <= MAX_ALPHA / k,
                    k >= 1,
            ;
        }
        let alpha = k * k;
        if n > 4294967295usize / n {
            proof {
                assert(n * n > u32::MAX) by (nonlinear_arith)
                    requires
                        n > 4294967295usize / n,
                        n >= 1,
                ;
            }
            return None;
        }
        proof {
            assert(n * n <= u32::MAX) by (nonlinear_arith)
                requires
                    n <= 4294967295usize / n,
                    n >= 1,
            ;
        }
        let nn = n * n;
        let total = match nn.checked_mul(alpha) {
            Some(t) => t,
            None => {
                return None;
            },
        };
        let ghost kk = k as nat;
        let ghost ntr = tr@;
        let mut trans: Vec<State> = Vec::new();
        let mut st: usize = 0;
        while st < nn
            invariant
                1 <= k,
                alpha == k * k,
                1 <= n,
                nn == n * n,
                nn <= u32::MAX,
                kk == k,
                ntr == tr@,
                table_ok(ntr, n as nat, kk),
                st <= nn,
                trans@.len() == st * alpha,
                forall|i: int| 0 <= i < trans@.len() ==> (#[trigger] trans@[i] as nat) < nn,
                forall|s: nat, c: nat| s < st && c < alpha ==> #[trigger] tstep(trans@, kk * kk, s, c)
                    == tstep(ntr, kk, s / (n as nat), c % kk) * n + tstep(ntr, kk, s % (n as nat), c / kk),
            decreases nn - st,
        {
            let p = st / n;
            let q = st % n;
            proof {
                assert(p < n) by (nonlinear_arith)
                    requires
                        st < n * n,
                        p == st / n,
                        n >= 1,
                ;
                assert(q < n) by (nonlinear_arith)
                    requires
                        q == st % n,
                        n >= 1,
                ;
            }
            let mut c: usize = 0;
            while c < alpha
                invariant
                    1 <= k,
                    alpha == k * k,
                    1 <= n,
                    nn == n * n,
                    nn <= u32::MAX,
                    kk == k,
                    ntr == tr@,
                    table_ok(ntr, n as nat, kk),
                    st < nn,
                    p == st / n,
                    q == st % n,
                    p < n,
                    q < n,
                    c <= alpha,
                    trans@.len() == st * alpha + c,
                    forall|i: int| 0 <= i < trans@.len() ==> (#[trigger] trans@[i] as nat) < nn,
                    forall|s: nat, e: nat| (s < st && e < alpha) || (s == st && e < c) ==> #[trigger] tstep(trans@, kk * kk, s, e)
                        == tstep(ntr, kk, s / (n as nat), e % kk) * n + tstep(ntr, kk, s % (n as nat), e / kk),
                decreases alpha - c,
            {
                let a = c % k;
                let b = c / k;
                proof {
                    lemma_pair_digits(c as nat, kk);
                    lemma_index(p as nat, a as nat, n as nat, kk);
                    lemma_index(q as nat, b as nat, n as nat, kk);
                    lemma_tstep(ntr, n as nat, kk, p as nat, a as nat);
                    lemma_tstep(ntr, n as nat, kk, q as nat, b as nat);
                }
                assert(p * k + a < tr.len());
                assert(q * k + b < tr.len());
                let t1 = tr[p * k + a] as usize;
                let t2 = tr[q * k + b] as usize;
                proof {
                    assert(t1 * n + t2 < n * n) by (nonlinear_arith)
                        requires
                            t1 < n,
                            t2 < n,
                    ;
                }
                let ghost pre = trans@;
                trans.push((t1 * n + t2) as u32);
                proof {
                    assert forall|s: nat, e: nat| (s < st && e < alpha) || (s == st && e < c + 1) implies #[trigger] tstep(trans@, kk * kk, s, e)
                        == tstep(ntr, kk, s / (n as nat), e % kk) * n + tstep(ntr, kk, s % (n as nat), e / kk) by {
                        if s == st && e == c {
                            assert(s * alpha + e == pre.len());
                        } else {
                            if s < st {
                                lemma_index(s, e, st as nat, alpha as nat);
                            } else {
                                assert(s * alpha + e < s * alpha + c);
                            }
                            assert(s * alpha + e < pre.len());
                            assert(tstep(trans@, kk * kk, s, e) == tstep(pre, kk * kk, s, e));
                        }
                    }
                }
                c = c + 1;
            }
            proof {
                assert(trans@.len() == (st + 1) * alpha) by (nonlinear_arith)
                    requires
                        trans@.len() == st * alpha + alpha,
                ;
            }
            st = st + 1;
        }
        let mut accept: Vec<bool> = Vec::new();
        let mut s2: usize = 0;
        while s2 < nn
            invariant
                1 <= n,
                nn == n * n,
                out@.len() == n,
                s2 <= nn,
                accept@.len() == s2,
                forall|j: int| 0 <= j < s2 ==> #[trigger] accept@[j] == (out@[j / (n as int)] == out@[j % (n as int)]),
            decreases nn - s2,
        {
            proof {
                assert(s2 / n < n) by (nonlinear_arith)
                    requires
                        s2 < n * n,
                        n >= 1,
                ;
            }
            accept.push(out[s2 / n] == out[s2 % n]);
            s2 = s2 + 1;
        }
        let xs = crate::strs::str_to_string(x);
        let ys = crate::strs::str_to_string(y);
        let mut vars: Vec<String> = Vec::new();
        if crate::strs::str_lt(x, y) {
            vars.push(xs);
            vars.push(ys);
        } else {
            vars.push(ys);
            vars.push(xs);
        }
        proof {
            assert(spow(kk, 0) == 1);
            assert(spow(kk, 2) == kk * spow(kk, 1));
            assert(nn >= 1) by (nonlinear_arith)
                requires
                    nn == n * n,
                    n >= 1,
            ;
            assert(spow(kk, 1) == kk * spow(kk, 0));
            assert(spow(kk, 1) == kk);
            assert(spow(kk, 2) == alpha);
            assert(trans@.len() == nn * alpha);
            assert(vars@.len() == 2);
            assert(table_ok(trans@, nn as nat, spow(kk, 2)));
            if !seq_lt(x@, y@) {
                crate::strs::lemma_seq_lt_total(x@, y@);
            }
            assert(names(vars@) =~= if seq_lt(x@, y@) { seq![x@, y@] } else { seq![y@, x@] });
            crate::strs::lemma_seq_lt_irreflexive(x@);
        }
        let d = Dfa::new(k, vars, nn, trans, accept);
        let r = d.minimize();
        proof {
            assert(pair_ok(d.trans@, ntr, kk, n as nat));
            assert forall|w: Seq<usize>| word_over(w, r.alpha as nat) implies #[trigger] r.accepts(w)
                == (self.out_at(lsd, proj_word(w, seq![0nat], kk)) == self.out_at(lsd, proj_word(w, seq![1nat], kk))) by {
                assert(r.accepts(w) == d.accepts(w));
                lemma_pair_run(d.trans@, ntr, kk, n as nat, w);
                let p = trun(ntr, kk, 0, proj_word(w, seq![0nat], kk));
                let q = trun(ntr, kk, 0, proj_word(w, seq![1nat], kk));
                lemma_trun(ntr, n as nat, kk, 0, proj_word(w, seq![0nat], kk));
                lemma_trun(ntr, n as nat, kk, 0, proj_word(w, seq![1nat], kk));
                vstd::arithmetic::div_mod::lemma_fundamental_div_mod_converse((p * n + q) as int, n as int, p as int, q as int);
                let big = trun(d.trans@, kk * kk, 0, w);
                assert(d.alpha as nat == kk * kk);
                assert(big == p * n + q);
                assert(big < nn) by (nonlinear_arith)
                    requires
                        p < n,
                        q < n,
                        big == p * n + q,
                        nn == n * n,
                ;
                assert(d.accept@[big as int] == (out@[(big as int) / (n as int)] == out@[(big as int) % (n as int)]));
                assert(d.accepts(w) == (out@[p as int] == out@[q as int]));
            }
        }
        Some(r)
    }

    /// The sequence given by an explicit most-significant-digit-first table
    /// and outputs (state 0 the start), with its least-significant-first form
    /// derived; fails when that form grows past `MONOID_CAP` states.
    pub fn from_tables(k: usize, n: usize, trans: Vec<State>, out: Vec<u8>, name: &str) -> (r: Result<Dfao, String>)
        requires
            1 <= k <= crate::dfa::MAX_ALPHA,
            1 <= n <= u32::MAX,
            table_ok(trans@, n as nat, k as nat),
            out@.len() == n,
        ensures
            r matches Ok(d) ==> {
                &&& d.wf()
                &&& d.k == k
                &&& d.nstates == n
                &&& d.trans@ == trans@
                &&& d.out@ == out@
                &&& d.name@ == name@
                &&& d.zero_stable_spec(false) ==> d.zero_stable_spec(true)
            },
            r is Err ==> monoid_large(trans@, k as nat, n as nat),
    {
        match build_lsd(k, n, &trans, &out) {
            Err(e) => Err(e),
            Ok((lnstates, ltrans, lout)) => {
                let d = Dfao { k, nstates: n, trans, out, name: crate::strs::str_to_string(name), lnstates, ltrans, lout };
                proof {
                    assert forall|w: Seq<usize>| word_over(w, d.k as nat) implies #[trigger] d.lsd_out(w) == d.msd_out(w.reverse()) by {
                    }
                }
                Ok(d)
            },
        }
    }

    /// The table, state count and outputs for the given digit order.
    pub fn active(&self, lsd: bool) -> (r: (usize, &Vec<State>, &Vec<u8>))
        ensures
            lsd ==> r.0 == self.lnstates && r.1@ == self.ltrans@ && r.2@ == self.lout@,
            !lsd ==> r.0 == self.nstates && r.1@ == self.trans@ && r.2@ == self.out@,
    {
        if lsd {
            (self.lnstates, &self.ltrans, &self.lout)
        } else {
            (self.nstates, &self.trans, &self.out)
        }
    }

    /// Successor of state `s` on digit `d` (most significant digit first).
    pub fn t(&self, s: usize, d: usize) -> (r: usize)
        requires
            self.wf(),
            s < self.nstates,
            d < self.k,
        ensures
            r == tstep(self.trans@, self.k as nat, s as nat, d as nat),
            r < self.nstates,
    {
        proof {
            lemma_index(s as nat, d as nat, self.nstates as nat, self.k as nat);
            lemma_tstep(self.trans@, self.nstates as nat, self.k as nat, s as nat, d as nat);
        }
        assert(s * self.k + d < self.trans.len());
        self.trans[s * self.k + d] as usize
    }

    /// The state reached by reading the digits of `n`.
    fn state_of(&self, n: u64) -> (r: usize)
        requires
            self.wf(),
            self.k >= 2,
        ensures
            r == trun(self.trans@, self.k as nat, 0, kdigits(n as nat, self.k as nat)),
            r < self.nstates,
        decreases n,
    {
        if n == 0 {
            return 0;
        }
        let k = self.k as u64;
        let q = n / k;
        let d = (n % k) as usize;
        proof {
            assert(q < n) by (nonlinear_arith)
                requires
                    k >= 2,
                    n > 0,
                    q == n / k,
            ;
        }
        let s = self.state_of(q);
        let r = self.t(s, d);
        proof {
            let w = kdigits(n as nat, self.k as nat);
            assert(w == kdigits(q as nat, self.k as nat).push(d));
            assert(w.drop_last() =~= kdigits(q as nat, self.k as nat));
        }
        r
    }

    /// The `n`-th term of the sequence.
    pub fn at(&self, n: u64) -> (r: u8)
        requires
            self.wf(),
            self.k >= 2,
        ensures
            r == self.term(n as nat),
    {
        let s = self.state_of(n);
        self.out[s]
    }

    /// The first `n` terms.
    pub fn prefix(&self, n: usize) -> (r: Vec<u8>)
        requires
            self.wf(),
            self.k >= 2,
        ensures
            r@.len() == n,
            forall|i: int| 0 <= i < n ==> #[trigger] r@[i] == self.term(i as nat),
    {
        let mut v: Vec<u8> = Vec::new();
        let mut i: usize = 0;
        while i < n
            invariant
                self.wf(),
                self.k >= 2,
                i <= n,
                v@.len() == i,
                forall|j: int| 0 <= j < i ==> #[trigger] v@[j] == self.term(j as nat),
            decreases n - i,
        {
            let x = self.at(i as u64);
            v.push(x);
            i = i + 1;
        }
        v
    }

    /// The distinct outputs of the states, in increasing order.
    pub fn out_alphabet(&self) -> (r: Vec<u8>)
        requires
            self.wf(),
        ensures
            forall|i: int, j: int| 0 <= i < j < r@.len() ==> r@[i] < r@[j],
            forall|v: u8| r@.contains(v) <==> exists|w: Seq<usize>| word_over(w, self.k as nat) && #[trigger] self.msd_out(w) == v,
    {
        let mut one: Vec<String> = Vec::new();
        one.push(crate::strs::str_to_string("x"));
        let mut acc: Vec<bool> = Vec::new();
        let mut q: usize = 0;
        while q < self.nstates
            invariant
                q <= self.nstates,
                acc@.len() == q,
            decreases self.nstates - q,
        {
            acc.push(false);
            q = q + 1;
        }
        proof {
            assert(spow(self.k as nat, 0) == 1);
            assert(spow(self.k as nat, 1) == self.k * spow(self.k as nat, 0));
            assert(crate::dfa::distinct(names(one@)));
        }
        let a = Dfa::new(self.k, one, self.nstates, self.trans.clone(), acc);
        let (prev, _psym) = a.bfs_tree();
        let mut seen: Vec<bool> = Vec::new();
        let mut b: usize = 0;
        while b < 256
            invariant
                b <= 256,
                seen@.len() == b,
                forall|c: int| 0 <= c < b ==> !seen@[c],
            decreases 256 - b,
        {
            seen.push(false);
            b = b + 1;
        }
        let mut i: usize = 0;
        while i < self.out.len()
            invariant
                self.wf(),
                i <= self.out.len(),
                seen@.len() == 256,
                prev@.len() == self.nstates,
                forall|c: int| 0 <= c < 256 ==> (seen@[c] <==> exists|j: int| 0 <= j < i && prev@[j] != u32::MAX && self.out@[j] as int == c),
            decreases self.out.len() - i,
        {
            if prev[i] != u32::MAX {
                let o = self.out[i] as usize;
                seen.set(o, true);
                proof {
                    assert forall|c: int| 0 <= c < 256 implies (seen@[c] <==> exists|j: int| 0 <= j < i + 1 && prev@[j] != u32::MAX && self.out@[j] as int == c) by {
                        if c == o as int {
                            assert(self.out@[i as int] as int == c);
                        } else if exists|j: int| 0 <= j < i + 1 && prev@[j] != u32::MAX && self.out@[j] as int == c {
                            let j = choose|j: int| 0 <= j < i + 1 && prev@[j] != u32::MAX && self.out@[j] as int == c;
                            assert(j < i);
                        }
                    }
                }
            } else {
                proof {
                    assert forall|c: int| 0 <= c < 256 implies (seen@[c] <==> exists|j: int| 0 <= j < i + 1 && prev@[j] != u32::MAX && self.out@[j] as int == c) by {
                        if exists|j: int| 0 <= j < i + 1 && prev@[j] != u32::MAX && self.out@[j] as int == c {
                            let j = choose|j: int| 0 <= j < i + 1 && prev@[j] != u32::MAX && self.out@[j] as int == c;
                            assert(j < i);
                        }
                    }
                }
            }
            i = i + 1;
        }
        let mut r: Vec<u8> = Vec::new();
        let mut c: usize = 0;
        while c < 256
            invariant
                c <= 256,
                seen@.len() == 256,
                forall|x: int| 0 <= x < 256 ==> (seen@[x] <==> exists|j: int| 0 <= j < self.out@.len() && prev@[j] != u32::MAX && self.out@[j] as int == x),
                forall|i: int, j: int| 0 <= i < j < r@.len() ==> r@[i] < r@[j],
                forall|i: int| 0 <= i < r@.len() ==> (r@[i] as int) < c,
                forall|v: u8| r@.contains(v) <==> ((v as int) < c && seen@[v as int]),
            decreases 256 - c,
        {
            if seen[c] {
                let ghost pre = r@;
                r.push(c as u8);
                proof {
                    assert forall|v: u8| r@.contains(v) <==> ((v as int) < c + 1 && seen@[v as int]) by {
                        if v as int == c {
                            assert(r@[pre.len() as int] == v);
                        } else if r@.contains(v) {
                            let j = choose|j: int| 0 <= j < r@.len() && r@[j] == v;
                            assert(j < pre.len());
                            assert(pre.contains(v));
                        } else if (v as int) < c && seen@[v as int] {
                            assert(pre.contains(v));
                            let j = choose|j: int| 0 <= j < pre.len() && pre[j] == v;
                            assert(r@[j] == v);
                        }
                    }
                }
            }
            c = c + 1;
        }
        proof {
            assert forall|v: u8| r@.contains(v) <==> exists|w: Seq<usize>| word_over(w, self.k as nat) && #[trigger] self.msd_out(w) == v by {
                if exists|w: Seq<usize>| word_over(w, self.k as nat) && #[trigger] self.msd_out(w) == v {
                    let w = choose|w: Seq<usize>| word_over(w, self.k as nat) && #[trigger] self.msd_out(w) == v;
                    let t = trun(self.trans@, self.k as nat, 0, w);
                    lemma_trun(self.trans@, self.nstates as nat, self.k as nat, 0, w);
                    assert(a.run_from(0, w) == t);
                    assert(a.reachable(t));
                    assert(prev@[t as int] != u32::MAX);
                    assert(self.out@[t as int] as int == v as int);
                }
                if r@.contains(v) {
                    assert(seen@[v as int]);
                    let j = choose|j: int| 0 <= j < self.out@.len() && prev@[j] != u32::MAX && self.out@[j] as int == v as int;
                    assert(a.reachable(j as nat));
                    let w = choose|w: Seq<usize>| word_over(w, a.alpha as nat) && #[trigger] a.run_from(0, w) == j as nat;
                    assert(self.msd_out(w) == v);
                }
            }
        }
        r
    }

    /// Padding-robustness: in msd order the start state loops on `0`; in lsd
    /// order reading a `0` never changes the output.
    pub fn zero_stable(&self, lsd: bool) -> (r: bool)
        requires
            self.wf(),
        ensures
            r == self.zero_stable_spec(lsd),
    {
        if lsd {
            let mut q: usize = 0;
            while q < self.lnstates
                invariant
                    self.wf(),
                    lsd,
                    q <= self.lnstates,
                    forall|p: nat| p < q ==> #[trigger] self.lout@[tstep(self.ltrans@, self.k as nat, p, 0) as int]
                        == self.lout@[p as int],
                decreases self.lnstates - q,
            {
                proof {
                    lemma_index(q as nat, 0, self.lnstates as nat, self.k as nat);
                    lemma_tstep(self.ltrans@, self.lnstates as nat, self.k as nat, q as nat, 0);
                }
                assert(q * self.k + 0 < self.ltrans.len());
                let t = self.ltrans[q * self.k] as usize;
                if self.lout[t] != self.lout[q] {
                    proof {
                        assert(t as nat == tstep(self.ltrans@, self.k as nat, q as nat, 0));
                        assert(!(self.lout@[tstep(self.ltrans@, self.k as nat, q as nat, 0) as int] == self.lout@[q as int]));
                        assert(!self.zero_stable_spec(lsd));
                    }
                    return false;
                }
                q = q + 1;
            }
            true
        } else {
            self.t(0, 0) == 0
        }
    }
}
} // verus!
