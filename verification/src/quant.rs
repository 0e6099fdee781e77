//! Zero-padding closure, existential projection and universal quantification.
use vstd::prelude::*;
use crate::dfa::{
    Dfa, State, MAX_ALPHA, spow, distinct, word_over, trun, lemma_trun, lemma_trun_concat,
    lemma_word_over_sub, lemma_spow_pos, lemma_index, pow,
};
use crate::nfa::{Nfa, reverses};
use crate::strs::{names, first_index, lemma_first_index};
use crate::ops::Ctx;

verus! {

/// `m` zero letters.
pub open spec fn zeros(m: nat) -> Seq<usize> {
    Seq::new(m, |i: int| 0usize)
}

/// `w` padded with `m` zero letters: trailing in lsd order, leading in msd order.
pub open spec fn pad(w: Seq<usize>, m: nat, lsd: bool) -> Seq<usize> {
    if lsd {
        w + zeros(m)
    } else {
        zeros(m) + w
    }
}

/// `r` accepts exactly the words some zero-padding of which `d` accepts.
pub open spec fn closes(d: &Dfa, r: &Dfa, lsd: bool) -> bool {
    &&& r.wf()
    &&& r.same_sig(d)
    &&& forall|w: Seq<usize>| word_over(w, d.alpha as nat) ==> #[trigger] r.accepts(w)
        == exists|m: nat| #[trigger] d.accepts(pad(w, m, lsd))
}

pub proof fn lemma_pad_over(w: Seq<usize>, m: nat, lsd: bool, alpha: nat)
    requires
        word_over(w, alpha),
        alpha >= 1,
    ensures
        word_over(pad(w, m, lsd), alpha),
        word_over(zeros(m), alpha),
{
    assert forall|i: int| 0 <= i < pad(w, m, lsd).len() implies (#[trigger] pad(w, m, lsd)[i] as nat) < alpha by {
        if lsd {
            if i >= w.len() {
                assert(pad(w, m, lsd)[i] == zeros(m)[i - w.len()]);
            } else {
                assert(pad(w, m, lsd)[i] == w[i]);
            }
        } else {
            if i >= m {
                assert(pad(w, m, lsd)[i] == w[i - m]);
            } else {
                assert(pad(w, m, lsd)[i] == zeros(m)[i]);
            }
        }
    }
}

proof fn lemma_zeros_succ(m: nat)
    ensures
        zeros(m + 1) == seq![0usize] + zeros(m),
        zeros(m + 1) == zeros(m).push(0usize),
        zeros(m + 1).drop_last() == zeros(m),
{
    assert(zeros(m + 1) =~= seq![0usize] + zeros(m));
    assert(zeros(m + 1) =~= zeros(m).push(0usize));
    assert(zeros(m + 1).drop_last() =~= zeros(m));
}

proof fn lemma_zeros_add(a: nat, b: nat)
    ensures
        zeros(a) + zeros(b) == zeros(a + b),
{
    assert(zeros(a) + zeros(b) =~= zeros(a + b));
}

impl Dfa {
    /// States that never reach an accepting state on zeros stay so along zeros.
    proof fn lemma_zero_fix(&self, acc: Seq<bool>, q: nat, m: nat)
        requires
            self.wf(),
            acc.len() == self.nstates,
            q < self.nstates,
            !acc[q as int],
            forall|x: nat| x < self.nstates && !acc[x as int] ==> !acc[#[trigger] self.step(x, 0) as int],
        ensures
            !acc[trun(self.trans@, self.alpha as nat, q, zeros(m)) as int],
            trun(self.trans@, self.alpha as nat, q, zeros(m)) < self.nstates,
        decreases m,
    {
        if m > 0 {
            let m1 = (m - 1) as nat;
            self.lemma_zero_fix(acc, q, m1);
            lemma_zeros_succ(m1);
            let x = trun(self.trans@, self.alpha as nat, q, zeros(m1));
            assert(zeros(m).last() == 0usize);
            assert(trun(self.trans@, self.alpha as nat, q, zeros(m)) == self.step(x, 0));
            self.lemma_steps();
        }
    }

    /// Runs along zeros from the start state stay in a chain that closes on itself.
    proof fn lemma_chain(&self, init: Seq<State>, m: nat)
        requires
            self.wf(),
            init.len() >= 1,
            forall|i: int| 0 <= i < init.len() ==> #[trigger] init[i] as nat == trun(self.trans@, self.alpha as nat, 0, zeros(i as nat)),
            init.contains(trun(self.trans@, self.alpha as nat, 0, zeros(init.len())) as State),
        ensures
            init.contains(trun(self.trans@, self.alpha as nat, 0, zeros(m)) as State),
        decreases m,
    {
        let l = init.len();
        let tr = self.trans@;
        let al = self.alpha as nat;
        if m < l {
            lemma_trun(tr, self.nstates as nat, al, 0, zeros(m));
            assert(init[m as int] as nat == trun(tr, al, 0, zeros(m)));
            assert(init[m as int] == trun(tr, al, 0, zeros(m)) as State);
        } else {
            let j = choose|j: int| 0 <= j < init.len() && init[j] == trun(tr, al, 0, zeros(l)) as State;
            lemma_zeros_add(l, (m - l) as nat);
            lemma_trun_concat(tr, al, 0, zeros(l), zeros((m - l) as nat));
            lemma_zeros_add(j as nat, (m - l) as nat);
            lemma_trun_concat(tr, al, 0, zeros(j as nat), zeros((m - l) as nat));
            lemma_trun(tr, self.nstates as nat, al, 0, zeros(l));
            assert(trun(tr, al, 0, zeros(l)) == init[j] as nat);
            self.lemma_chain(init, (j + m - l) as nat);
        }
    }

    /// Re-establish closure under zero padding after an existential projection:
    /// lsd closes under removing trailing zeros (only the accepting set changes),
    /// msd under removing leading zeros (a subset construction over the chain of
    /// states the start state reaches on zeros).
    pub fn zero_closure(&self, lsd: bool) -> (r: Option<Dfa>)
        requires
            self.wf(),
        ensures
            r matches Some(x) ==> closes(self, &x, lsd),
            lsd ==> r is Some,
    {
        let n = self.nstates;
        let ghost tr = self.trans@;
        let ghost al = self.alpha as nat;
        proof {
            self.lemma_steps();
        }
        if lsd {
            let mut acc = self.accept.clone();
            assert(acc@ =~= self.accept@);
            let ghost range = vstd::set_lib::set_int_range(0, n as int);
            let ghost mut tset: Set<int> = Set::new(|q: int| 0 <= q < n && self.accept@[q]);
            proof {
                vstd::set_lib::lemma_int_range(0, n as int);
                assert(tset.subset_of(range));
                vstd::set_lib::lemma_len_subset(tset, range);
                assert forall|q: nat| q < n && #[trigger] acc@[q as int] implies exists|m: nat| self.accept@[trun(tr, al, q, zeros(m)) as int] by {
                    assert(zeros(0) =~= Seq::<usize>::empty());
                    assert(trun(tr, al, q, zeros(0)) == q);
                }
            }
            loop
                invariant
                    self.wf(),
                    n == self.nstates,
                    tr == self.trans@,
                    al == self.alpha,
                    acc.len() == n,
                    forall|q: nat| q < n && self.accept@[q as int] ==> #[trigger] acc@[q as int],
                    forall|q: nat| q < n && #[trigger] acc@[q as int] ==> exists|m: nat| self.accept@[trun(tr, al, q, zeros(m)) as int],
                    range == vstd::set_lib::set_int_range(0, n as int),
                    range.finite(),
                    range.len() == n,
                    tset.finite(),
                    tset.subset_of(range),
                    forall|q: int| 0 <= q < n ==> (#[trigger] acc@[q] <==> tset.contains(q)),
                ensures
                    acc.len() == n,
                    forall|q: nat| q < n && self.accept@[q as int] ==> #[trigger] acc@[q as int],
                    forall|q: nat| q < n && #[trigger] acc@[q as int] ==> exists|m: nat| self.accept@[trun(tr, al, q, zeros(m)) as int],
                    forall|x: nat| x < n && !acc@[x as int] ==> !acc@[#[trigger] self.step(x, 0) as int],
                decreases n - tset.len(),
            {
                proof {
                    vstd::set_lib::lemma_len_subset(tset, range);
                }
                let ghost old_len = tset.len();
                let mut changed = false;
                let mut q: usize = 0;
                while q < n
                    invariant
                        self.wf(),
                        n == self.nstates,
                        tr == self.trans@,
                        al == self.alpha,
                        acc.len() == n,
                        q <= n,
                        forall|x: nat| x < n && self.accept@[x as int] ==> #[trigger] acc@[x as int],
                        forall|x: nat| x < n && #[trigger] acc@[x as int] ==> exists|m: nat| self.accept@[trun(tr, al, x, zeros(m)) as int],
                        range == vstd::set_lib::set_int_range(0, n as int),
                        range.finite(),
                        range.len() == n,
                        tset.finite(),
                        tset.subset_of(range),
                        forall|x: int| 0 <= x < n ==> (#[trigger] acc@[x] <==> tset.contains(x)),
                        changed ==> tset.len() > old_len,
                        !changed ==> tset.len() == old_len,
                        !changed ==> forall|x: nat| x < q && !acc@[x as int] ==> !acc@[#[trigger] self.step(x, 0) as int],
                    decreases n - q,
                {
                    let nx = self.t(q, 0);
                    if !acc[q] && acc[nx] {
                        proof {
                            let m = choose|m: nat| self.accept@[trun(tr, al, nx as nat, zeros(m)) as int];
                            lemma_zeros_succ(m);
                            lemma_trun_concat(tr, al, q as nat, seq![0usize], zeros(m));
                            assert(seq![0usize].drop_last() =~= Seq::<usize>::empty());
                            assert(trun(tr, al, q as nat, Seq::<usize>::empty()) == q as nat);
                            assert(trun(tr, al, q as nat, seq![0usize]) == self.step(q as nat, 0));
                            assert(self.accept@[trun(tr, al, q as nat, zeros(m + 1)) as int]);
                            assert(!tset.contains(q as int));
                            tset = tset.insert(q as int);
                            vstd::set_lib::lemma_len_subset(tset, range);
                        }
                        acc.set(q, true);
                        changed = true;
                    }
                    q = q + 1;
                }
                if !changed {
                    break;
                }
                proof {
                    vstd::set_lib::lemma_len_subset(tset, range);
                }
            }
            let x = Dfa {
                k: self.k,
                vars: crate::strs::copy_names(&self.vars),
                alpha: self.alpha,
                nstates: n,
                trans: self.trans.clone(),
                accept: acc,
            };
            proof {
                assert(x.trans@ =~= self.trans@);
                assert forall|w: Seq<usize>| word_over(w, self.alpha as nat) implies #[trigger] x.accepts(w)
                    == exists|m: nat| #[trigger] self.accepts(pad(w, m, lsd)) by {
                    let p = self.run_from(0, w);
                    lemma_trun(tr, n as nat, al, 0, w);
                    if x.accepts(w) {
                        let m = choose|m: nat| self.accept@[trun(tr, al, p, zeros(m)) as int];
                        lemma_trun_concat(tr, al, 0, w, zeros(m));
                        assert(self.accepts(pad(w, m, lsd)));
                    }
                    if exists|m: nat| #[trigger] self.accepts(pad(w, m, lsd)) {
                        let m = choose|m: nat| #[trigger] self.accepts(pad(w, m, lsd));
                        lemma_trun_concat(tr, al, 0, w, zeros(m));
                        if !acc@[p as int] {
                            self.lemma_zero_fix(acc@, p, m);
                        }
                    }
                }
            }
            return Some(x);
        }
        let mut init: Vec<State> = Vec::new();
        init.push(0);
        let mut seen: Vec<bool> = Vec::new();
        let mut j: usize = 0;
        while j < n
            invariant
                j <= n,
                seen.len() == j,
                forall|q: int| 0 <= q < j ==> !seen@[q],
            decreases n - j,
        {
            seen.push(false);
            j = j + 1;
        }
        seen.set(0, true);
        let mut s: usize = 0;
        let ghost range = vstd::set_lib::set_int_range(0, n as int);
        let ghost mut sset: Set<int> = Set::empty().insert(0int);
        proof {
            vstd::set_lib::lemma_int_range(0, n as int);
            assert(zeros(0) =~= Seq::<usize>::empty());
            assert(init@[0] == 0);
            assert(init@.contains(0));
        }
        loop
            invariant
                self.wf(),
                n == self.nstates,
                tr == self.trans@,
                al == self.alpha,
                seen.len() == n,
                init.len() >= 1,
                s < n,
                s as nat == trun(tr, al, 0, zeros((init.len() - 1) as nat)),
                forall|i: int| 0 <= i < init.len() ==> #[trigger] init@[i] as nat == trun(tr, al, 0, zeros(i as nat)),
                forall|i: int| 0 <= i < init.len() ==> (#[trigger] init@[i] as nat) < n,
                forall|q: int| 0 <= q < n ==> (#[trigger] seen@[q] <==> init@.contains(q as State)),
                forall|q: int| 0 <= q < n ==> (seen@[q] <==> #[trigger] sset.contains(q)),
                range == vstd::set_lib::set_int_range(0, n as int),
                range.finite(),
                range.len() == n,
                sset.finite(),
                sset.subset_of(range),
            ensures
                init.len() >= 1,
                forall|i: int| 0 <= i < init.len() ==> #[trigger] init@[i] as nat == trun(tr, al, 0, zeros(i as nat)),
                forall|i: int| 0 <= i < init.len() ==> (#[trigger] init@[i] as nat) < n,
                init@.contains(trun(tr, al, 0, zeros(init.len() as nat)) as State),
            decreases n - sset.len(),
        {
            proof {
                vstd::set_lib::lemma_len_subset(sset, range);
            }
            let nx = self.t(s, 0);
            proof {
                let l = (init.len() - 1) as nat;
                lemma_zeros_succ(l);
                assert(zeros(l + 1).last() == 0usize);
                assert(trun(tr, al, 0, zeros(l + 1)) == self.step(s as nat, 0));
            }
            if seen[nx] {
                proof {
                    assert(init@.contains(nx as State));
                }
                break;
            }
            let ghost pre = init@;
            proof {
                assert(!sset.contains(nx as int));
                sset = sset.insert(nx as int);
                vstd::set_lib::lemma_len_subset(sset, range);
            }
            seen.set(nx, true);
            init.push(nx as State);
            s = nx;
            proof {
                assert forall|q: int| 0 <= q < n implies (#[trigger] seen@[q] <==> init@.contains(q as State)) by {
                    vstd::seq_lib::lemma_seq_contains_after_push(pre, nx as State, q as State);
                }
            }
        }
        proof {
            let l = init.len();
            assert(init@.contains(trun(tr, al, 0, zeros(l as nat)) as State));
        }
        if init.len() == 1 {
            let x = self.dup();
            proof {
                assert forall|w: Seq<usize>| word_over(w, self.alpha as nat) implies #[trigger] x.accepts(w)
                    == exists|m: nat| #[trigger] self.accepts(pad(w, m, lsd)) by {
                    assert(self.accepts(pad(w, 0, lsd)) == self.accepts(w)) by {
                        assert(pad(w, 0, lsd) =~= w);
                    }
                    if exists|m: nat| #[trigger] self.accepts(pad(w, m, lsd)) {
                        let m = choose|m: nat| #[trigger] self.accepts(pad(w, m, lsd));
                        self.lemma_chain(init@, m);
                        lemma_trun_concat(tr, al, 0, zeros(m), w);
                        let j = choose|j: int| 0 <= j < init@.len() && init@[j] == trun(tr, al, 0, zeros(m)) as State;
                        assert(j == 0);
                        lemma_trun(tr, n as nat, al, 0, zeros(m));
                        assert(trun(tr, al, 0, zeros(m)) == 0);
                    }
                }
            }
            return Some(x);
        }
        let nfa = self.with_starts(init);
        let det = nfa.determinize();
        match det {
            None => None,
            Some(d) => {
                proof {
                    assert forall|w: Seq<usize>| word_over(w, self.alpha as nat) implies #[trigger] d.accepts(w)
                        == exists|m: nat| #[trigger] self.accepts(pad(w, m, lsd)) by {
                        nfa.lemma_det_reach_from(self, w);
                        if d.accepts(w) {
                            assert(nfa.accepts(w));
                            let t = choose|t: nat| t < nfa.nstates && #[trigger] nfa.reach(w, t) && nfa.accept@[t as int];
                            let s0 = choose|s0: nat| #[trigger] nfa.is_init(s0) && t == self.run_from(s0, w);
                            let i = choose|i: int| 0 <= i < nfa.init@.len() && nfa.init@[i] == s0 as State;
                            assert(init@[i] as nat == trun(tr, al, 0, zeros(i as nat)));
                            lemma_trun_concat(tr, al, 0, zeros(i as nat), w);
                            assert(self.accepts(pad(w, i as nat, lsd)));
                        }
                        if exists|m: nat| #[trigger] self.accepts(pad(w, m, lsd)) {
                            let m = choose|m: nat| #[trigger] self.accepts(pad(w, m, lsd));
                            self.lemma_chain(init@, m);
                            lemma_trun_concat(tr, al, 0, zeros(m), w);
                            let z = trun(tr, al, 0, zeros(m));
                            lemma_trun(tr, n as nat, al, 0, zeros(m));
                            lemma_pad_over(w, m, lsd, al);
                            assert(nfa.is_init(z));
                            let t = self.run_from(z, w);
                            lemma_trun(tr, n as nat, al, z, w);
                            assert(nfa.reach(w, t));
                            assert(nfa.accepts(w));
                        }
                    }
                }
                Some(d)
            },
        }
    }
}


/// `k^(a+b) = k^a * k^b`.
pub proof fn lemma_spow_add(k: nat, a: nat, b: nat)
    ensures
        spow(k, a + b) == spow(k, a) * spow(k, b),
    decreases b,
{
    if b > 0 {
        lemma_spow_add(k, a, (b - 1) as nat);
        assert((a + b - 1) as nat == a + (b - 1) as nat);
        assert(spow(k, a + b) == k * spow(k, (a + b - 1) as nat));
        assert(spow(k, a) * (k * spow(k, (b - 1) as nat)) == k * (spow(k, a) * spow(k, (b - 1) as nat))) by (nonlinear_arith);
        assert(spow(k, b) == k * spow(k, (b - 1) as nat));
        assert(spow(k, (a + (b - 1) as nat)) == spow(k, a) * spow(k, (b - 1) as nat));
    } else {
        assert(spow(k, 0) == 1);
        assert(a + b == a);
        assert(spow(k, a) * 1 == spow(k, a));
    }
}

/// The letter `s` with the digit `d` inserted as coordinate `pos`.
pub open spec fn ins_sym(s: nat, pos: nat, d: nat, k: nat) -> nat {
    s % spow(k, pos) + d * spow(k, pos) + (s / spow(k, pos)) * spow(k, pos + 1)
}

/// The word `w` with the track `u` inserted as coordinate `pos`.
pub open spec fn ins_word(w: Seq<usize>, pos: nat, u: Seq<usize>, k: nat) -> Seq<usize> {
    Seq::new(w.len(), |i: int| ins_sym(w[i] as nat, pos, u[i] as nat, k) as usize)
}

/// Inserting a digit into a letter of `n` coordinates gives a letter of `n + 1`.
pub proof fn lemma_ins_sym_bound(s: nat, pos: nat, d: nat, k: nat, n: nat)
    requires
        k >= 1,
        pos <= n,
        s < spow(k, n),
        d < k,
    ensures
        ins_sym(s, pos, d, k) < spow(k, n + 1),
{
    let l = spow(k, pos);
    let r = spow(k, (n - pos) as nat);
    lemma_spow_pos(k, pos);
    lemma_spow_pos(k, (n - pos) as nat);
    lemma_spow_add(k, pos, (n - pos) as nat);
    lemma_spow_add(k, pos + 1, (n - pos) as nat);
    assert(spow(k, pos + 1) == k * l);
    let low = s % l;
    let high = s / l;
    assert(s == high * l + low) by (nonlinear_arith)
        requires
            l >= 1,
            low == s % l,
            high == s / l,
    ;
    assert(high < r) by (nonlinear_arith)
        requires
            s < l * r,
            s == high * l + low,
            0 <= low,
            l >= 1,
    ;
    assert(low + d * l + high * (k * l) < (k * l) * r) by (nonlinear_arith)
        requires
            low < l,
            d < k,
            high < r,
            0 <= low,
            0 <= high,
            l >= 1,
    ;
}

/// `d` accepts, for some digit on the track `pos`, the letter `s` with that digit inserted.
pub open spec fn proj_edge(d: &Dfa, pos: nat, st: nat, s: nat, t: nat) -> bool {
    exists|x: nat| x < d.k && t == #[trigger] d.step(st, ins_sym(s, pos, x, d.k as nat))
}

/// Some track for coordinate `pos`, as long as `w`, makes `d` accept.
pub open spec fn proj_accepts(d: &Dfa, pos: nat, w: Seq<usize>) -> bool {
    exists|u: Seq<usize>| u.len() == w.len() && word_over(u, d.k as nat) && #[trigger] d.accepts(ins_word(w, pos, u, d.k as nat))
}

/// `r` is the projection of `d` along the variable named `var`, closed under
/// zero padding in the given digit order.
pub open spec fn projects(d: &Dfa, var: Seq<char>, lsd: bool, r: &Dfa) -> bool {
    let pos = first_index(names(d.vars@), var);
    &&& r.wf()
    &&& r.k == d.k
    &&& r.vars@ == d.vars@.remove(pos as int)
    &&& forall|w: Seq<usize>| word_over(w, r.alpha as nat) ==> #[trigger] r.accepts(w)
        == exists|m: nat| #[trigger] proj_accepts(d, pos, pad(w, m, lsd))
}

/// An NFA reversed, determinised, reversed and determinised again: a DFA for
/// the same language. `None` when either subset construction reaches `cap`.
pub fn brzozowski(n: &Nfa, cap: usize) -> (r: Option<Dfa>)
    requires
        n.wf(),
        cap <= u32::MAX,
    ensures
        r matches Some(d) ==> {
            &&& d.wf()
            &&& d.k == n.k
            &&& d.vars@ == n.vars@
            &&& d.alpha == n.alpha
            &&& forall|w: Seq<usize>| word_over(w, n.alpha as nat) ==> #[trigger] d.accepts(w) == n.accepts(w)
        },
{
    let r = n.reversed();
    let r1 = match r.determinize_capped(cap) {
        Some(d) => d,
        None => return None,
    };
    let m = r1.as_nfa();
    let r2 = m.reversed();
    let r3 = match r2.determinize_capped(cap) {
        Some(d) => d,
        None => return None,
    };
    proof {
        assert forall|w: Seq<usize>| word_over(w, n.alpha as nat) implies #[trigger] r3.accepts(w) == n.accepts(w) by {
            let v = w.reverse();
            assert(word_over(v, n.alpha as nat));
            assert(v.reverse() =~= w);
            assert(r.accepts(v.reverse()) == n.accepts(v));
            assert(r1.accepts(w) == r.accepts(w));
            assert(m.accepts(w) == r1.accepts(w));
            assert(r2.accepts(w.reverse()) == m.accepts(w));
            assert(r2.accepts(v) == m.accepts(w));
            assert(r3.accepts(v) == r2.accepts(v));
            assert(r.accepts(w) == n.accepts(v));
            assert(word_over(v.reverse(), n.alpha as nat));
            assert(r3.accepts(w) == r2.accepts(w));
            assert(r2.accepts(v.reverse()) == m.accepts(v));
            assert(m.accepts(v) == r1.accepts(v));
            assert(r1.accepts(v) == r.accepts(v));
            assert(r.accepts(v) == n.accepts(w)) by {
                assert(r.accepts(w.reverse()) == n.accepts(w));
            }
        }
    }
    Some(r3)
}

/// The smaller of `x` and `u32::MAX`.
pub fn clamp32(x: usize) -> (r: usize)
    ensures
        r <= u32::MAX,
        r == if x <= u32::MAX { x } else { u32::MAX as usize },
{
    if x <= 4294967295usize { x } else { 4294967295usize }
}

impl Dfa {
    /// The NFA reading the other tracks, guessing the digit of track `pos`.
    pub fn projection_nfa(&self, pos: usize) -> (r: Nfa)
        requires
            self.wf(),
            pos < self.vars.len(),
        ensures
            r.wf(),
            r.k == self.k,
            r.vars@ == self.vars@.remove(pos as int),
            r.nstates == self.nstates,
            r.alpha == spow(self.k as nat, (self.vars.len() - 1) as nat),
            forall|w: Seq<usize>| word_over(w, r.alpha as nat) ==> #[trigger] r.accepts(w) == proj_accepts(self, pos as nat, w),
    {
        let k = self.k;
        let n = self.nstates;
        let nv = self.vars.len();
        let mut newvars = crate::strs::copy_names(&self.vars);
        newvars.remove(pos);
        proof {
            crate::dfa::lemma_spow_mono(k as nat, (nv - 1) as nat, nv as nat);
            crate::dfa::lemma_spow_mono(k as nat, pos as nat, nv as nat);
            crate::dfa::lemma_spow_mono(k as nat, (pos + 1) as nat, nv as nat);
            lemma_spow_pos(k as nat, (nv - 1) as nat);
            lemma_spow_pos(k as nat, pos as nat);
            assert(spow(k as nat, (pos + 1) as nat) == k * spow(k as nat, pos as nat));
            assert(names(newvars@) =~= names(self.vars@).remove(pos as int));
            assert(distinct(names(newvars@))) by {
                assert forall|i: int, j: int| 0 <= i < newvars.len() && 0 <= j < newvars.len() && i != j
                    implies names(newvars@)[i] != names(newvars@)[j] by {
                    let i2 = if i < pos { i } else { i + 1 };
                    let j2 = if j < pos { j } else { j + 1 };
                    assert(names(newvars@)[i] == names(self.vars@)[i2]);
                    assert(names(newvars@)[j] == names(self.vars@)[j2]);
                }
            }
        }
        let nalpha = pow(k, newvars.len());
        let lo = pow(k, pos);
        let hi = lo * k;
        let alpha = self.alpha;
        let ghost gk = k as nat;
        let mut trans: Vec<Vec<State>> = Vec::new();
        let mut st: usize = 0;
        proof {
            assert(self.trans@.len() == n * alpha);
            assert(n * nalpha <= n * alpha) by (nonlinear_arith)
                requires
                    nalpha <= alpha,
            ;
        }
        let tl = self.trans.len();
        while st < n
            invariant
                self.wf(),
                k == self.k,
                gk == k,
                n == self.nstates,
                alpha == self.alpha,
                tl == n * alpha,
                n * nalpha <= tl,
                nv == self.vars.len(),
                pos < nv,
                nalpha == spow(gk, (nv - 1) as nat),
                lo == spow(gk, pos as nat),
                hi == spow(gk, (pos + 1) as nat),
                lo >= 1,
                st <= n,
                trans.len() == st * nalpha,
                forall|i: int, j: int| 0 <= i < trans@.len() && 0 <= j < trans@[i]@.len() ==> (#[trigger] trans@[i]@[j] as nat) < n,
                forall|x: nat, s: nat, t: nat| x < st && s < nalpha && t < n ==>
                    (#[trigger] trans@[(x * nalpha + s) as int]@.contains(t as State) <==> proj_edge(self, pos as nat, x, s, t)),
            decreases n - st,
        {
            let mut s: usize = 0;
            while s < nalpha
                invariant
                    self.wf(),
                    k == self.k,
                    gk == k,
                    n == self.nstates,
                    alpha == self.alpha,
                    tl == n * alpha,
                    n * nalpha <= tl,
                    nv == self.vars.len(),
                    pos < nv,
                    nalpha == spow(gk, (nv - 1) as nat),
                    lo == spow(gk, pos as nat),
                    hi == spow(gk, (pos + 1) as nat),
                    lo >= 1,
                    st < n,
                    s <= nalpha,
                    trans.len() == st * nalpha + s,
                    forall|i: int, j: int| 0 <= i < trans@.len() && 0 <= j < trans@[i]@.len() ==> (#[trigger] trans@[i]@[j] as nat) < n,
                    forall|x: nat, s2: nat, t: nat| (x < st || (x == st && s2 < s)) && s2 < nalpha && t < n ==>
                        (#[trigger] trans@[(x * nalpha + s2) as int]@.contains(t as State) <==> proj_edge(self, pos as nat, x, s2, t)),
                decreases nalpha - s,
            {
                let low = s % lo;
                let high = s / lo;
                let mut set: Vec<State> = Vec::new();
                let mut d: usize = 0;
                while d < k
                    invariant
                        self.wf(),
                        k == self.k,
                        gk == k,
                        n == self.nstates,
                        alpha == self.alpha,
                        nv == self.vars.len(),
                        pos < nv,
                        nalpha == spow(gk, (nv - 1) as nat),
                        lo == spow(gk, pos as nat),
                        hi == spow(gk, (pos + 1) as nat),
                        lo >= 1,
                        st < n,
                        s < nalpha,
                        low == s % lo,
                        high == s / lo,
                        d <= k,
                        forall|j: int| 0 <= j < set@.len() ==> (#[trigger] set@[j] as nat) < n,
                        forall|t: nat| t < n ==> (#[trigger] set@.contains(t as State) <==> exists|x: nat| x < d && t == #[trigger] self.step(st as nat, ins_sym(s as nat, pos as nat, x, gk))),
                    decreases k - d,
                {
                    proof {
                        lemma_ins_sym_bound(s as nat, pos as nat, d as nat, gk, (nv - 1) as nat);
                        assert(spow(gk, (nv - 1 + 1) as nat) == alpha);
                        assert(low + d * lo + high * hi == ins_sym(s as nat, pos as nat, d as nat, gk));
                        assert(d * lo <= ins_sym(s as nat, pos as nat, d as nat, gk));
                        assert(high * hi <= ins_sym(s as nat, pos as nat, d as nat, gk));
                    }
                    let old = low + d * lo + high * hi;
                    let t = self.t(st, old);
                    let ghost pre = set@;
                    if !crate::strs::u32_contains(&set, t as State) {
                        set.push(t as State);
                    }
                    proof {
                        assert forall|t2: nat| t2 < n implies (#[trigger] set@.contains(t2 as State) <==> exists|x: nat| x < d + 1 && t2 == #[trigger] self.step(st as nat, ins_sym(s as nat, pos as nat, x, gk))) by {
                            if set@.len() > pre.len() {
                                vstd::seq_lib::lemma_seq_contains_after_push(pre, t as State, t2 as State);
                            }
                            if t2 == t {
                                assert(t2 == self.step(st as nat, ins_sym(s as nat, pos as nat, d as nat, gk)));
                            }
                            if exists|x: nat| x < d + 1 && t2 == #[trigger] self.step(st as nat, ins_sym(s as nat, pos as nat, x, gk)) {
                                let x = choose|x: nat| x < d + 1 && t2 == #[trigger] self.step(st as nat, ins_sym(s as nat, pos as nat, x, gk));
                                if x < d {
                                    assert(pre.contains(t2 as State));
                                }
                            }
                        }
                    }
                    d = d + 1;
                }
                let ghost pre_trans = trans@;
                trans.push(set);
                proof {
                    assert forall|x: nat, s2: nat, t: nat| (x < st || (x == st && s2 < s + 1)) && s2 < nalpha && t < n implies
                        (#[trigger] trans@[(x * nalpha + s2) as int]@.contains(t as State) <==> proj_edge(self, pos as nat, x, s2, t)) by {
                        if x < st {
                            lemma_index(x, s2, st as nat, nalpha as nat);
                        }
                        if x < st || s2 < s {
                            assert(trans@[(x * nalpha + s2) as int] == pre_trans[(x * nalpha + s2) as int]);
                        } else {
                            assert(x * nalpha + s2 == st * nalpha + s);
                        }
                    }
                    assert forall|i: int, j: int| 0 <= i < trans@.len() && 0 <= j < trans@[i]@.len() implies (#[trigger] trans@[i]@[j] as nat) < n by {
                        if i < pre_trans.len() {
                            assert(trans@[i] == pre_trans[i]);
                        }
                    }
                }
                s = s + 1;
            }
            proof {
                assert((st + 1) * nalpha == st * nalpha + nalpha) by (nonlinear_arith);
                assert((st + 1) * nalpha <= n * nalpha) by (nonlinear_arith)
                    requires
                        st < n,
                ;
            }
            st = st + 1;
        }
        let init: Vec<State> = vec![0];
        let r = Nfa { k, vars: newvars, alpha: nalpha, nstates: n, trans, init, accept: self.accept.clone() };
        proof {
            assert(r.accept@ =~= self.accept@);
            assert(r.init@ =~= seq![0 as State]);
            assert(nalpha >= 1) by {
                lemma_spow_pos(gk, (nv - 1) as nat);
            }
            assert(nalpha <= MAX_ALPHA);
            assert forall|x: nat, a: nat, t: nat| x < n && a < nalpha && t < n implies (#[trigger] r.edge(x, a, t) <==> proj_edge(self, pos as nat, x, a, t)) by {}
            assert forall|w: Seq<usize>| word_over(w, r.alpha as nat) implies #[trigger] r.accepts(w) == proj_accepts(self, pos as nat, w) by {
                self.lemma_projection_accepts(&r, pos as nat, w);
            }
        }
        r
    }

    /// The projection NFA accepts exactly the words some inserted track completes.
    pub proof fn lemma_projection_accepts(&self, r: &Nfa, pos: nat, w: Seq<usize>)
        requires
            self.wf(),
            r.wf(),
            pos < self.vars.len(),
            r.nstates == self.nstates,
            r.alpha == spow(self.k as nat, (self.vars.len() - 1) as nat),
            r.init@ == seq![0 as State],
            r.accept@ == self.accept@,
            forall|x: nat, a: nat, t: nat| x < r.nstates && a < r.alpha && t < r.nstates ==> (#[trigger] r.edge(x, a, t) <==> proj_edge(self, pos, x, a, t)),
            word_over(w, r.alpha as nat),
        ensures
            r.accepts(w) == proj_accepts(self, pos, w),
    {
        self.lemma_projection_reach(r, pos, w);
        let k = self.k as nat;
        if r.accepts(w) {
            let t = choose|t: nat| t < r.nstates && #[trigger] r.reach(w, t) && r.accept@[t as int];
            let u = choose|u: Seq<usize>| u.len() == w.len() && word_over(u, k) && t == #[trigger] self.run_from(0, ins_word(w, pos, u, k));
            assert(self.accepts(ins_word(w, pos, u, k)));
        }
        if proj_accepts(self, pos, w) {
            let u = choose|u: Seq<usize>| u.len() == w.len() && word_over(u, k) && #[trigger] self.accepts(ins_word(w, pos, u, k));
            let t = self.run_from(0, ins_word(w, pos, u, k));
            assert(r.reach(w, t));
        }
    }

    /// States the projection NFA reaches are the runs on some inserted track.
    pub proof fn lemma_projection_reach(&self, r: &Nfa, pos: nat, w: Seq<usize>)
        requires
            self.wf(),
            r.wf(),
            pos < self.vars.len(),
            r.nstates == self.nstates,
            r.alpha == spow(self.k as nat, (self.vars.len() - 1) as nat),
            r.init@ == seq![0 as State],
            forall|x: nat, a: nat, t: nat| x < r.nstates && a < r.alpha && t < r.nstates ==> (#[trigger] r.edge(x, a, t) <==> proj_edge(self, pos, x, a, t)),
            word_over(w, r.alpha as nat),
        ensures
            forall|t: nat| #[trigger] r.reach(w, t) <==> exists|u: Seq<usize>| u.len() == w.len() && word_over(u, self.k as nat)
                && t == #[trigger] self.run_from(0, ins_word(w, pos, u, self.k as nat)),
            forall|u: Seq<usize>| u.len() == w.len() && word_over(u, self.k as nat) ==> word_over(#[trigger] ins_word(w, pos, u, self.k as nat), self.alpha as nat),
        decreases w.len(),
    {
        let k = self.k as nat;
        let nv = self.vars.len() as nat;
        assert forall|u: Seq<usize>| u.len() == w.len() && word_over(u, k) implies word_over(#[trigger] ins_word(w, pos, u, k), self.alpha as nat) by {
            assert forall|i: int| 0 <= i < ins_word(w, pos, u, k).len() implies (#[trigger] ins_word(w, pos, u, k)[i] as nat) < self.alpha by {
                lemma_ins_sym_bound(w[i] as nat, pos, u[i] as nat, k, (nv - 1) as nat);
                assert(spow(k, (nv - 1 + 1) as nat) == self.alpha);
            }
        }
        if w.len() == 0 {
            assert forall|t: nat| #[trigger] r.reach(w, t) <==> exists|u: Seq<usize>| u.len() == w.len() && word_over(u, k)
                && t == #[trigger] self.run_from(0, ins_word(w, pos, u, k)) by {
                let u0 = Seq::<usize>::empty();
                assert(ins_word(w, pos, u0, k) =~= Seq::<usize>::empty());
                if r.reach(w, t) {
                    assert(r.init@.contains(t as State));
                    assert(r.init@[0] == 0);
                    let j = choose|j: int| 0 <= j < r.init@.len() && r.init@[j] == t as State;
                    assert(t == 0);
                    assert(t == self.run_from(0, ins_word(w, pos, u0, k)));
                }
                if exists|u: Seq<usize>| u.len() == w.len() && word_over(u, k) && t == #[trigger] self.run_from(0, ins_word(w, pos, u, k)) {
                    let u = choose|u: Seq<usize>| u.len() == w.len() && word_over(u, k) && t == #[trigger] self.run_from(0, ins_word(w, pos, u, k));
                    assert(ins_word(w, pos, u, k) =~= Seq::<usize>::empty());
                    assert(t == 0);
                    assert(r.init@[0] == 0);
                    assert(r.init@.contains(0));
                }
            }
        } else {
            let w0 = w.drop_last();
            let a = w.last() as nat;
            lemma_word_over_sub(w, r.alpha as nat);
            self.lemma_projection_reach(r, pos, w0);
            self.lemma_steps();
            assert forall|t: nat| #[trigger] r.reach(w, t) <==> exists|u: Seq<usize>| u.len() == w.len() && word_over(u, k)
                && t == #[trigger] self.run_from(0, ins_word(w, pos, u, k)) by {
                if r.reach(w, t) {
                    let s = choose|s: nat| #[trigger] r.reach_set(w0).contains(s) && s < r.nstates && r.edge(s, a, t);
                    assert(r.reach(w0, s));
                    let u0 = choose|u0: Seq<usize>| u0.len() == w0.len() && word_over(u0, k) && s == #[trigger] self.run_from(0, ins_word(w0, pos, u0, k));
                    assert(proj_edge(self, pos, s, a, t));
                    let x = choose|x: nat| x < self.k && t == #[trigger] self.step(s, ins_sym(a, pos, x, k));
                    let u = u0.push(x as usize);
                    lemma_ins_sym_bound(a, pos, x, k, (nv - 1) as nat);
                    assert(spow(k, (nv - 1 + 1) as nat) == self.alpha);
                    assert(ins_word(w, pos, u, k).drop_last() =~= ins_word(w0, pos, u0, k));
                    assert(ins_word(w, pos, u, k).last() == ins_sym(a, pos, x, k) as usize);
                    assert(word_over(u, k)) by {
                        assert forall|i: int| 0 <= i < u.len() implies (#[trigger] u[i] as nat) < k by {
                            if i < u0.len() {
                                assert(u[i] == u0[i]);
                            }
                        }
                    }
                    assert(t == self.run_from(0, ins_word(w, pos, u, k)));
                }
                if exists|u: Seq<usize>| u.len() == w.len() && word_over(u, k) && t == #[trigger] self.run_from(0, ins_word(w, pos, u, k)) {
                    let u = choose|u: Seq<usize>| u.len() == w.len() && word_over(u, k) && t == #[trigger] self.run_from(0, ins_word(w, pos, u, k));
                    let u0 = u.drop_last();
                    let x = u.last() as nat;
                    lemma_word_over_sub(u, k);
                    assert(ins_word(w, pos, u, k).drop_last() =~= ins_word(w0, pos, u0, k));
                    assert(ins_word(w, pos, u, k).last() == ins_sym(a, pos, x, k) as usize);
                    let s = self.run_from(0, ins_word(w0, pos, u0, k));
                    assert(word_over(ins_word(w0, pos, u0, k), self.alpha as nat));
                    lemma_trun(self.trans@, self.nstates as nat, self.alpha as nat, 0, ins_word(w0, pos, u0, k));
                    assert(r.reach(w0, s));
                    lemma_ins_sym_bound(a, pos, x, k, (nv - 1) as nat);
                    assert(spow(k, (nv - 1 + 1) as nat) == self.alpha);
                    assert(t == self.step(s, ins_sym(a, pos, x, k)));
                    assert(t < self.nstates);
                    assert(proj_edge(self, pos, s, a, t));
                    assert(r.edge(s, a, t));
                    assert(r.reach_set(w0).contains(s));
                }
            }
        }
    }
}

/// `x` is the complement of `d`, restricted to valid representations.
pub open spec fn complements(cx: &Ctx, d: &Dfa, x: &Dfa) -> bool {
    &&& x.wf()
    &&& x.k == d.k
    &&& x.vars.len() == d.vars.len()
    &&& forall|v: Seq<char>| names(x.vars@).contains(v) <==> names(d.vars@).contains(v)
    &&& forall|w: Seq<usize>| word_over(w, x.alpha as nat) ==> #[trigger] x.accepts(w) == (!d.accepts(
        crate::product::lift_word(w, d.vars@, x.vars@, d.k as nat)) && cx.valid_word(w, x.vars.len() as nat, d.k as nat))
}

/// `x` is `d` with the variable `var` projected away (`d` itself when it has no such variable).
pub open spec fn projected(cx: &Ctx, d: &Dfa, var: Seq<char>, x: &Dfa) -> bool {
    if names(d.vars@).contains(var) {
        projects(d, var, cx.lsd, x)
    } else {
        x.eqv(d)
    }
}

/// `c * 4` (saturating) or `floor`, whichever is larger, within `u32` range.
pub fn ladder_cap(c: usize, floor: usize) -> (r: usize)
    ensures
        r <= u32::MAX,
        ({
            let c4: int = if c > usize::MAX / 4 { usize::MAX as int } else { c * 4 };
            let m: int = if c4 > floor { c4 } else { floor as int };
            r == if m <= u32::MAX { m } else { u32::MAX as int }
        }),
{
    let c4 = if c > usize::MAX / 4 { usize::MAX } else { c * 4 };
    let m = if c4 > floor { c4 } else { floor };
    clamp32(m)
}

impl Dfa {
    /// Existentially project out `var`, then re-close under zero padding.
    /// Determinisation climbs a ladder: forward with the small cap, Brzozowski,
    /// forward with the large cap, Brzozowski with a larger one; `None` when
    /// all four exceed their caps.
    pub fn exists_var(&self, var: &str, cx: &Ctx) -> (r: Option<Dfa>)
        requires
            self.wf(),
            cx.wf(),
        ensures
            r matches Some(x) ==> projected(cx, self, var@, &x),
            !names(self.vars@).contains(var@) ==> r is Some,
    {
        let pos = match crate::strs::position(&self.vars, var) {
            None => {
                let x = self.dup();
                return Some(x);
            },
            Some(p) => p,
        };
        let nfa = self.projection_nfa(pos);
        let cap0 = clamp32(cx.cap0);
        let cap = clamp32(cx.cap);
        let det = match nfa.determinize_capped(cap0) {
            Some(d) => Some(d),
            None => match brzozowski(&nfa, ladder_cap(cx.cap0, 200000)) {
                Some(d) => Some(d),
                None => match nfa.determinize_capped(cap) {
                    Some(d) => Some(d),
                    None => brzozowski(&nfa, ladder_cap(cx.cap, 8000000)),
                },
            },
        };
        let d = match det {
            Some(d) => d,
            None => return None,
        };
        let z = match d.zero_closure(cx.lsd) {
            Some(z) => z,
            None => return None,
        };
        let res = z.minimize();
        proof {
            let p = pos as nat;
            assert(first_index(names(self.vars@), var@) == p);
            assert forall|w: Seq<usize>| word_over(w, res.alpha as nat) implies #[trigger] res.accepts(w)
                == exists|m: nat| #[trigger] proj_accepts(self, p, pad(w, m, cx.lsd)) by {
                assert(res.accepts(w) == z.accepts(w));
                assert(z.accepts(w) == exists|m: nat| #[trigger] d.accepts(pad(w, m, cx.lsd)));
                if exists|m: nat| #[trigger] d.accepts(pad(w, m, cx.lsd)) {
                    let m = choose|m: nat| #[trigger] d.accepts(pad(w, m, cx.lsd));
                    lemma_pad_over(w, m, cx.lsd, d.alpha as nat);
                    assert(proj_accepts(self, p, pad(w, m, cx.lsd)));
                }
                if exists|m: nat| #[trigger] proj_accepts(self, p, pad(w, m, cx.lsd)) {
                    let m = choose|m: nat| #[trigger] proj_accepts(self, p, pad(w, m, cx.lsd));
                    lemma_pad_over(w, m, cx.lsd, d.alpha as nat);
                    assert(d.accepts(pad(w, m, cx.lsd)));
                }
            }
        }
        Some(res)
    }

    /// Universal quantification `A var`, via De Morgan: `!exists var. !self`.
    pub fn forall_var(&self, var: &str, cx: &Ctx) -> (r: Option<Dfa>)
        requires
            self.wf(),
            cx.wf(),
            cx.fits(self.k as nat),
        ensures
            r matches Some(x) ==> x.wf() && x.k == self.k,
            r matches Some(x) ==> exists|c1: Dfa, e: Dfa, c2: Dfa|
                #![trigger complements(cx, self, &c1), projected(cx, &c1, var@, &e), complements(cx, &e, &c2)]
                complements(cx, self, &c1) && projected(cx, &c1, var@, &e) && complements(cx, &e, &c2)
                && x.same_sig(&c2) && x.same_lang(&c2),
            r matches Some(x) ==> (cx.ns is None && names(self.vars@).contains(var@)) ==> {
                let pos = first_index(names(self.vars@), var@);
                &&& x.vars@ == self.vars@.remove(pos as int)
                &&& forall|w: Seq<usize>| word_over(w, x.alpha as nat) ==> #[trigger] x.accepts(w)
                    == forall|m: nat, u: Seq<usize>| u.len() == w.len() + m && word_over(u, self.k as nat)
                        ==> #[trigger] self.accepts(ins_word(pad(w, m, cx.lsd), pos, u, self.k as nat))
            },
    {
        let c1 = match self.complement(cx) {
            Some(c) => c,
            None => return None,
        };
        let e = match c1.exists_var(var, cx) {
            Some(e) => e,
            None => return None,
        };
        proof {
            if !names(c1.vars@).contains(var@) {
                assert(e.eqv(&c1));
            }
            assert(e.k == self.k);
        }
        let c2 = match e.complement(cx) {
            Some(c) => c,
            None => return None,
        };
        let x = c2.minimize();
        proof {
            assert(complements(cx, self, &c1));
            assert(projected(cx, &c1, var@, &e));
            assert(complements(cx, &e, &c2));
            if cx.ns is None && names(self.vars@).contains(var@) {
                assert(self.vars@.len() > 0);
                self.lemma_forall_plain(cx, var@, &c1, &e, &c2, &x);
            }
        }
        Some(x)
    }

    /// In plain base `k`, the De Morgan construction quantifies every inserted track.
    pub proof fn lemma_forall_plain(&self, cx: &Ctx, var: Seq<char>, c1: &Dfa, e: &Dfa, c2: &Dfa, x: &Dfa)
        requires
            self.wf(),
            cx.ns is None,
            names(self.vars@).contains(var),
            complements(cx, self, c1),
            c1.vars@ == self.vars@,
            self.vars.len() >= 1,
            projected(cx, c1, var, e),
            complements(cx, e, c2),
            c2.vars@ == e.vars@,
            x.same_sig(c2),
            x.same_lang(c2),
        ensures
            ({
                let pos = first_index(names(self.vars@), var);
                &&& x.vars@ == self.vars@.remove(pos as int)
                &&& forall|w: Seq<usize>| word_over(w, x.alpha as nat) ==> #[trigger] x.accepts(w)
                    == forall|m: nat, u: Seq<usize>| u.len() == w.len() + m && word_over(u, self.k as nat)
                        ==> #[trigger] self.accepts(ins_word(pad(w, m, cx.lsd), pos, u, self.k as nat))
            }),
    {
        let pos = first_index(names(self.vars@), var);
        let k = self.k as nat;
        lemma_first_index(names(self.vars@), var);
        assert(e.vars@ == c1.vars@.remove(pos as int));
        assert forall|w: Seq<usize>| word_over(w, x.alpha as nat) implies #[trigger] x.accepts(w)
            == forall|m: nat, u: Seq<usize>| u.len() == w.len() + m && word_over(u, k)
                ==> #[trigger] self.accepts(ins_word(pad(w, m, cx.lsd), pos, u, k)) by {
            crate::product::lemma_lift_same(w, e.vars@, k);
            assert(x.accepts(w) == c2.accepts(w));
            assert(c2.accepts(w) == !e.accepts(w));
            assert(e.accepts(w) == exists|m: nat| #[trigger] proj_accepts(c1, pos, pad(w, m, cx.lsd)));
            if e.accepts(w) {
                let m = choose|m: nat| #[trigger] proj_accepts(c1, pos, pad(w, m, cx.lsd));
                let v = pad(w, m, cx.lsd);
                let u = choose|u: Seq<usize>| u.len() == v.len() && word_over(u, k) && #[trigger] c1.accepts(ins_word(v, pos, u, k));
                lemma_pad_over(w, m, cx.lsd, e.alpha as nat);
                lemma_ins_word_over(v, pos, u, k, (self.vars.len() - 1) as nat);
                assert(spow(k, (self.vars.len() - 1 + 1) as nat) == self.alpha);
                crate::product::lemma_lift_same(ins_word(v, pos, u, k), self.vars@, k);
                assert(!self.accepts(ins_word(pad(w, m, cx.lsd), pos, u, k)));
            } else {
                assert forall|m: nat, u: Seq<usize>| u.len() == w.len() + m && word_over(u, k)
                    implies #[trigger] self.accepts(ins_word(pad(w, m, cx.lsd), pos, u, k)) by {
                    let v = pad(w, m, cx.lsd);
                    lemma_pad_over(w, m, cx.lsd, e.alpha as nat);
                    lemma_ins_word_over(v, pos, u, k, (self.vars.len() - 1) as nat);
                    assert(spow(k, (self.vars.len() - 1 + 1) as nat) == self.alpha);
                    crate::product::lemma_lift_same(ins_word(v, pos, u, k), self.vars@, k);
                    if !self.accepts(ins_word(v, pos, u, k)) {
                        assert(c1.accepts(ins_word(v, pos, u, k)));
                        assert(proj_accepts(c1, pos, v));
                    }
                }
            }
        }
    }
}

/// Inserting a track of digits into a word of `n`-coordinate letters gives a word of `n + 1`-coordinate letters.
pub proof fn lemma_ins_word_over(w: Seq<usize>, pos: nat, u: Seq<usize>, k: nat, n: nat)
    requires
        k >= 1,
        pos <= n,
        spow(k, n + 1) <= MAX_ALPHA,
        word_over(w, spow(k, n)),
        word_over(u, k),
        u.len() == w.len(),
    ensures
        word_over(ins_word(w, pos, u, k), spow(k, n + 1)),
{
    assert forall|i: int| 0 <= i < ins_word(w, pos, u, k).len() implies (#[trigger] ins_word(w, pos, u, k)[i] as nat) < spow(k, n + 1) by {
        lemma_ins_sym_bound(w[i] as nat, pos, u[i] as nat, k, n);
    }
}

impl Dfa {
    /// The language reversal: reverse the automaton as an NFA, determinise and
    /// minimise. `None` when the subset construction exceeds the `u32` range.
    pub fn reverse_dfa(&self) -> (r: Option<Dfa>)
        requires
            self.wf(),
        ensures
            r matches Some(x) ==> {
                &&& x.wf()
                &&& x.same_sig(self)
                &&& forall|w: Seq<usize>| word_over(w, self.alpha as nat) ==> #[trigger] x.accepts(w) == self.accepts(w.reverse())
            },
    {
        let n = self.as_nfa();
        let rv = n.reversed();
        let d = match rv.determinize() {
            Some(d) => d,
            None => return None,
        };
        let x = d.minimize();
        proof {
            assert forall|w: Seq<usize>| word_over(w, self.alpha as nat) implies #[trigger] x.accepts(w) == self.accepts(w.reverse()) by {
                let v = w.reverse();
                assert(word_over(v, self.alpha as nat));
                assert(v.reverse() =~= w);
                assert(rv.accepts(v.reverse()) == n.accepts(v));
                assert(n.accepts(v) == self.accepts(v));
                assert(d.accepts(w) == rv.accepts(w));
            }
        }
        Some(x)
    }

    /// Brzozowski-style determinization: reverse and determinize, then
    /// reverse and determinize again. The language is kept; `None` when either
    /// subset construction exceeds the `u32` range.
    pub fn reverse_determinize(&self) -> (r: Option<Dfa>)
        requires
            self.wf(),
        ensures
            r matches Some(x) ==> {
                &&& x.wf()
                &&& x.same_sig(self)
                &&& forall|w: Seq<usize>| word_over(w, self.alpha as nat) ==> #[trigger] x.accepts(w) == self.accepts(w)
            },
    {
        let r1 = match self.reverse_dfa() {
            Some(d) => d,
            None => return None,
        };
        let r2 = match r1.reverse_dfa() {
            Some(d) => d,
            None => return None,
        };
        proof {
            assert forall|w: Seq<usize>| word_over(w, self.alpha as nat) implies #[trigger] r2.accepts(w) == self.accepts(w) by {
                let v = w.reverse();
                assert(word_over(v, self.alpha as nat));
                assert(r2.accepts(w) == r1.accepts(v));
                assert(r1.accepts(v) == self.accepts(v.reverse()));
                assert(v.reverse() =~= w);
            }
        }
        Some(r2)
    }

    /// Permute coordinates so that the variable list becomes `target`, a
    /// permutation of it.
    pub fn reorder(&self, target: &Vec<String>) -> (r: Dfa)
        requires
            self.wf(),
            target.len() == self.vars.len(),
            distinct(names(target@)),
            forall|i: int| 0 <= i < self.vars.len() ==> names(target@).contains(#[trigger] names(self.vars@)[i]),
        ensures
            r.wf(),
            r.k == self.k,
            r.vars@ == target@,
            r.nstates == self.nstates,
            forall|w: Seq<usize>| word_over(w, r.alpha as nat) ==> #[trigger] r.accepts(w) == self.accepts(
                crate::product::lift_word(w, self.vars@, target@, self.k as nat)),
    {
        let tl = self.trans.len();
        proof {
            assert(tl == self.nstates * self.alpha);
        }
        self.extend_vars(target)
    }

    /// Rename the variables to `newnames` (position by position), then re-sort
    /// the coordinates so that the variable list is in canonical order.
    pub fn rename(&self, newnames: &Vec<String>) -> (r: Dfa)
        requires
            self.wf(),
            newnames.len() == self.vars.len(),
            distinct(names(newnames@)),
        ensures
            r.wf(),
            r.sorted(),
            r.k == self.k,
            r.nstates == self.nstates,
            r.vars.len() == newnames.len(),
            forall|x: Seq<char>| names(r.vars@).contains(x) <==> names(newnames@).contains(x),
            forall|w: Seq<usize>| word_over(w, r.alpha as nat) ==> #[trigger] r.accepts(w) == self.accepts(
                crate::product::lift_word(w, newnames@, r.vars@, self.k as nat)),
    {
        let sorted = match crate::strs::sort_distinct(newnames) {
            Some(s) => s,
            None => {
                proof {
                    let (i, j) = choose|i: int, j: int| 0 <= i < j < newnames.len() && names(newnames@)[i] == names(newnames@)[j];
                    assert(false);
                }
                crate::strs::copy_names(newnames)
            },
        };
        let tmp = Dfa {
            k: self.k,
            vars: crate::strs::copy_names(newnames),
            alpha: self.alpha,
            nstates: self.nstates,
            trans: self.trans.clone(),
            accept: self.accept.clone(),
        };
        proof {
            assert(tmp.trans@ =~= self.trans@);
            assert(tmp.accept@ =~= self.accept@);
            crate::product::lemma_sorted_distinct(names(sorted@));
            assert forall|i: int| 0 <= i < tmp.vars.len() implies names(sorted@).contains(#[trigger] names(tmp.vars@)[i]) by {
                assert(names(newnames@).contains(names(newnames@)[i]));
            }
        }
        let r = tmp.reorder(&sorted);
        proof {
            assert forall|w: Seq<usize>| word_over(w, r.alpha as nat) implies #[trigger] r.accepts(w) == self.accepts(
                crate::product::lift_word(w, newnames@, r.vars@, self.k as nat)) by {
                assert(tmp.accepts(crate::product::lift_word(w, tmp.vars@, sorted@, self.k as nat))
                    == self.accepts(crate::product::lift_word(w, tmp.vars@, sorted@, self.k as nat)));
            }
        }
        r
    }
}
} // verus!
