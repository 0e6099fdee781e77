//! Nondeterministic automata: reversal and the subset construction.
use vstd::prelude::*;
use std::collections::HashMap;
use crate::dfa::{
    Dfa, State, MAX_ALPHA, spow, word_over, distinct, tstep, lemma_index, lemma_trun,
    lemma_word_over_sub,
};
use crate::strs::names;
use crate::bits::{
    bs_ok, bs_has, bs_empty, bs_insert, bs_members, bs_eq, bs_hash, hash_bits, lemma_bs_differ,
};

verus! {

broadcast use vstd::std_specs::hash::group_hash_axioms;

/// A nondeterministic finite automaton with (possibly) multiple start states
/// and multiple successors per (state, symbol). `trans` is a flattened
/// `nstates x alpha` table of successor lists.
pub struct Nfa {
    pub k: usize,
    pub vars: Vec<String>,
    pub alpha: usize,
    pub nstates: usize,
    pub trans: Vec<Vec<State>>,
    pub init: Vec<State>,
    pub accept: Vec<bool>,
}

impl Nfa {
    /// Well-formed: the successor table and the start states stay among the states.
    pub open spec fn wf(&self) -> bool {
        &&& self.k >= 1
        &&& self.alpha == spow(self.k as nat, self.vars.len() as nat)
        &&& 1 <= self.alpha <= MAX_ALPHA
        &&& 1 <= self.nstates <= u32::MAX
        &&& self.trans@.len() == self.nstates * self.alpha
        &&& forall|i: int, j: int|
            0 <= i < self.trans@.len() && 0 <= j < self.trans@[i]@.len()
                ==> (#[trigger] self.trans@[i]@[j] as nat) < self.nstates
        &&& forall|j: int| 0 <= j < self.init@.len() ==> (#[trigger] self.init@[j] as nat) < self.nstates
        &&& self.accept@.len() == self.nstates
        &&& distinct(names(self.vars@))
    }

    /// There is an `a`-labelled edge from `s` to `t`.
    pub open spec fn edge(&self, s: nat, a: nat, t: nat) -> bool {
        self.trans@[(s * self.alpha + a) as int]@.contains(t as State)
    }

    /// `t` is a start state.
    pub open spec fn is_init(&self, t: nat) -> bool {
        t < self.nstates && self.init@.contains(t as State)
    }

    /// The states one `a`-step away from some member of `from`.
    pub open spec fn post(&self, from: Set<nat>, a: nat) -> Set<nat> {
        Set::new(|t: nat| t < self.nstates && exists|s: nat| #[trigger] from.contains(s) && s < self.nstates && self.edge(s, a, t))
    }

    /// The states reached from `s` along paths labelled `w`.
    pub open spec fn paths_from(&self, s: nat, w: Seq<usize>) -> Set<nat>
        decreases w.len(),
    {
        if w.len() == 0 {
            Set::new(|t: nat| t == s && t < self.nstates)
        } else {
            self.post(self.paths_from(s, w.drop_last()), w.last() as nat)
        }
    }

    /// Some path labelled `w` leads from `s` to `t`.
    #[verifier::inline]
    pub open spec fn path(&self, s: nat, w: Seq<usize>, t: nat) -> bool {
        self.paths_from(s, w).contains(t)
    }

    /// The states reached from the start states by reading `w`.
    pub open spec fn reach_set(&self, w: Seq<usize>) -> Set<nat>
        decreases w.len(),
    {
        if w.len() == 0 {
            Set::new(|t: nat| self.is_init(t))
        } else {
            self.post(self.reach_set(w.drop_last()), w.last() as nat)
        }
    }

    /// `t` is reached from a start state by reading `w`.
    #[verifier::inline]
    pub open spec fn reach(&self, w: Seq<usize>, t: nat) -> bool {
        self.reach_set(w).contains(t)
    }

    /// The word `w` is accepted: it reaches an accepting state.
    pub open spec fn accepts(&self, w: Seq<usize>) -> bool {
        exists|t: nat| t < self.nstates && #[trigger] self.reach(w, t) && self.accept@[t as int]
    }

    /// The words `u` and `v` reach different sets of states.
    pub open spec fn differ(&self, u: Seq<usize>, v: Seq<usize>) -> bool {
        exists|t: nat| t < self.nstates && #[trigger] self.reach_set(u).contains(t) != #[trigger] self.reach_set(v).contains(t)
    }

    /// Words whose sets of reached states are pairwise different.
    pub open spec fn distinct_reach(&self, ws: Seq<Seq<usize>>) -> bool {
        &&& forall|i: int| 0 <= i < ws.len() ==> word_over(#[trigger] ws[i], self.alpha as nat)
        &&& forall|i: int, j: int| 0 <= i < j < ws.len() ==> #[trigger] self.differ(ws[i], ws[j])
    }

    /// Reaching `t` is starting somewhere and following a path.
    pub proof fn lemma_reach_path(&self, w: Seq<usize>, t: nat)
        ensures
            self.reach(w, t) <==> exists|s: nat| #[trigger] self.is_init(s) && self.path(s, w, t),
        decreases w.len(),
    {
        if w.len() > 0 {
            let w0 = w.drop_last();
            let a = w.last() as nat;
            if self.reach(w, t) {
                let m = choose|m: nat| m < self.nstates && #[trigger] self.reach(w0, m) && self.edge(m, a, t);
                self.lemma_reach_path(w0, m);
                let s = choose|s: nat| #[trigger] self.is_init(s) && self.path(s, w0, m);
                assert(self.path(s, w, t));
            }
            if exists|s: nat| #[trigger] self.is_init(s) && self.path(s, w, t) {
                let s = choose|s: nat| #[trigger] self.is_init(s) && self.path(s, w, t);
                let m = choose|m: nat| m < self.nstates && #[trigger] self.path(s, w0, m) && self.edge(m, a, t);
                self.lemma_reach_path(w0, m);
                assert(self.reach(w0, m));
            }
        }
    }

    /// A path over `u + v` splits at some middle state.
    pub proof fn lemma_path_split(&self, s: nat, u: Seq<usize>, v: Seq<usize>, t: nat)
        ensures
            self.path(s, u + v, t) <==> exists|m: nat| #[trigger] self.path(s, u, m) && self.path(m, v, t),
        decreases v.len(),
    {
        if v.len() == 0 {
            assert(u + v =~= u);
            if self.path(s, u, t) {
                self.lemma_path_bound(s, u, t);
                assert(self.path(t, v, t));
            }
        } else {
            let v0 = v.drop_last();
            let a = v.last() as nat;
            assert((u + v).drop_last() =~= u + v0);
            assert((u + v).last() == v.last());
            if self.path(s, u + v, t) {
                let x = choose|x: nat| x < self.nstates && #[trigger] self.path(s, u + v0, x) && self.edge(x, a, t);
                self.lemma_path_split(s, u, v0, x);
                let m = choose|m: nat| #[trigger] self.path(s, u, m) && self.path(m, v0, x);
                assert(self.path(m, v, t));
            }
            if exists|m: nat| #[trigger] self.path(s, u, m) && self.path(m, v, t) {
                let m = choose|m: nat| #[trigger] self.path(s, u, m) && self.path(m, v, t);
                let x = choose|x: nat| x < self.nstates && #[trigger] self.path(m, v0, x) && self.edge(x, a, t);
                self.lemma_path_split(s, u, v0, x);
                assert(self.path(s, u + v0, x));
            }
        }
    }

    /// Paths end among the states.
    pub proof fn lemma_path_bound(&self, s: nat, w: Seq<usize>, t: nat)
        requires
            self.path(s, w, t),
        ensures
            t < self.nstates,
            s < self.nstates,
        decreases w.len(),
    {
        if w.len() > 0 {
            let m = choose|m: nat| m < self.nstates && #[trigger] self.path(s, w.drop_last(), m) && self.edge(m, w.last() as nat, t);
            self.lemma_path_bound(s, w.drop_last(), m);
        }
    }

    /// A one-letter path is an edge.
    pub proof fn lemma_path_one(&self, s: nat, a: usize, t: nat)
        requires
            s < self.nstates,
        ensures
            self.path(s, seq![a], t) <==> (t < self.nstates && self.edge(s, a as nat, t)),
    {
        let w = seq![a];
        assert(w.drop_last() =~= Seq::<usize>::empty());
        if self.path(s, w, t) {
            let m = choose|m: nat| m < self.nstates && #[trigger] self.path(s, w.drop_last(), m) && self.edge(m, a as nat, t);
            assert(m == s);
        }
        if t < self.nstates && self.edge(s, a as nat, t) {
            assert(self.path(s, w.drop_last(), s));
        }
    }
}

/// `r` is the reversal of `n`: edges flipped, start and accepting states swapped.
pub open spec fn reverses(r: &Nfa, n: &Nfa) -> bool {
    &&& r.nstates == n.nstates
    &&& r.alpha == n.alpha
    &&& forall|s: nat, a: nat, t: nat|
        s < n.nstates && t < n.nstates && a < n.alpha ==> (#[trigger] r.edge(t, a, s) <==> #[trigger] n.edge(s, a, t))
    &&& forall|t: nat| t < n.nstates ==> (#[trigger] r.is_init(t) <==> n.accept@[t as int])
    &&& forall|t: nat| t < n.nstates ==> (r.accept@[t as int] <==> #[trigger] n.is_init(t))
}

/// Reading `w` backwards in the reversal follows the paths of `w` backwards.
pub proof fn lemma_reverse_path(r: &Nfa, n: &Nfa, s: nat, w: Seq<usize>, t: nat)
    requires
        n.wf(),
        reverses(r, n),
        word_over(w, n.alpha as nat),
    ensures
        r.path(t, w.reverse(), s) <==> n.path(s, w, t),
    decreases w.len(),
{
    if w.len() == 0 {
        assert(w.reverse() =~= w);
    } else {
        let w0 = w.drop_last();
        let a = w.last();
        lemma_word_over_sub(w, n.alpha as nat);
        assert(w.reverse() =~= seq![a] + w0.reverse());
        r.lemma_path_split(t, seq![a], w0.reverse(), s);
        if n.path(s, w, t) {
            let m = choose|m: nat| m < n.nstates && #[trigger] n.path(s, w0, m) && n.edge(m, a as nat, t);
            lemma_reverse_path(r, n, s, w0, m);
            r.lemma_path_one(t, a, m);
            assert(r.path(t, seq![a], m));
        }
        if r.path(t, w.reverse(), s) {
            let m = choose|m: nat| #[trigger] r.path(t, seq![a], m) && r.path(m, w0.reverse(), s);
            r.lemma_path_bound(t, seq![a], m);
            r.lemma_path_one(t, a, m);
            lemma_reverse_path(r, n, s, w0, m);
            assert(n.path(s, w0, m));
            n.lemma_path_bound(s, w0, m);
            assert(n.path(s, w, t));
        }
    }
}

/// The reversal accepts exactly the reversed words.
pub proof fn lemma_reverse_accepts(r: &Nfa, n: &Nfa, w: Seq<usize>)
    requires
        n.wf(),
        reverses(r, n),
        word_over(w, n.alpha as nat),
    ensures
        r.accepts(w.reverse()) <==> n.accepts(w),
{
    if n.accepts(w) {
        let t = choose|t: nat| t < n.nstates && #[trigger] n.reach(w, t) && n.accept@[t as int];
        n.lemma_reach_path(w, t);
        let s = choose|s: nat| #[trigger] n.is_init(s) && n.path(s, w, t);
        lemma_reverse_path(r, n, s, w, t);
        r.lemma_reach_path(w.reverse(), s);
        assert(r.is_init(t));
        assert(r.reach(w.reverse(), s));
    }
    if r.accepts(w.reverse()) {
        let s = choose|s: nat| s < r.nstates && #[trigger] r.reach(w.reverse(), s) && r.accept@[s as int];
        r.lemma_reach_path(w.reverse(), s);
        let t = choose|t: nat| #[trigger] r.is_init(t) && r.path(t, w.reverse(), s);
        lemma_reverse_path(r, n, s, w, t);
        n.lemma_path_bound(s, w, t);
        n.lemma_reach_path(w, t);
        assert(n.is_init(s));
        assert(n.reach(w, t));
    }
}


impl Nfa {
    /// Reverse this NFA (swap initial/accepting, flip arrows).
    pub fn reversed(&self) -> (r: Nfa)
        requires
            self.wf(),
        ensures
            r.wf(),
            r.k == self.k,
            r.vars@ == self.vars@,
            reverses(&r, self),
            forall|w: Seq<usize>| word_over(w, self.alpha as nat) ==> #[trigger] r.accepts(w.reverse()) == self.accepts(w),
    {
        let n = self.nstates;
        let alpha = self.alpha;
        let total = self.trans.len();
        let mut trans: Vec<Vec<State>> = Vec::new();
        let mut x: usize = 0;
        while x < total
            invariant
                x <= total,
                trans.len() == x,
                forall|y: int| 0 <= y < x ==> (#[trigger] trans@[y])@.len() == 0,
            decreases total - x,
        {
            trans.push(Vec::new());
            x = x + 1;
        }
        proof {
            assert forall|t: nat, a: nat, m: nat| t < n && a < alpha && m < n implies
                !(#[trigger] trans@[(t * alpha + a) as int]@.contains(m as State)) by {
                lemma_index(t, a, n as nat, alpha as nat);
            }
        }
        let mut s: usize = 0;
        while s < n
            invariant
                self.wf(),
                n == self.nstates,
                alpha == self.alpha,
                s <= n,
                trans.len() == n * alpha,
                forall|i: int, j: int| 0 <= i < trans@.len() && 0 <= j < trans@[i]@.len() ==> (#[trigger] trans@[i]@[j] as nat) < n,
                forall|t: nat, a: nat, m: nat| t < n && a < alpha && m < n ==>
                    (#[trigger] trans@[(t * alpha + a) as int]@.contains(m as State) <==> (m < s && self.edge(m, a, t))),
            decreases n - s,
        {
            let mut a: usize = 0;
            while a < alpha
                invariant
                    self.wf(),
                    n == self.nstates,
                    alpha == self.alpha,
                    s < n,
                    a <= alpha,
                    trans.len() == n * alpha,
                    forall|i: int, j: int| 0 <= i < trans@.len() && 0 <= j < trans@[i]@.len() ==> (#[trigger] trans@[i]@[j] as nat) < n,
                    forall|t: nat, b: nat, m: nat| t < n && b < alpha && m < n ==>
                        (#[trigger] trans@[(t * alpha + b) as int]@.contains(m as State) <==> (m < s && self.edge(m, b, t)
                            || (m == s && b < a && self.edge(m, b, t)))),
                decreases alpha - a,
            {
                proof {
                    lemma_index(s as nat, a as nat, n as nat, alpha as nat);
                }
                let src = &self.trans[s * alpha + a];
                let mut q: usize = 0;
                while q < src.len()
                    invariant
                        self.wf(),
                        n == self.nstates,
                        alpha == self.alpha,
                        s < n,
                        a < alpha,
                        src@ == self.trans@[(s * alpha + a) as int]@,
                        q <= src.len(),
                        trans.len() == n * alpha,
                        forall|i: int, j: int| 0 <= i < trans@.len() && 0 <= j < trans@[i]@.len() ==> (#[trigger] trans@[i]@[j] as nat) < n,
                        forall|t: nat, b: nat, m: nat| t < n && b < alpha && m < n ==>
                            (#[trigger] trans@[(t * alpha + b) as int]@.contains(m as State) <==> (m < s && self.edge(m, b, t)
                                || (m == s && b < a && self.edge(m, b, t))
                                || (m == s && b == a && src@.subrange(0, q as int).contains(t as State)))),
                    decreases src.len() - q,
                {
                    let d = src[q] as usize;
                    proof {
                        lemma_index(s as nat, a as nat, n as nat, alpha as nat);
                        assert((d as nat) < n);
                        lemma_index(d as nat, a as nat, n as nat, alpha as nat);
                    }
                    let ghost old_trans = trans@;
                    trans[d * alpha + a].push(s as State);
                    proof {
                        assert(trans@.len() == old_trans.len());
                        assert(trans@[(d * alpha + a) as int]@ == old_trans[(d * alpha + a) as int]@.push(s as State));
                        assert(forall|y: int| 0 <= y < trans@.len() && y != (d * alpha + a) as int ==> trans@[y] == old_trans[y]);
                        assert forall|t: nat, b: nat, m: nat| t < n && b < alpha && m < n implies
                            (#[trigger] trans@[(t * alpha + b) as int]@.contains(m as State) <==> (m < s && self.edge(m, b, t)
                                || (m == s && b < a && self.edge(m, b, t))
                                || (m == s && b == a && src@.subrange(0, q + 1).contains(t as State)))) by {
                            lemma_index(t, b, n as nat, alpha as nat);
                            let idx = (t * alpha + b) as int;
                            let old_has = old_trans[idx]@.contains(m as State);
                            let sub0 = src@.subrange(0, q as int);
                            assert(src@.subrange(0, q + 1) =~= sub0.push(src@[q as int]));
                            vstd::seq_lib::lemma_seq_contains_after_push(sub0, src@[q as int], t as State);
                            if t == d && b == a {
                                vstd::seq_lib::lemma_seq_contains_after_push(old_trans[idx]@, s as State, m as State);
                            } else {
                                if t * alpha + b == d * alpha + a {
                                    crate::product::lemma_pair_unique(t, b, d as nat, a as nat, alpha as nat);
                                }
                                assert(trans@[idx] == old_trans[idx]);
                                if b == a {
                                    assert(src@[q as int] != t as State);
                                }
                            }
                        }
                        assert forall|i: int, j: int| 0 <= i < trans@.len() && 0 <= j < trans@[i]@.len()
                            implies (#[trigger] trans@[i]@[j] as nat) < n by {
                            if i != (d * alpha + a) as int {
                                assert(trans@[i] == old_trans[i]);
                            } else if j < old_trans[i]@.len() {
                                assert(trans@[i]@[j] == old_trans[i]@[j]);
                            }
                        }
                    }
                    q = q + 1;
                }
                proof {
                    assert(src@.subrange(0, src.len() as int) =~= src@);
                }
                a = a + 1;
            }
            s = s + 1;
        }
        let mut init: Vec<State> = Vec::new();
        let mut t: usize = 0;
        while t < n
            invariant
                self.wf(),
                n == self.nstates,
                t <= n,
                forall|j: int| 0 <= j < init@.len() ==> (#[trigger] init@[j] as nat) < t,
                forall|u: nat| u < t ==> (init@.contains(u as State) <==> self.accept@[u as int]),
            decreases n - t,
        {
            let ghost pre = init@;
            if self.accept[t] {
                init.push(t as State);
            }
            proof {
                assert forall|u: nat| u < t + 1 implies (init@.contains(u as State) <==> self.accept@[u as int]) by {
                    if u < t {
                        if init@.contains(u as State) && !pre.contains(u as State) {
                            assert(init@[init@.len() - 1] == t as State);
                            let j = choose|j: int| 0 <= j < init@.len() && init@[j] == u as State;
                            if j < pre.len() {
                                assert(pre[j] == init@[j]);
                            }
                        }
                        if pre.contains(u as State) {
                            let j = choose|j: int| 0 <= j < pre.len() && pre[j] == u as State;
                            assert(init@[j] == pre[j]);
                        }
                    } else {
                        if self.accept@[u as int] {
                            assert(init@[init@.len() - 1] == t as State);
                        } else {
                            if init@.contains(u as State) {
                                let j = choose|j: int| 0 <= j < init@.len() && init@[j] == u as State;
                                assert(init@[j] == pre[j]);
                            }
                        }
                    }
                }
            }
            t = t + 1;
        }
        let mut accept: Vec<bool> = Vec::new();
        let mut u: usize = 0;
        while u < n
            invariant
                u <= n,
                accept.len() == u,
                forall|v: int| 0 <= v < u ==> !accept@[v],
            decreases n - u,
        {
            accept.push(false);
            u = u + 1;
        }
        assert(self.init@.subrange(0, 0) =~= Seq::<State>::empty());
        let mut j: usize = 0;
        while j < self.init.len()
            invariant
                self.wf(),
                n == self.nstates,
                j <= self.init.len(),
                accept.len() == n,
                forall|v: nat| v < n ==> (accept@[v as int] <==> self.init@.subrange(0, j as int).contains(v as State)),
            decreases self.init.len() - j,
        {
            let x = self.init[j] as usize;
            let ghost pre = accept@;
            accept.set(x, true);
            proof {
                let sub0 = self.init@.subrange(0, j as int);
                assert(self.init@.subrange(0, j + 1) =~= sub0.push(self.init@[j as int]));
                assert forall|v: nat| v < n implies (accept@[v as int] <==> self.init@.subrange(0, j + 1).contains(v as State)) by {
                    vstd::seq_lib::lemma_seq_contains_after_push(sub0, self.init@[j as int], v as State);
                    if v != x {
                        assert(accept@[v as int] == pre[v as int]);
                    }
                }
            }
            j = j + 1;
        }
        proof {
            assert(self.init@.subrange(0, self.init.len() as int) =~= self.init@);
        }
        let r = Nfa {
            k: self.k,
            vars: crate::strs::copy_names(&self.vars),
            alpha,
            nstates: n,
            trans,
            init,
            accept,
        };
        proof {
            assert forall|s: nat, a: nat, t: nat| s < n && t < n && a < alpha implies (#[trigger] r.edge(t, a, s)
                <==> #[trigger] self.edge(s, a, t)) by {}
            assert forall|t: nat| t < n implies (#[trigger] r.is_init(t) <==> self.accept@[t as int]) by {}
            assert forall|t: nat| t < n implies (r.accept@[t as int] <==> #[trigger] self.is_init(t)) by {}
            assert forall|w: Seq<usize>| word_over(w, self.alpha as nat) implies #[trigger] r.accepts(w.reverse())
                == self.accepts(w) by {
                lemma_reverse_accepts(&r, self, w);
            }
        }
        r
    }
}

impl Dfa {
    /// View this DFA as a (trivially deterministic) NFA.
    pub fn as_nfa(&self) -> (r: Nfa)
        requires
            self.wf(),
        ensures
            r.wf(),
            r.k == self.k,
            r.vars@ == self.vars@,
            r.alpha == self.alpha,
            r.nstates == self.nstates,
            forall|w: Seq<usize>| word_over(w, self.alpha as nat) ==> #[trigger] r.accepts(w) == self.accepts(w),
    {
        let init: Vec<State> = vec![0];
        assert(init@ =~= seq![0 as State]);
        self.with_starts(init)
    }

    /// This DFA's table as an NFA started from every state of `init`.
    pub fn with_starts(&self, init: Vec<State>) -> (r: Nfa)
        requires
            self.wf(),
            forall|j: int| 0 <= j < init@.len() ==> (#[trigger] init@[j] as nat) < self.nstates,
        ensures
            r.wf(),
            r.k == self.k,
            r.vars@ == self.vars@,
            r.alpha == self.alpha,
            r.nstates == self.nstates,
            r.init@ == init@,
            r.accept@ == self.accept@,
            forall|s: nat, a: nat, t: nat| s < self.nstates && a < self.alpha && t < self.nstates ==> (#[trigger] r.edge(s, a, t)
                <==> t == self.step(s, a)),
            init@ == seq![0 as State] ==> forall|w: Seq<usize>| word_over(w, self.alpha as nat) ==> #[trigger] r.accepts(w)
                == self.accepts(w),
    {
        let n = self.nstates;
        let alpha = self.alpha;
        let total = self.trans.len();
        let mut trans: Vec<Vec<State>> = Vec::new();
        let mut x: usize = 0;
        while x < total
            invariant
                self.wf(),
                n == self.nstates,
                alpha == self.alpha,
                total == n * alpha,
                x <= n * alpha,
                trans.len() == x,
                forall|y: int| 0 <= y < x ==> (#[trigger] trans@[y])@ == seq![self.trans@[y]],
            decreases total - x,
        {
            trans.push(vec![self.trans[x]]);
            x = x + 1;
        }
        let r = Nfa {
            k: self.k,
            vars: crate::strs::copy_names(&self.vars),
            alpha,
            nstates: n,
            trans,
            init,
            accept: self.accept.clone(),
        };
        proof {
            assert(r.accept@ =~= self.accept@);
            assert forall|i: int, j: int| 0 <= i < r.trans@.len() && 0 <= j < r.trans@[i]@.len()
                implies (#[trigger] r.trans@[i]@[j] as nat) < r.nstates by {
                assert(r.trans@[i]@[j] == self.trans@[i]);
            }
            assert forall|s: nat, a: nat, t: nat| s < self.nstates && a < self.alpha && t < self.nstates implies (#[trigger] r.edge(s, a, t)
                <==> t == self.step(s, a)) by {
                lemma_index(s, a, n as nat, alpha as nat);
                let l = r.trans@[(s * alpha + a) as int]@;
                assert(l == seq![self.trans@[(s * alpha + a) as int]]);
                if l.contains(t as State) {
                    let j = choose|j: int| 0 <= j < l.len() && l[j] == t as State;
                    assert(j == 0);
                }
                if t == self.step(s, a) {
                    assert(l[0] == t as State);
                }
            }
            if init@ == seq![0 as State] {
                assert forall|w: Seq<usize>| word_over(w, self.alpha as nat) implies #[trigger] r.accepts(w)
                    == self.accepts(w) by {
                    r.lemma_det_reach(self, w);
                    lemma_trun(self.trans@, n as nat, alpha as nat, 0, w);
                    assert(r.reach(w, self.run_from(0, w)));
                }
            }
        }
        r
    }
}

impl Nfa {
    /// An NFA that copies a DFA's table from its start state reaches exactly the run's state.
    pub proof fn lemma_det_reach(&self, d: &Dfa, w: Seq<usize>)
        requires
            self.wf(),
            d.wf(),
            self.nstates == d.nstates,
            self.alpha == d.alpha,
            self.init@ == seq![0 as State],
            forall|s: nat, a: nat, t: nat| s < d.nstates && a < d.alpha && t < d.nstates ==> (#[trigger] self.edge(s, a, t)
                <==> t == d.step(s, a)),
            word_over(w, d.alpha as nat),
        ensures
            forall|t: nat| #[trigger] self.reach(w, t) <==> t == d.run_from(0, w),
        decreases w.len(),
    {
        if w.len() == 0 {
            assert forall|t: nat| #[trigger] self.reach(w, t) <==> t == d.run_from(0, w) by {
                if t == 0 {
                    assert(self.init@[0] == 0);
                }
                if self.init@.contains(t as State) {
                    let j = choose|j: int| 0 <= j < self.init@.len() && self.init@[j] == t as State;
                    assert(j == 0);
                }
            }
        } else {
            let w0 = w.drop_last();
            lemma_word_over_sub(w, d.alpha as nat);
            self.lemma_det_reach(d, w0);
            lemma_trun(d.trans@, d.nstates as nat, d.alpha as nat, 0, w0);
            d.lemma_steps();
            let p = d.run_from(0, w0);
            assert forall|t: nat| #[trigger] self.reach(w, t) <==> t == d.run_from(0, w) by {
                let a = w.last() as nat;
                assert(a < d.alpha);
                assert(p < d.nstates);
                assert(d.run_from(0, w) == d.step(p, a));
                if self.reach(w, t) {
                    let s = choose|s: nat| #[trigger] self.reach_set(w0).contains(s) && s < self.nstates && self.edge(s, a, t);
                    assert(s == p);
                    assert(t == d.step(p, a));
                }
                if t == d.run_from(0, w) {
                    assert(self.reach_set(w0).contains(p));
                    assert(self.edge(p, a, t));
                }
            }
        }
    }
}

/// The set of NFA states a bitset names.
pub open spec fn bset(v: Seq<u64>, n: nat) -> Set<nat> {
    crate::bits::bs_set(v, n)
}

/// The subsets discovered so far, in discovery order, with a hash index
/// from each subset's hash to the ids of the subsets that have it.
pub struct Subsets {
    pub order: Vec<Vec<u64>>,
    pub index: HashMap<u64, Vec<u32>>,
}

impl Subsets {
    /// No entry occurs twice, and the index finds each one under its hash.
    pub open spec fn wf(&self) -> bool {
        &&& forall|x: int, y: int| 0 <= x < y < self.order.len() ==> #[trigger] self.order@[x]@ != #[trigger] self.order@[y]@
        &&& forall|x: int| 0 <= x < self.order.len() ==> #[trigger] self.index@.contains_key(bs_hash(self.order@[x]@))
            && self.index@[bs_hash(self.order@[x]@)]@.contains(x as u32)
        &&& forall|h: u64, y: int| #[trigger] self.index@.contains_key(h) && 0 <= y < self.index@[h]@.len()
            ==> (#[trigger] self.index@[h]@[y] as int) < self.order.len()
    }

    /// A table holding just `first`.
    pub fn new(first: Vec<u64>) -> (r: Subsets)
        ensures
            r.wf(),
            r.order@.len() == 1,
            r.order@[0]@ == first@,
    {
        let h0 = hash_bits(&first);
        let mut order: Vec<Vec<u64>> = Vec::new();
        order.push(first);
        let mut index: HashMap<u64, Vec<u32>> = HashMap::new();
        index.insert(h0, vec![0u32]);
        let r = Subsets { order, index };
        proof {
            assert(r.index@[h0]@[0] == 0u32);
        }
        r
    }

    /// The id of `buf`, added at the end if it is new; the flag tells which.
    pub fn intern(&mut self, buf: Vec<u64>) -> (r: (u32, bool))
        requires
            old(self).wf(),
            old(self).order.len() < u32::MAX,
        ensures
            final(self).wf(),
            r.1 ==> final(self).order@ == old(self).order@.push(buf) && r.0 == old(self).order.len(),
            !r.1 ==> final(self).order@ == old(self).order@ && (r.0 as int) < old(self).order.len()
                && old(self).order@[r.0 as int]@ == buf@,
            r.1 ==> forall|x: int| 0 <= x < old(self).order.len() ==> #[trigger] old(self).order@[x]@ != buf@,
    {
        let h = hash_bits(&buf);
        let mut found: Option<u32> = None;
        match self.index.get(&h) {
            Some(bucket) => {
                let mut y: usize = 0;
                while y < bucket.len()
                    invariant_except_break
                        found is None,
                        forall|z: int| 0 <= z < y ==> self.order@[#[trigger] bucket@[z] as int]@ != buf@,
                    invariant
                        self.wf(),
                        bucket@ == self.index@[h]@,
                        self.index@.contains_key(h),
                        y <= bucket.len(),
                    ensures
                        match found {
                            Some(x) => (x as int) < self.order.len() && self.order@[x as int]@ == buf@,
                            None => forall|z: int| 0 <= z < bucket.len() ==> self.order@[#[trigger] bucket@[z] as int]@ != buf@,
                        },
                    decreases bucket.len() - y,
                {
                    let x = bucket[y];
                    assert((x as int) < self.order.len());
                    if bs_eq(&self.order[x as usize], &buf) {
                        found = Some(x);
                        break;
                    }
                    y = y + 1;
                }
                proof {
                    if found is None {
                        assert forall|x: int| 0 <= x < self.order.len() implies #[trigger] self.order@[x]@ != buf@ by {
                            if self.order@[x]@ == buf@ {
                                assert(self.index@.contains_key(bs_hash(self.order@[x]@)));
                                assert(self.index@[h]@.contains(x as u32));
                                let z = choose|z: int| 0 <= z < self.index@[h]@.len() && self.index@[h]@[z] == x as u32;
                                assert(self.order@[bucket@[z] as int]@ != buf@);
                            }
                        }
                    }
                }
            },
            None => {
                proof {
                    assert forall|x: int| 0 <= x < self.order.len() implies #[trigger] self.order@[x]@ != buf@ by {
                        if self.order@[x]@ == buf@ {
                            assert(self.index@.contains_key(bs_hash(self.order@[x]@)));
                        }
                    }
                }
            },
        }
        match found {
            Some(x) => (x, false),
            None => {
                let nid = self.order.len();
                let ghost pre_index = self.index@;
                let ghost pre_order = self.order@;
                let mut bucket: Vec<u32> = match self.index.remove(&h) {
                    Some(b) => b,
                    None => Vec::new(),
                };
                bucket.push(nid as u32);
                self.index.insert(h, bucket);
                self.order.push(buf);
                proof {
                    assert(self.index@[h]@ == (if pre_index.contains_key(h) { pre_index[h]@ } else { Seq::<u32>::empty() }).push(nid as u32));
                    assert forall|h2: u64, y: int| #[trigger] self.index@.contains_key(h2) && 0 <= y < self.index@[h2]@.len()
                        implies (#[trigger] self.index@[h2]@[y] as int) < self.order.len() by {
                        if h2 != h {
                            assert(self.index@[h2] == pre_index[h2]);
                        } else if y < self.index@[h2]@.len() - 1 {
                            assert(self.index@[h2]@[y] == pre_index[h2]@[y]);
                        }
                    }
                    assert forall|x: int, y: int| 0 <= x < y < self.order.len() implies #[trigger] self.order@[x]@ != #[trigger] self.order@[y]@ by {
                        assert(self.order@[x] == pre_order[x]);
                        if y < nid {
                            assert(self.order@[y] == pre_order[y]);
                        } else {
                            assert(pre_order[x]@ != buf@);
                        }
                    }
                    assert forall|x: int| 0 <= x < self.order.len() implies #[trigger] self.index@.contains_key(bs_hash(self.order@[x]@))
                        && self.index@[bs_hash(self.order@[x]@)]@.contains(x as u32) by {
                        if x < nid {
                            assert(self.order@[x] == pre_order[x]);
                            assert(pre_index.contains_key(bs_hash(pre_order[x]@)));
                            assert(pre_index[bs_hash(pre_order[x]@)]@.contains(x as u32));
                            if bs_hash(self.order@[x]@) == h {
                                vstd::seq_lib::lemma_seq_contains_after_push(pre_index[h]@, nid as u32, x as u32);
                            } else {
                                assert(self.index@[bs_hash(self.order@[x]@)] == pre_index[bs_hash(self.order@[x]@)]);
                            }
                        } else {
                            assert(self.order@[x]@ == buf@);
                            let bk = self.index@[h]@;
                            assert(bk[bk.len() - 1] == nid as u32);
                        }
                    }
                }
                (nid as u32, true)
            },
        }
    }
}

impl Nfa {
    /// Subset construction with bitset-encoded state sets. `None` when at least
    /// `cap` different subsets are reachable.
    pub fn determinize_capped(&self, cap: usize) -> (r: Option<Dfa>)
        requires
            self.wf(),
            cap <= u32::MAX,
        ensures
            match r {
                Some(d) => {
                    &&& d.wf()
                    &&& d.k == self.k
                    &&& d.vars@ == self.vars@
                    &&& d.alpha == self.alpha
                    &&& d.nstates < cap
                    &&& forall|w: Seq<usize>| word_over(w, self.alpha as nat) ==> #[trigger] d.accepts(w) == self.accepts(w)
                    &&& exists|ws: Seq<Seq<usize>>| ws.len() == d.nstates && #[trigger] self.distinct_reach(ws)
                        && forall|w: Seq<usize>| #![trigger self.reach_set(w)] word_over(w, self.alpha as nat)
                            ==> exists|i: int| 0 <= i < ws.len() && self.reach_set(w) == #[trigger] self.reach_set(ws[i])
                },
                None => exists|ws: Seq<Seq<usize>>| ws.len() >= cap && #[trigger] self.distinct_reach(ws),
            },
    {
        let n = self.nstates;
        let alpha = self.alpha;
        let ghost gn = n as nat;
        let mut init = bs_empty(n);
        let mut j: usize = 0;
        while j < self.init.len()
            invariant
                self.wf(),
                n == self.nstates,
                gn == n,
                j <= self.init.len(),
                bs_ok(init@, gn),
                forall|t: nat| #[trigger] bs_has(init@, t) <==> self.init@.subrange(0, j as int).contains(t as State) && t < n,
            decreases self.init.len() - j,
        {
            let x = self.init[j] as usize;
            let ghost pre = init@;
            bs_insert(&mut init, x, Ghost(gn));
            proof {
                let sub0 = self.init@.subrange(0, j as int);
                assert(self.init@.subrange(0, j + 1) =~= sub0.push(self.init@[j as int]));
                assert forall|t: nat| #[trigger] bs_has(init@, t) <==> self.init@.subrange(0, j + 1).contains(t as State) && t < n by {
                    vstd::seq_lib::lemma_seq_contains_after_push(sub0, self.init@[j as int], t as State);
                    if bs_has(init@, t) && t != x {
                        assert(bs_has(pre, t));
                    }
                }
            }
            j = j + 1;
        }
        proof {
            assert(self.init@.subrange(0, self.init.len() as int) =~= self.init@);
            assert(bset(init@, gn) =~= self.reach_set(Seq::empty()));
        }
        if cap <= 1 {
            proof {
                let ws: Seq<Seq<usize>> = if cap == 0 { Seq::empty() } else { seq![Seq::<usize>::empty()] };
                assert(word_over(Seq::<usize>::empty(), alpha as nat));
                assert(forall|i: int| 0 <= i < ws.len() ==> #[trigger] ws[i] == Seq::<usize>::empty());
                assert(self.distinct_reach(ws));
            }
            return None;
        }
        let mut tab = Subsets::new(init);
        let mut trans: Vec<State> = Vec::new();
        let ghost mut wit: Seq<Seq<usize>> = seq![Seq::<usize>::empty()];
        let mut i: usize = 0;
        while i < tab.order.len()
            invariant
                self.wf(),
                n == self.nstates,
                gn == n,
                alpha == self.alpha,
                2 <= cap <= u32::MAX,
                1 <= tab.order.len() < cap,
                i <= tab.order.len(),
                tab.wf(),
                forall|x: int| 0 <= x < tab.order.len() ==> bs_ok(#[trigger] tab.order@[x]@, gn),
                wit.len() == tab.order.len(),
                forall|x: int| 0 <= x < tab.order.len() ==> word_over(#[trigger] wit[x], alpha as nat),
                forall|x: int| 0 <= x < tab.order.len() ==> #[trigger] bset(tab.order@[x]@, gn) == self.reach_set(wit[x]),
                wit[0] == Seq::<usize>::empty(),
                trans.len() == i * alpha,
                forall|x: int| 0 <= x < trans.len() ==> (#[trigger] trans@[x] as int) < tab.order.len(),
                forall|ii: nat, a: nat| ii < i && a < alpha ==>
                    #[trigger] bset(tab.order@[tstep(trans@, alpha as nat, ii, a) as int]@, gn)
                        == self.post(bset(tab.order@[ii as int]@, gn), a),
            decreases cap - i,
        {
            let members = bs_members(&tab.order[i], Ghost(gn));
            let mut a: usize = 0;
            while a < alpha
                invariant
                    self.wf(),
                    n == self.nstates,
                    gn == n,
                    alpha == self.alpha,
                    2 <= cap <= u32::MAX,
                    1 <= tab.order.len() < cap,
                    i < tab.order.len(),
                    a <= alpha,
                    forall|j: int| 0 <= j < members.len() ==> (#[trigger] members@[j] as nat) < n && bs_has(tab.order@[i as int]@, members@[j] as nat),
                    forall|s: nat| s < n && bs_has(tab.order@[i as int]@, s) ==> members@.contains(s as usize),
                    tab.wf(),
                forall|x: int| 0 <= x < tab.order.len() ==> bs_ok(#[trigger] tab.order@[x]@, gn),
                    wit.len() == tab.order.len(),
                    forall|x: int| 0 <= x < tab.order.len() ==> word_over(#[trigger] wit[x], alpha as nat),
                    forall|x: int| 0 <= x < tab.order.len() ==> #[trigger] bset(tab.order@[x]@, gn) == self.reach_set(wit[x]),
                    wit[0] == Seq::<usize>::empty(),
                    trans.len() == i * alpha + a,
                    forall|x: int| 0 <= x < trans.len() ==> (#[trigger] trans@[x] as int) < tab.order.len(),
                    forall|ii: nat, b: nat| ii <= i && b < alpha && (ii < i || b < a) ==>
                        #[trigger] bset(tab.order@[tstep(trans@, alpha as nat, ii, b) as int]@, gn)
                            == self.post(bset(tab.order@[ii as int]@, gn), b),
                decreases alpha - a,
            {
                let ghost from = tab.order@[i as int]@;
                let buf = self.post_bits(&members, a, Ghost(from));
                let ghost pre_order = tab.order@;
                let ghost pre_trans = trans@;
                let ghost bufv = buf@;
                let (id, fresh) = tab.intern(buf);
                proof {
                    assert forall|x: int| 0 <= x < tab.order.len() implies bs_ok(#[trigger] tab.order@[x]@, gn) by {
                        if x < pre_order.len() {
                            assert(tab.order@[x] == pre_order[x]);
                        }
                    }
                }
                if fresh {
                    proof {
                        let wn = wit[i as int].push(a);
                        assert(wn.drop_last() =~= wit[i as int]);
                        assert(word_over(wn, alpha as nat));
                        wit = wit.push(wn);
                        assert forall|x: int| 0 <= x < tab.order.len() implies #[trigger] bset(tab.order@[x]@, gn) == self.reach_set(wit[x]) by {
                            if x < pre_order.len() {
                                assert(tab.order@[x] == pre_order[x]);
                            } else {
                                assert(self.reach_set(wn) == self.post(self.reach_set(wit[i as int]), a as nat));
                                assert(bset(from, gn) == self.reach_set(wit[i as int]));
                            }
                        }
                    }
                    if tab.order.len() >= cap {
                        proof {
                            self.lemma_distinct_witnesses(tab.order@, wit);
                        }
                        return None;
                    }
                }
                trans.push(id);
                proof {
                    assert(tab.order@[i as int] == pre_order[i as int]);
                    assert(bset(tab.order@[id as int]@, gn) == self.post(bset(tab.order@[i as int]@, gn), a as nat));
                    assert forall|ii: nat, b: nat| ii <= i && b < alpha && (ii < i || b < a + 1) implies
                        #[trigger] bset(tab.order@[tstep(trans@, alpha as nat, ii, b) as int]@, gn)
                            == self.post(bset(tab.order@[ii as int]@, gn), b) by {
                        if ii < i || b < a {
                            if ii < i {
                                lemma_index(ii, b, i as nat, alpha as nat);
                            }
                            assert(trans@[(ii * alpha + b) as int] == pre_trans[(ii * alpha + b) as int]);
                            assert(tab.order@[tstep(pre_trans, alpha as nat, ii, b) as int] == pre_order[tstep(pre_trans, alpha as nat, ii, b) as int]);
                            assert(tab.order@[ii as int] == pre_order[ii as int]);
                        } else {
                            assert(ii == i && b == a);
                            assert(trans@[(i * alpha + a) as int] == id);
                        }
                    }
                }
                a = a + 1;
            }
            proof {
                assert((i + 1) * alpha == i * alpha + alpha) by (nonlinear_arith);
            }
            i = i + 1;
        }
        let m = tab.order.len();
        let mut accept: Vec<bool> = Vec::new();
        let mut x: usize = 0;
        while x < m
            invariant
                self.wf(),
                n == self.nstates,
                gn == n,
                m == tab.order.len(),
                x <= m,
                accept.len() == x,
                tab.wf(),
                forall|x: int| 0 <= x < tab.order.len() ==> bs_ok(#[trigger] tab.order@[x]@, gn),
                forall|y: int| 0 <= y < x ==> (#[trigger] accept@[y] <==> exists|t: nat| t < n && bs_has(tab.order@[y]@, t) && self.accept@[t as int]),
            decreases m - x,
        {
            let members = bs_members(&tab.order[x], Ghost(gn));
            let mut hit = false;
            let mut y: usize = 0;
            while y < members.len()
                invariant
                    self.wf(),
                    n == self.nstates,
                    y <= members.len(),
                    forall|j: int| 0 <= j < members.len() ==> (#[trigger] members@[j] as nat) < n,
                    hit <==> exists|j: int| 0 <= j < y && self.accept@[#[trigger] members@[j] as int],
                decreases members.len() - y,
            {
                if self.accept[members[y]] {
                    hit = true;
                }
                y = y + 1;
            }
            proof {
                if hit {
                    let j = choose|j: int| 0 <= j < y && self.accept@[#[trigger] members@[j] as int];
                    assert(bs_has(tab.order@[x as int]@, members@[j] as nat));
                }
                if exists|t: nat| t < n && bs_has(tab.order@[x as int]@, t) && self.accept@[t as int] {
                    let t = choose|t: nat| t < n && bs_has(tab.order@[x as int]@, t) && self.accept@[t as int];
                    assert(members@.contains(t as usize));
                    let j = choose|j: int| 0 <= j < members.len() && members@[j] == t as usize;
                    assert(self.accept@[members@[j] as int]);
                }
            }
            accept.push(hit);
            x = x + 1;
        }
        let d = Dfa { k: self.k, vars: crate::strs::copy_names(&self.vars), alpha, nstates: m, trans, accept };
        proof {
            assert(d.wf()) by {
                assert(crate::dfa::table_ok(d.trans@, m as nat, alpha as nat));
            }
            assert forall|w: Seq<usize>| word_over(w, self.alpha as nat) implies #[trigger] d.accepts(w) == self.accepts(w) by {
                self.lemma_subset_run(&d, tab.order@, w);
                let q = d.run_from(0, w);
                lemma_trun(d.trans@, m as nat, alpha as nat, 0, w);
                assert(bset(tab.order@[q as int]@, gn) == self.reach_set(w));
                if d.accepts(w) {
                    let t = choose|t: nat| t < n && bs_has(tab.order@[q as int]@, t) && self.accept@[t as int];
                    assert(bset(tab.order@[q as int]@, gn).contains(t));
                }
                if self.accepts(w) {
                    let t = choose|t: nat| t < self.nstates && #[trigger] self.reach(w, t) && self.accept@[t as int];
                    assert(bset(tab.order@[q as int]@, gn).contains(t));
                }
            }
            self.lemma_distinct_witnesses(tab.order@, wit);
            assert forall|w: Seq<usize>| #![trigger self.reach_set(w)] word_over(w, self.alpha as nat)
                implies exists|i: int| 0 <= i < wit.len() && self.reach_set(w) == #[trigger] self.reach_set(wit[i]) by {
                self.lemma_subset_run(&d, tab.order@, w);
                let q = d.run_from(0, w);
                lemma_trun(d.trans@, m as nat, alpha as nat, 0, w);
                assert(bset(tab.order@[q as int]@, gn) == self.reach_set(wit[q as int]));
                assert(self.reach_set(w) == self.reach_set(wit[q as int]));
            }
            assert(wit.len() == d.nstates);
        }
        Some(d)
    }
}

impl Nfa {
    /// The bitset of states one `a`-step away from the members listed.
    pub fn post_bits(&self, members: &Vec<usize>, a: usize, Ghost(from): Ghost<Seq<u64>>) -> (r: Vec<u64>)
        requires
            self.wf(),
            a < self.alpha,
            forall|j: int| 0 <= j < members.len() ==> (#[trigger] members@[j] as nat) < self.nstates && bs_has(from, members@[j] as nat),
            forall|s: nat| s < self.nstates && bs_has(from, s) ==> members@.contains(s as usize),
        ensures
            bs_ok(r@, self.nstates as nat),
            bset(r@, self.nstates as nat) == self.post(bset(from, self.nstates as nat), a as nat),
    {
        let n = self.nstates;
        let alpha = self.alpha;
        let ghost gn = n as nat;
        let mut buf = bs_empty(n);
        let tl = self.trans.len();
        let mut m: usize = 0;
        while m < members.len()
            invariant
                self.wf(),
                tl == n * alpha,
                n == self.nstates,
                gn == n,
                alpha == self.alpha,
                a < alpha,
                m <= members.len(),
                forall|j: int| 0 <= j < members.len() ==> (#[trigger] members@[j] as nat) < n,
                bs_ok(buf@, gn),
                forall|t: nat| #[trigger] bs_has(buf@, t) <==> t < n && exists|mm: int| 0 <= mm < m && self.edge(#[trigger] members@[mm] as nat, a as nat, t),
            decreases members.len() - m,
        {
            let s = members[m];
            proof {
                assert((s as nat) < n);
                lemma_index(s as nat, a as nat, n as nat, alpha as nat);
            }
            let lst = &self.trans[s * alpha + a];
            let mut q: usize = 0;
            while q < lst.len()
                invariant
                    self.wf(),
                    n == self.nstates,
                    gn == n,
                    alpha == self.alpha,
                    a < alpha,
                    m < members.len(),
                    s == members@[m as int],
                    (s as nat) < n,
                    lst@ == self.trans@[(s * alpha + a) as int]@,
                    q <= lst.len(),
                    forall|j: int| 0 <= j < members.len() ==> (#[trigger] members@[j] as nat) < n,
                    bs_ok(buf@, gn),
                    forall|t: nat| #[trigger] bs_has(buf@, t) <==> t < n && ((exists|mm: int| 0 <= mm < m && self.edge(#[trigger] members@[mm] as nat, a as nat, t))
                        || lst@.subrange(0, q as int).contains(t as State)),
                decreases lst.len() - q,
            {
                let d = lst[q] as usize;
                proof {
                    lemma_index(s as nat, a as nat, n as nat, alpha as nat);
                    assert((d as nat) < n);
                }
                let ghost pre = buf@;
                bs_insert(&mut buf, d, Ghost(gn));
                proof {
                    let sub0 = lst@.subrange(0, q as int);
                    assert(lst@.subrange(0, q + 1) =~= sub0.push(lst@[q as int]));
                    assert forall|t: nat| #[trigger] bs_has(buf@, t) <==> t < n && ((exists|mm: int| 0 <= mm < m && self.edge(#[trigger] members@[mm] as nat, a as nat, t))
                        || lst@.subrange(0, q + 1).contains(t as State)) by {
                        vstd::seq_lib::lemma_seq_contains_after_push(sub0, lst@[q as int], t as State);
                        if t < n && lst@[q as int] == t as State {
                            assert(t == d);
                        }
                        if bs_has(pre, t) {
                            assert(t < n);
                        }
                    }
                }
                q = q + 1;
            }
            proof {
                assert(lst@.subrange(0, lst.len() as int) =~= lst@);
                assert forall|t: nat| #[trigger] bs_has(buf@, t) <==> t < n && exists|mm: int| 0 <= mm < m + 1 && self.edge(#[trigger] members@[mm] as nat, a as nat, t) by {
                    if t < n && self.edge(s as nat, a as nat, t) {
                        assert(self.edge(members@[m as int] as nat, a as nat, t));
                    }
                    if t < n && exists|mm: int| 0 <= mm < m + 1 && self.edge(#[trigger] members@[mm] as nat, a as nat, t) {
                        let mm = choose|mm: int| 0 <= mm < m + 1 && self.edge(#[trigger] members@[mm] as nat, a as nat, t);
                        if mm == m {
                            assert(lst@.contains(t as State));
                        }
                    }
                }
            }
            m = m + 1;
        }
        proof {
            assert forall|t: nat| #[trigger] bset(buf@, gn).contains(t) <==> self.post(bset(from, gn), a as nat).contains(t) by {
                if bset(buf@, gn).contains(t) {
                    let mm = choose|mm: int| 0 <= mm < members.len() && self.edge(#[trigger] members@[mm] as nat, a as nat, t);
                    assert(bset(from, gn).contains(members@[mm] as nat));
                }
                if self.post(bset(from, gn), a as nat).contains(t) {
                    let x = choose|x: nat| #[trigger] bset(from, gn).contains(x) && x < n && self.edge(x, a as nat, t);
                    assert(members@.contains(x as usize));
                    let mm = choose|mm: int| 0 <= mm < members.len() && members@[mm] == x as usize;
                    assert(self.edge(members@[mm] as nat, a as nat, t));
                }
            }
            assert(bset(buf@, gn) =~= self.post(bset(from, gn), a as nat));
        }
        buf
    }

    /// The subset automaton's run on `w` lands on the set of states `w` reaches.
    pub proof fn lemma_subset_run(&self, d: &Dfa, order: Seq<Vec<u64>>, w: Seq<usize>)
        requires
            self.wf(),
            d.wf(),
            d.alpha == self.alpha,
            d.nstates == order.len(),
            bset(order[0]@, self.nstates as nat) == self.reach_set(Seq::empty()),
            forall|ii: nat, a: nat| ii < d.nstates && a < d.alpha ==>
                #[trigger] bset(order[tstep(d.trans@, d.alpha as nat, ii, a) as int]@, self.nstates as nat)
                    == self.post(bset(order[ii as int]@, self.nstates as nat), a),
            word_over(w, self.alpha as nat),
        ensures
            bset(order[d.run_from(0, w) as int]@, self.nstates as nat) == self.reach_set(w),
        decreases w.len(),
    {
        if w.len() > 0 {
            let w0 = w.drop_last();
            lemma_word_over_sub(w, self.alpha as nat);
            self.lemma_subset_run(d, order, w0);
            lemma_trun(d.trans@, d.nstates as nat, d.alpha as nat, 0, w0);
            let p = d.run_from(0, w0);
            let a = w.last() as nat;
            assert(d.run_from(0, w) == tstep(d.trans@, d.alpha as nat, p, a));
            assert(bset(order[tstep(d.trans@, d.alpha as nat, p, a) as int]@, self.nstates as nat)
                == self.post(bset(order[p as int]@, self.nstates as nat), a));
        }
    }
}

impl Nfa {
    /// Pairwise different subsets reached by their witness words make the
    /// witnesses reach pairwise different state sets.
    pub proof fn lemma_distinct_witnesses(&self, order: Seq<Vec<u64>>, wit: Seq<Seq<usize>>)
        requires
            self.wf(),
            wit.len() == order.len(),
            forall|x: int| 0 <= x < order.len() ==> bs_ok(#[trigger] order[x]@, self.nstates as nat),
            forall|x: int| 0 <= x < order.len() ==> word_over(#[trigger] wit[x], self.alpha as nat),
            forall|x: int| 0 <= x < order.len() ==> #[trigger] bset(order[x]@, self.nstates as nat) == self.reach_set(wit[x]),
            forall|x: int, y: int| 0 <= x < y < order.len() ==> #[trigger] order[x]@ != #[trigger] order[y]@,
        ensures
            self.distinct_reach(wit),
    {
        let gn = self.nstates as nat;
        assert forall|x: int, y: int| 0 <= x < y < wit.len() implies #[trigger] self.differ(wit[x], wit[y]) by {
            assert(order[x]@ != order[y]@);
            assert(bs_ok(order[x]@, gn));
            assert(bs_ok(order[y]@, gn));
            lemma_bs_differ(order[x]@, order[y]@, gn);
            let t = choose|t: nat| t < gn && bs_has(order[x]@, t) != bs_has(order[y]@, t);
            assert(bset(order[x]@, gn) == self.reach_set(wit[x]));
            assert(bset(order[y]@, gn) == self.reach_set(wit[y]));
            assert(bset(order[x]@, gn).contains(t) != bset(order[y]@, gn).contains(t));
            assert(self.reach(wit[x], t) != self.reach(wit[y], t));
        }
    }
}

impl Nfa {
    /// An NFA that copies a DFA's table reaches exactly the runs from its start states.
    pub proof fn lemma_det_reach_from(&self, d: &Dfa, w: Seq<usize>)
        requires
            self.wf(),
            d.wf(),
            self.nstates == d.nstates,
            self.alpha == d.alpha,
            forall|s: nat, a: nat, t: nat| s < d.nstates && a < d.alpha && t < d.nstates ==> (#[trigger] self.edge(s, a, t)
                <==> t == d.step(s, a)),
            word_over(w, d.alpha as nat),
        ensures
            forall|t: nat| #[trigger] self.reach(w, t) <==> exists|s: nat| #[trigger] self.is_init(s) && t == d.run_from(s, w),
        decreases w.len(),
    {
        if w.len() == 0 {
            assert forall|t: nat| #[trigger] self.reach(w, t) <==> exists|s: nat| #[trigger] self.is_init(s) && t == d.run_from(s, w) by {
                if self.reach(w, t) {
                    assert(self.is_init(t) && t == d.run_from(t, w));
                }
            }
        } else {
            let w0 = w.drop_last();
            let a = w.last() as nat;
            lemma_word_over_sub(w, d.alpha as nat);
            self.lemma_det_reach_from(d, w0);
            d.lemma_steps();
            assert forall|t: nat| #[trigger] self.reach(w, t) <==> exists|s: nat| #[trigger] self.is_init(s) && t == d.run_from(s, w) by {
                if self.reach(w, t) {
                    let p = choose|p: nat| #[trigger] self.reach_set(w0).contains(p) && p < self.nstates && self.edge(p, a, t);
                    assert(self.reach(w0, p));
                    let s = choose|s: nat| #[trigger] self.is_init(s) && p == d.run_from(s, w0);
                    assert(t == d.step(p, a));
                    assert(d.run_from(s, w) == d.step(d.run_from(s, w0), a));
                }
                if exists|s: nat| #[trigger] self.is_init(s) && t == d.run_from(s, w) {
                    let s = choose|s: nat| #[trigger] self.is_init(s) && t == d.run_from(s, w);
                    let p = d.run_from(s, w0);
                    assert(self.reach(w0, p));
                    lemma_trun(d.trans@, d.nstates as nat, d.alpha as nat, s, w0);
                    assert(d.run_from(s, w) == d.step(p, a));
                    assert(t < d.nstates);
                    assert(self.edge(p, a, t));
                    assert(self.reach_set(w0).contains(p));
                }
            }
        }
    }

    /// Subset construction with no cap beyond the `u32` range of state ids.
    pub fn determinize(&self) -> (r: Option<Dfa>)
        requires
            self.wf(),
        ensures
            match r {
                Some(d) => {
                    &&& d.wf()
                    &&& d.k == self.k
                    &&& d.vars@ == self.vars@
                    &&& d.alpha == self.alpha
                    &&& forall|w: Seq<usize>| word_over(w, self.alpha as nat) ==> #[trigger] d.accepts(w) == self.accepts(w)
                },
                None => exists|ws: Seq<Seq<usize>>| ws.len() >= u32::MAX && #[trigger] self.distinct_reach(ws),
            },
    {
        self.determinize_capped(4294967295usize)
    }
}
} // verus!
