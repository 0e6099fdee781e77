//! Minimisation: trim to the reachable part, then Moore partition refinement.
use vstd::prelude::*;
use std::collections::HashMap;
use crate::dfa::{
    Dfa, State, word_over, tstep, lemma_index, lemma_trun, lemma_word_over_sub, lemma_trun_concat,
};

verus! {

broadcast use vstd::std_specs::hash::group_hash_axioms;

impl Dfa {
    /// The reachable part of the automaton, states renumbered in breadth-first order.
    pub fn trim(&self) -> (r: Dfa)
        requires
            self.wf(),
        ensures
            r.wf(),
            r.same_sig(self),
            r.nstates <= self.nstates,
            r.same_lang(self),
            forall|q: nat| q < r.nstates ==> #[trigger] r.reachable(q),
    {
        let n = self.nstates;
        let alpha = self.alpha;
        let mut map: Vec<usize> = Vec::new();
        let mut j: usize = 0;
        while j < n
            invariant
                j <= n,
                map.len() == j,
                forall|x: int| 0 <= x < j ==> map@[x] == usize::MAX,
            decreases n - j,
        {
            map.push(usize::MAX);
            j = j + 1;
        }
        let mut order: Vec<usize> = Vec::new();
        order.push(0);
        map.set(0, 0);
        let ghost range = vstd::set_lib::set_int_range(0, n as int);
        let ghost mut got: Set<int> = Set::empty().insert(0int);
        let ghost mut words: Seq<Seq<usize>> = seq![Seq::<usize>::empty()];
        proof {
            vstd::set_lib::lemma_int_range(0, n as int);
            assert(self.run_from(0, Seq::<usize>::empty()) == 0);
            assert(word_over(words[0], alpha as nat));
        }
        let mut i: usize = 0;
        while i < order.len()
            invariant
                self.wf(),
                n == self.nstates,
                alpha == self.alpha,
                map.len() == n,
                1 <= order.len(),
                order@[0] == 0,
                i <= order.len(),
                range == vstd::set_lib::set_int_range(0, n as int),
                range.finite(),
                range.len() == n,
                got.finite(),
                got.subset_of(range),
                got.len() == order.len(),
                forall|x: int| 0 <= x < n ==> (#[trigger] map@[x] != usize::MAX <==> got.contains(x)),
                forall|id: int| 0 <= id < order.len() ==> (#[trigger] order@[id]) < n && map@[order@[id] as int] == id,
                forall|x: int| 0 <= x < n && #[trigger] map@[x] != usize::MAX ==> map@[x] < order.len() && order@[map@[x] as int] == x,
                forall|id: nat, a: nat| id < i && a < alpha ==> map@[#[trigger] self.step(order@[id as int] as nat, a) as int] != usize::MAX,
                words.len() == order.len(),
                forall|id: int| 0 <= id < words.len() ==> word_over(#[trigger] words[id], alpha as nat)
                    && self.run_from(0, words[id]) == order@[id] as nat,
            decreases n - i,
        {
            proof {
                vstd::set_lib::lemma_len_subset(got, range);
                self.lemma_steps();
            }
            let s = order[i];
            let mut a: usize = 0;
            while a < alpha
                invariant
                    self.wf(),
                    n == self.nstates,
                    alpha == self.alpha,
                    map.len() == n,
                    1 <= order.len(),
                    order@[0] == 0,
                    i < order.len(),
                    s == order@[i as int],
                    s < n,
                    a <= alpha,
                    range == vstd::set_lib::set_int_range(0, n as int),
                    range.finite(),
                    range.len() == n,
                    got.finite(),
                    got.subset_of(range),
                    got.len() == order.len(),
                    forall|x: int| 0 <= x < n ==> (#[trigger] map@[x] != usize::MAX <==> got.contains(x)),
                    forall|id: int| 0 <= id < order.len() ==> (#[trigger] order@[id]) < n && map@[order@[id] as int] == id,
                    forall|x: int| 0 <= x < n && #[trigger] map@[x] != usize::MAX ==> map@[x] < order.len() && order@[map@[x] as int] == x,
                    forall|id: nat, b: nat| (id < i && b < alpha) || (id == i && b < a) ==> map@[#[trigger] self.step(order@[id as int] as nat, b) as int] != usize::MAX,
                    words.len() == order.len(),
                    forall|id: int| 0 <= id < words.len() ==> word_over(#[trigger] words[id], alpha as nat)
                        && self.run_from(0, words[id]) == order@[id] as nat,
                decreases alpha - a,
            {
                proof {
                    self.lemma_steps();
                    vstd::set_lib::lemma_len_subset(got, range);
                }
                let d = self.t(s, a);
                if map[d] == usize::MAX {
                    proof {
                        assert(!got.contains(d as int));
                        got = got.insert(d as int);
                        vstd::set_lib::lemma_len_subset(got, range);
                    }
                    proof {
                        let nw = words[i as int].push(a);
                        assert(nw.drop_last() =~= words[i as int]);
                        assert(nw.last() == a);
                        assert(word_over(nw, alpha as nat)) by {
                            assert forall|x: int| 0 <= x < nw.len() implies (#[trigger] nw[x] as nat) < alpha as nat by {
                                if x < nw.len() - 1 {
                                    assert(nw[x] == words[i as int][x]);
                                }
                            }
                        }
                        assert(self.run_from(0, nw) == self.step(s as nat, a as nat));
                        words = words.push(nw);
                    }
                    map.set(d, order.len());
                    order.push(d);
                }
                a = a + 1;
            }
            i = i + 1;
        }
        proof {
            vstd::set_lib::lemma_len_subset(got, range);
        }
        let m = order.len();
        let mut trans: Vec<State> = Vec::new();
        let mut accept: Vec<bool> = Vec::new();
        let mut id: usize = 0;
        while id < m
            invariant
                self.wf(),
                n == self.nstates,
                alpha == self.alpha,
                m == order.len(),
                m <= n,
                map.len() == n,
                id <= m,
                forall|x: int| 0 <= x < m ==> (#[trigger] order@[x]) < n && map@[order@[x] as int] == x,
                forall|x: int| 0 <= x < n && #[trigger] map@[x] != usize::MAX ==> map@[x] < m && order@[map@[x] as int] == x,
                forall|q: nat, a: nat| q < m && a < alpha ==> map@[#[trigger] self.step(order@[q as int] as nat, a) as int] != usize::MAX,
                trans.len() == id * alpha,
                accept.len() == id,
                forall|x: int| 0 <= x < trans.len() ==> (#[trigger] trans@[x] as nat) < m,
                forall|q: nat, a: nat| q < id && a < alpha ==> #[trigger] tstep(trans@, alpha as nat, q, a)
                    == map@[self.step(order@[q as int] as nat, a) as int] as nat,
                forall|q: int| 0 <= q < id ==> accept@[q] == self.accept@[order@[q] as int],
            decreases m - id,
        {
            let s = order[id];
            let mut a: usize = 0;
            while a < alpha
                invariant
                    self.wf(),
                    n == self.nstates,
                    alpha == self.alpha,
                    m == order.len(),
                    m <= n,
                    map.len() == n,
                    id < m,
                    s == order@[id as int],
                    s < n,
                    a <= alpha,
                    forall|x: int| 0 <= x < n && #[trigger] map@[x] != usize::MAX ==> map@[x] < m && order@[map@[x] as int] == x,
                    forall|q: nat, b: nat| q < m && b < alpha ==> map@[#[trigger] self.step(order@[q as int] as nat, b) as int] != usize::MAX,
                    trans.len() == id * alpha + a,
                    forall|x: int| 0 <= x < trans.len() ==> (#[trigger] trans@[x] as nat) < m,
                    forall|q: nat, b: nat| (q < id && b < alpha) || (q == id && b < a) ==> #[trigger] tstep(trans@, alpha as nat, q, b)
                        == map@[self.step(order@[q as int] as nat, b) as int] as nat,
                decreases alpha - a,
            {
                proof {
                    self.lemma_steps();
                }
                let d = self.t(s, a);
                assert(map@[self.step(order@[id as int] as nat, a as nat) as int] != usize::MAX);
                let ghost before = trans@;
                trans.push(map[d] as State);
                proof {
                    assert forall|q: nat, b: nat| (q < id && b < alpha) || (q == id && b < a + 1) implies #[trigger] tstep(trans@, alpha as nat, q, b)
                        == map@[self.step(order@[q as int] as nat, b) as int] as nat by {
                        if q < id {
                            lemma_index(q, b, id as nat, alpha as nat);
                            assert(trans@[(q * alpha + b) as int] == before[(q * alpha + b) as int]);
                            assert(tstep(before, alpha as nat, q, b) == map@[self.step(order@[q as int] as nat, b) as int] as nat);
                        } else if b < a {
                            assert(trans@[(q * alpha + b) as int] == before[(q * alpha + b) as int]);
                            assert(tstep(before, alpha as nat, q, b) == map@[self.step(order@[q as int] as nat, b) as int] as nat);
                        }
                    }
                }
                a = a + 1;
            }
            accept.push(self.accept[s]);
            proof {
                assert((id + 1) * alpha == id * alpha + alpha) by (nonlinear_arith);
            }
            id = id + 1;
        }
        let r = Dfa { k: self.k, vars: crate::strs::copy_names(&self.vars), alpha, nstates: m, trans, accept };
        proof {
            assert forall|w: Seq<usize>| word_over(w, self.alpha as nat) implies #[trigger] self.accepts(w) == r.accepts(w) by {
                self.lemma_trim_run(&r, map@, order@, w);
            }
            assert forall|q: nat| q < r.nstates implies #[trigger] r.reachable(q) by {
                let w = words[q as int];
                self.lemma_trim_run(&r, map@, order@, w);
                assert(r.run_from(0, w) == q);
            }
        }
        r
    }

    /// Runs of the trimmed automaton are the renumbered runs of the input automaton.
    pub proof fn lemma_trim_run(&self, r: &Dfa, map: Seq<usize>, order: Seq<usize>, w: Seq<usize>)
        requires
            self.wf(),
            r.wf(),
            r.alpha == self.alpha,
            r.nstates == order.len(),
            map.len() == self.nstates,
            order[0] == 0,
            map[0] == 0,
            forall|x: int| 0 <= x < r.nstates ==> (#[trigger] order[x]) < self.nstates && map[order[x] as int] == x,
            forall|x: int| 0 <= x < self.nstates && #[trigger] map[x] != usize::MAX ==> map[x] < r.nstates && order[map[x] as int] == x,
            forall|q: nat, a: nat| q < r.nstates && a < r.alpha ==> map[#[trigger] self.step(order[q as int] as nat, a) as int] != usize::MAX,
            forall|q: nat, a: nat| q < r.nstates && a < r.alpha ==> #[trigger] tstep(r.trans@, r.alpha as nat, q, a)
                == map[self.step(order[q as int] as nat, a) as int] as nat,
            forall|q: int| 0 <= q < r.nstates ==> r.accept@[q] == self.accept@[order[q] as int],
            word_over(w, self.alpha as nat),
        ensures
            map[self.run_from(0, w) as int] != usize::MAX,
            r.run_from(0, w) == map[self.run_from(0, w) as int],
            self.accepts(w) == r.accepts(w),
        decreases w.len(),
    {
        lemma_trun(self.trans@, self.nstates as nat, self.alpha as nat, 0, w);
        lemma_trun(r.trans@, r.nstates as nat, r.alpha as nat, 0, w);
        if w.len() > 0 {
            lemma_word_over_sub(w, self.alpha as nat);
            self.lemma_trim_run(r, map, order, w.drop_last());
            lemma_trun(self.trans@, self.nstates as nat, self.alpha as nat, 0, w.drop_last());
            let s = self.run_from(0, w.drop_last());
            let q = map[s as int] as nat;
            assert(order[q as int] == s);
            assert(map[self.step(order[q as int] as nat, w.last() as nat) as int] != usize::MAX);
            assert(tstep(r.trans@, r.alpha as nat, q, w.last() as nat) == map[self.step(s, w.last() as nat) as int] as nat);
        }
        let s = self.run_from(0, w);
        assert(order[map[s as int] as int] == s);
    }
}

/// The set of colours a colouring uses on its first `n` states.
pub open spec fn img(color: Seq<u32>, n: nat) -> Set<int> {
    Set::new(|c: int| exists|s: int| 0 <= s < n && color[s] as int == c)
}

/// Some entry among the first `s` of `v` is `id`.
pub open spec fn hits(v: Seq<u32>, s: nat, id: int) -> bool {
    exists|x: int| 0 <= x < s && v[x] as int == id
}

/// Two states share a colour exactly when they share the previous colour and,
/// on each of the first `a` letters, the colour of their successors.
pub open spec fn refines_upto(d: &Dfa, cur: Seq<u32>, color: Seq<u32>, a: nat) -> bool {
    forall|s: nat, t: nat| s < d.nstates && t < d.nstates ==> (
        (#[trigger] cur[s as int] == #[trigger] cur[t as int]) <==> (
            color[s as int] == color[t as int]
            && forall|b: nat| b < a ==> color[d.step(s, b) as int] == color[d.step(t, b) as int]))
}

/// Equal colours mean equal acceptance and equally coloured successors.
pub open spec fn congruence(d: &Dfa, color: Seq<u32>) -> bool {
    &&& forall|s: nat, t: nat| s < d.nstates && t < d.nstates && #[trigger] color[s as int] == #[trigger] color[t as int]
        ==> d.accept@[s as int] == d.accept@[t as int]
    &&& forall|s: nat, t: nat, a: nat| s < d.nstates && t < d.nstates && a < d.alpha && color[s as int] == color[t as int]
        ==> color[#[trigger] d.step(s, a) as int] == color[#[trigger] d.step(t, a) as int]
}

/// States of different colours are told apart by some word.
pub open spec fn split_ok(d: &Dfa, color: Seq<u32>) -> bool {
    forall|s: nat, t: nat| s < d.nstates && t < d.nstates && color[s as int] != color[t as int]
        ==> #[trigger] d.distinguishable(s, t)
}

impl Dfa {
    /// A refinement round only splits states that some word tells apart.
    pub proof fn lemma_split(&self, cur: Seq<u32>, color: Seq<u32>)
        requires
            self.wf(),
            cur.len() == self.nstates,
            color.len() == self.nstates,
            refines_upto(self, cur, color, self.alpha as nat),
            split_ok(self, color),
        ensures
            split_ok(self, cur),
    {
        assert forall|s: nat, t: nat| s < self.nstates && t < self.nstates && cur[s as int] != cur[t as int]
            implies #[trigger] self.distinguishable(s, t) by {
            if color[s as int] != color[t as int] {
            } else {
                let b = choose|b: nat| b < self.alpha && color[self.step(s, b) as int] != color[self.step(t, b) as int];
                self.lemma_steps();
                let s2 = self.step(s, b);
                let t2 = self.step(t, b);
                assert(self.distinguishable(s2, t2));
                let w = choose|w: Seq<usize>| word_over(w, self.alpha as nat)
                    && self.accept@[#[trigger] self.run_from(s2, w) as int] != self.accept@[self.run_from(t2, w) as int];
                let u = seq![b as usize];
                assert(u.drop_last() =~= Seq::<usize>::empty());
                assert(u.last() == b as usize);
                assert(self.run_from(s, u.drop_last()) == s);
                assert(self.run_from(t, u.drop_last()) == t);
                assert(self.run_from(s, u) == s2);
                assert(self.run_from(t, u) == t2);
                lemma_trun_concat(self.trans@, self.alpha as nat, s, u, w);
                lemma_trun_concat(self.trans@, self.alpha as nat, t, u, w);
                let w2 = u + w;
                assert(word_over(w2, self.alpha as nat)) by {
                    assert forall|x: int| 0 <= x < w2.len() implies (#[trigger] w2[x] as nat) < self.alpha as nat by {
                        if x > 0 {
                            assert(w2[x] == w[x - 1]);
                        }
                    }
                }
                assert(self.accept@[self.run_from(s, w2) as int] != self.accept@[self.run_from(t, w2) as int]);
            }
        }
    }

    /// From any state, the quotient automaton follows the relabelled classes of the input automaton.
    pub proof fn lemma_quotient_from(&self, r: &Dfa, color: Seq<u32>, relabel: Seq<usize>, x: nat, w: Seq<usize>)
        requires
            self.wf(),
            r.alpha == self.alpha,
            color.len() == self.nstates,
            x < self.nstates,
            forall|y: nat, b: nat| y < self.nstates && b < self.alpha ==>
                #[trigger] tstep(r.trans@, r.alpha as nat, relabel[color[y as int] as int] as nat, b)
                == relabel[color[self.step(y, b) as int] as int] as nat,
            word_over(w, self.alpha as nat),
        ensures
            r.run_from(relabel[color[x as int] as int] as nat, w) == relabel[color[self.run_from(x, w) as int] as int],
        decreases w.len(),
    {
        if w.len() > 0 {
            lemma_word_over_sub(w, self.alpha as nat);
            self.lemma_quotient_from(r, color, relabel, x, w.drop_last());
            lemma_trun(self.trans@, self.nstates as nat, self.alpha as nat, x, w.drop_last());
            let y = self.run_from(x, w.drop_last());
            assert(w.last() == w[w.len() - 1]);
            assert(tstep(r.trans@, r.alpha as nat, relabel[color[y as int] as int] as nat, w.last() as nat)
                == relabel[color[self.step(y, w.last() as nat) as int] as int] as nat);
        }
    }
}

/// A colouring coarser than an earlier one with as many classes is the same partition,
/// and it never has fewer classes.
pub proof fn lemma_class_count(cur: Seq<u32>, color: Seq<u32>, n: nat)
    requires
        cur.len() == n,
        color.len() == n,
        img(cur, n).finite(),
        img(color, n).finite(),
        forall|s: int, t: int| 0 <= s < n && 0 <= t < n && #[trigger] cur[s] == #[trigger] cur[t] ==> color[s] == color[t],
    ensures
        img(color, n).len() <= img(cur, n).len(),
        img(color, n).len() == img(cur, n).len() ==> forall|s: int, t: int| 0 <= s < n && 0 <= t < n
            && #[trigger] color[s] == #[trigger] color[t] ==> cur[s] == cur[t],
{
    let f = |c: int| color[(choose|s: int| 0 <= s < n && cur[s] as int == c) as int] as int;
    let inew = img(cur, n);
    let iold = img(color, n);
    assert(inew.map(f) =~= iold) by {
        assert forall|c: int| inew.contains(c) implies iold.contains(f(c)) by {
            let s = choose|s: int| 0 <= s < n && cur[s] as int == c;
            assert(0 <= s < n && color[s] as int == f(c));
        }
        assert forall|o: int| iold.contains(o) implies inew.map(f).contains(o) by {
            let s = choose|s: int| 0 <= s < n && color[s] as int == o;
            let c = cur[s] as int;
            assert(inew.contains(c));
            let s2 = choose|s2: int| 0 <= s2 < n && cur[s2] as int == c;
            assert(cur[s2] == cur[s]);
            assert(f(c) == o);
        }
    }
    vstd::set_lib::lemma_map_size_bound(inew, iold, f);
    assert forall|s: int, t: int| 0 <= s < n && 0 <= t < n && #[trigger] color[s] == #[trigger] color[t]
        && iold.len() == inew.len() implies cur[s] == cur[t] by {
        if cur[s] != cur[t] {
            let x = cur[s] as int;
            let y = cur[t] as int;
            assert(inew.contains(x));
            assert(inew.contains(y));
            let sx = choose|s2: int| 0 <= s2 < n && cur[s2] as int == x;
            let sy = choose|s2: int| 0 <= s2 < n && cur[s2] as int == y;
            assert(f(x) == color[s] as int);
            assert(f(y) == color[t] as int);
            assert(inew.remove(x).map(f) =~= iold) by {
                assert forall|c: int| inew.remove(x).contains(c) implies iold.contains(f(c)) by {
                    let s3 = choose|s3: int| 0 <= s3 < n && cur[s3] as int == c;
                    assert(0 <= s3 < n && color[s3] as int == f(c));
                }
                assert forall|o: int| iold.contains(o) implies inew.remove(x).map(f).contains(o) by {
                    if o == f(x) {
                        assert(inew.remove(x).contains(y));
                    } else {
                        assert(inew.map(f).contains(o));
                        let c = choose|c: int| inew.contains(c) && f(c) == o;
                        assert(inew.remove(x).contains(c));
                    }
                }
            }
            vstd::set_lib::lemma_map_size_bound(inew.remove(x), iold, f);
        }
    }
}

impl Dfa {
    /// The key under which a state's refined colour is interned.
    pub open spec fn sig_key(&self, cur: Seq<u32>, color: Seq<u32>, x: nat, a: nat) -> u64 {
        (cur[x as int] as nat * (self.nstates + 1) + color[self.step(x, a) as int] as nat) as u64
    }

    /// Moore partition refinement: merge states that no word tells apart.
    #[verifier::spinoff_prover]
    pub fn refine(&self) -> (r: Dfa)
        requires
            self.wf(),
        ensures
            r.wf(),
            r.same_sig(self),
            r.nstates <= self.nstates,
            r.same_lang(self),
            forall|s: nat, t: nat| s < r.nstates && t < r.nstates && s != t ==> #[trigger] r.distinguishable(s, t),
            (forall|s: nat| s < self.nstates ==> #[trigger] self.reachable(s))
                ==> (forall|s: nat| s < r.nstates ==> #[trigger] r.reachable(s)),
    {
        let n = self.nstates;
        let alpha = self.alpha;
        let ghost n1 = (n + 1) as nat;
        let mut color: Vec<u32> = Vec::new();
        let mut any_t = false;
        let mut any_f = false;
        let mut j: usize = 0;
        while j < n
            invariant
                self.wf(),
                n == self.nstates,
                j <= n,
                color.len() == j,
                forall|x: int| 0 <= x < j ==> color@[x] == (if self.accept@[x] { 1u32 } else { 0u32 }),
                any_t <==> exists|x: int| 0 <= x < j && self.accept@[x],
                any_f <==> exists|x: int| 0 <= x < j && !self.accept@[x],
            decreases n - j,
        {
            if self.accept[j] {
                color.push(1);
                any_t = true;
            } else {
                color.push(0);
                any_f = true;
            }
            j = j + 1;
        }
        let mut ncolors: usize = if any_t && any_f { 2 } else { 1 };
        proof {
            assert forall|s: nat, t: nat| s < n && t < n && color@[s as int] != color@[t as int]
                implies #[trigger] self.distinguishable(s, t) by {
                let w = Seq::<usize>::empty();
                assert(self.run_from(s, w) == s);
                assert(self.run_from(t, w) == t);
                assert(word_over(w, alpha as nat));
            }
            if any_t && any_f {
                let x = choose|x: int| 0 <= x < n && self.accept@[x];
                let y = choose|y: int| 0 <= y < n && !self.accept@[y];
                assert(img(color@, n as nat) =~= set![0int, 1int]) by {
                    assert(color@[x] == 1);
                    assert(color@[y] == 0);
                }
            } else if any_t {
                assert(img(color@, n as nat) =~= set![1int]) by {
                    assert(self.accept@[0]);
                    assert(color@[0] == 1);
                }
            } else {
                assert(img(color@, n as nat) =~= set![0int]) by {
                    assert(!self.accept@[0]);
                    assert(color@[0] == 0);
                }
            }
        }
        loop
            invariant
                self.wf(),
                n == self.nstates,
                alpha == self.alpha,
                n1 == n + 1,
                color.len() == n,
                forall|x: int| 0 <= x < n ==> (#[trigger] color@[x] as nat) <= n,
                img(color@, n as nat).finite(),
                img(color@, n as nat).len() == ncolors,
                1 <= ncolors <= n + 1,
                forall|s: nat, t: nat| s < n && t < n && #[trigger] color@[s as int] == #[trigger] color@[t as int]
                    ==> self.accept@[s as int] == self.accept@[t as int],
                split_ok(self, color@),
            ensures
                color.len() == n,
                img(color@, n as nat) == vstd::set_lib::set_int_range(0, ncolors as int),
                1 <= ncolors <= n,
                congruence(self, color@),
                split_ok(self, color@),
            decreases n + 1 - ncolors,
        {
            // one round: cur[s] identifies (color[s], color[t(s,0)], .., color[t(s,alpha-1)])
            let mut cur: Vec<u32> = color.clone();
            assert(cur@ =~= color@);
            let mut nc: usize = ncolors;
            let mut a: usize = 0;
            proof {
                assert forall|s: nat, t: nat| s < n && t < n implies (
                    (#[trigger] cur@[s as int] == #[trigger] cur@[t as int]) <==> (
                        color@[s as int] == color@[t as int]
                        && forall|b: nat| b < 0 ==> color@[self.step(s, b) as int] == color@[self.step(t, b) as int])) by {}
            }
            while a < alpha
                invariant
                    self.wf(),
                    n == self.nstates,
                    alpha == self.alpha,
                    color.len() == n,
                    cur.len() == n,
                    a <= alpha,
                    forall|x: int| 0 <= x < n ==> (#[trigger] color@[x] as nat) <= n,
                    forall|x: int| 0 <= x < n ==> (#[trigger] cur@[x] as nat) <= n,
                    refines_upto(self, cur@, color@, a as nat),
                    a > 0 ==> img(cur@, n as nat) == vstd::set_lib::set_int_range(0, nc as int),
                    a > 0 ==> 1 <= nc <= n,
                decreases alpha - a,
            {
                proof {
                    self.lemma_steps();
                }
                let mut tab: HashMap<u64, u32> = HashMap::new();
                let mut next: Vec<u32> = Vec::new();
                let mut cnt: usize = 0;
                let mut s: usize = 0;
                while s < n
                    invariant
                        self.wf(),
                        n == self.nstates,
                        alpha == self.alpha,
                        color.len() == n,
                        cur.len() == n,
                        a < alpha,
                        s <= n,
                        next.len() == s,
                        cnt <= s,
                        forall|x: int| 0 <= x < n ==> (#[trigger] color@[x] as nat) <= n,
                        forall|x: int| 0 <= x < n ==> (#[trigger] cur@[x] as nat) <= n,
                        forall|key: u64| #[trigger] tab@.contains_key(key) ==> (tab@[key] as nat) < cnt,
                        forall|k1: u64, k2: u64| #[trigger] tab@.contains_key(k1) && #[trigger] tab@.contains_key(k2)
                            && tab@[k1] == tab@[k2] ==> k1 == k2,
                        forall|x: nat| x < s ==> #[trigger] tab@.contains_key(self.sig_key(cur@, color@, x, a as nat)),
                        forall|x: nat| x < s ==> #[trigger] next@[x as int] == tab@[self.sig_key(cur@, color@, x, a as nat)],
                        forall|id: int| 0 <= id < cnt ==> #[trigger] hits(next@, s as nat, id),
                    decreases n - s,
                {
                    proof {
                        self.lemma_steps();
                    }
                    let d = self.t(s, a);
                    proof {
                        lemma_index(cur@[s as int] as nat, color@[d as int] as nat, (n + 1) as nat, (n + 1) as nat);
                        assert((n + 1) * (n + 1) <= 0x1_0000_0000 * 0x1_0000_0000) by (nonlinear_arith)
                            requires n <= u32::MAX;
                    }
                    let key: u64 = cur[s] as u64 * (n as u64 + 1) + color[d] as u64;
                    let ghost ptab = tab@;
                    let id: u32 = match tab.get(&key) {
                        Some(v) => {
                            proof {
                                assert(tab@.contains_key(key));
                            }
                            *v
                        }
                        None => {
                            let nid = cnt as u32;
                            tab.insert(key, nid);
                            proof {
                                assert(!ptab.contains_key(key));
                                assert forall|k2: u64| #[trigger] ptab.contains_key(k2) implies tab@.contains_key(k2) && tab@[k2] == ptab[k2] by {
                                    assert(k2 != key);
                                }
                            }
                            cnt = cnt + 1;
                            nid
                        }
                    };
                    proof {
                        assert forall|k2: u64| #[trigger] ptab.contains_key(k2) implies tab@.contains_key(k2) && tab@[k2] == ptab[k2] by {}
                    }
                    let ghost pnext = next@;
                    next.push(id);
                    proof {
                        assert(key == self.sig_key(cur@, color@, s as nat, a as nat));
                        assert(tab@.contains_key(key));
                        assert(next@[s as int] == tab@[key]);
                        assert forall|x: nat| x < s + 1 implies #[trigger] tab@.contains_key(self.sig_key(cur@, color@, x, a as nat)) by {
                            if x < s {
                                let key2 = self.sig_key(cur@, color@, x, a as nat);
                                assert(ptab.contains_key(key2));
                            }
                        }
                        assert forall|x: nat| x < s + 1 implies #[trigger] next@[x as int] == tab@[self.sig_key(cur@, color@, x, a as nat)] by {
                            if x < s {
                                let key2 = self.sig_key(cur@, color@, x, a as nat);
                                assert(pnext[x as int] == ptab[key2]);
                                assert(ptab.contains_key(key2));
                            }
                        }
                        assert forall|id2: int| 0 <= id2 < cnt implies #[trigger] hits(next@, (s + 1) as nat, id2) by {
                            if id2 == cnt - 1 && next@[s as int] as int == id2 {
                                assert(0 <= s < s + 1 && next@[s as int] as int == id2);
                            } else {
                                assert(hits(pnext, s as nat, id2));
                                let x = choose|x: int| 0 <= x < s && pnext[x] as int == id2;
                                assert(next@[x] as int == id2);
                            }
                        }
                    }
                    s = s + 1;
                }
                proof {
                    // the new colouring refines one more letter
                    assert forall|x: nat, y: nat| x < n && y < n implies (
                        (#[trigger] next@[x as int] == #[trigger] next@[y as int]) <==> (
                            color@[x as int] == color@[y as int]
                            && forall|b: nat| b < a + 1 ==> color@[self.step(x, b) as int] == color@[self.step(y, b) as int])) by {
                        let kx = (cur@[x as int] as nat * (n + 1) + color@[self.step(x, a as nat) as int] as nat);
                        let ky = (cur@[y as int] as nat * (n + 1) + color@[self.step(y, a as nat) as int] as nat);
                        lemma_index(cur@[x as int] as nat, color@[self.step(x, a as nat) as int] as nat, (n + 1) as nat, (n + 1) as nat);
                        lemma_index(cur@[y as int] as nat, color@[self.step(y, a as nat) as int] as nat, (n + 1) as nat, (n + 1) as nat);
                        assert((n + 1) * (n + 1) <= 0x1_0000_0000 * 0x1_0000_0000) by (nonlinear_arith)
                            requires n <= u32::MAX;
                        assert(self.sig_key(cur@, color@, x, a as nat) == kx as u64);
                        assert(self.sig_key(cur@, color@, y, a as nat) == ky as u64);
                        assert(tab@.contains_key(self.sig_key(cur@, color@, x, a as nat)));
                        assert(tab@.contains_key(self.sig_key(cur@, color@, y, a as nat)));
                        assert(next@[x as int] == tab@[kx as u64]);
                        assert(next@[y as int] == tab@[ky as u64]);
                        if next@[x as int] == next@[y as int] {
                            assert(kx as u64 == ky as u64);
                            crate::product::lemma_pair_unique(cur@[x as int] as nat, color@[self.step(x, a as nat) as int] as nat,
                                cur@[y as int] as nat, color@[self.step(y, a as nat) as int] as nat, (n + 1) as nat);
                        }
                        if color@[x as int] == color@[y as int]
                            && (forall|b: nat| b < a + 1 ==> color@[self.step(x, b) as int] == color@[self.step(y, b) as int]) {
                            assert(color@[self.step(x, a as nat) as int] == color@[self.step(y, a as nat) as int]);
                            assert(cur@[x as int] == cur@[y as int]);
                        }
                    }
                    assert forall|x: int| 0 <= x < n implies (#[trigger] next@[x] as nat) <= n by {
                        let key = self.sig_key(cur@, color@, x as nat, a as nat);
                        let v = next@[x];
                        assert(tab@.contains_key(key));
                        assert(next@[x] == tab@[key]);
                    }
                    assert(img(next@, n as nat) =~= vstd::set_lib::set_int_range(0, cnt as int)) by {
                        assert forall|c: int| img(next@, n as nat).contains(c) implies 0 <= c < cnt by {
                            let x = choose|x: int| 0 <= x < n && next@[x] as int == c;
                            let key = self.sig_key(cur@, color@, x as nat, a as nat);
                            let v = next@[x];
                            assert(tab@.contains_key(key));
                            assert(next@[x] == tab@[key]);
                        }
                        assert forall|c: int| 0 <= c < cnt implies img(next@, n as nat).contains(c) by {
                            assert(hits(next@, n as nat, c));
                            let x = choose|x: int| 0 <= x < n && next@[x] as int == c;
                        }
                    }
                    assert(next@[0] as int >= 0);
                    assert(img(next@, n as nat).contains(next@[0] as int));
                }
                cur = next;
                nc = cnt;
                a = a + 1;
            }
            proof {
                vstd::set_lib::lemma_int_range(0, nc as int);
                lemma_class_count(cur@, color@, n as nat);
                self.lemma_split(cur@, color@);
            }
            if nc == ncolors {
                proof {
                    assert forall|s: nat, t: nat, b: nat| s < n && t < n && b < alpha && cur@[s as int] == cur@[t as int]
                        implies cur@[#[trigger] self.step(s, b) as int] == cur@[#[trigger] self.step(t, b) as int] by {
                        self.lemma_steps();
                        assert(color@[self.step(s, b) as int] == color@[self.step(t, b) as int]);
                    }
                    assert forall|s: nat, t: nat| s < n && t < n && #[trigger] cur@[s as int] == #[trigger] cur@[t as int]
                        implies self.accept@[s as int] == self.accept@[t as int] by {
                        assert(color@[s as int] == color@[t as int]);
                    }
                }
                color = cur;
                break;
            }
            proof {
                assert forall|s: nat, t: nat| s < n && t < n && #[trigger] cur@[s as int] == #[trigger] cur@[t as int]
                    implies self.accept@[s as int] == self.accept@[t as int] by {
                    assert(color@[s as int] == color@[t as int]);
                }
            }
            color = cur;
            ncolors = nc;
        }
        let m = ncolors;
        proof {
            vstd::set_lib::lemma_int_range(0, m as int);
        }
        // relabel so that the start state's class is 0
        let mut relabel: Vec<usize> = Vec::new();
        let mut j: usize = 0;
        while j < m
            invariant
                j <= m,
                relabel.len() == j,
                forall|x: int| 0 <= x < j ==> relabel@[x] == usize::MAX,
            decreases m - j,
        {
            relabel.push(usize::MAX);
            j = j + 1;
        }
        proof {
            assert(img(color@, n as nat).contains(color@[0] as int));
        }
        relabel.set(color[0] as usize, 0);
        let mut cnt: usize = 1;
        let ghost range = vstd::set_lib::set_int_range(0, m as int);
        let ghost mut used: Set<int> = Set::empty().insert(color@[0] as int);
        let ghost mut rep: Seq<int> = seq![0int];
        let mut s: usize = 0;
        while s < n
            invariant
                self.wf(),
                n == self.nstates,
                alpha == self.alpha,
                m <= n,
                color.len() == n,
                img(color@, n as nat) == range,
                range == vstd::set_lib::set_int_range(0, m as int),
                range.finite(),
                range.len() == m,
                relabel.len() == m,
                s <= n,
                used.finite(),
                used.subset_of(range),
                used.len() == cnt,
                used.contains(color@[0] as int),
                relabel@[color@[0] as int] == 0,
                forall|c: int| 0 <= c < m ==> (#[trigger] relabel@[c] != usize::MAX <==> used.contains(c)),
                forall|c: int| 0 <= c < m && relabel@[c] != usize::MAX ==> #[trigger] relabel@[c] < cnt,
                forall|c1: int, c2: int| 0 <= c1 < m && 0 <= c2 < m && relabel@[c1] != usize::MAX
                    && #[trigger] relabel@[c1] == #[trigger] relabel@[c2] ==> c1 == c2,
                forall|x: int| 0 <= x < s ==> #[trigger] relabel@[color@[x] as int] < cnt,
                rep.len() == cnt,
                forall|id: int| 0 <= id < cnt ==> 0 <= #[trigger] rep[id] < n && relabel@[color@[rep[id]] as int] == id,
            decreases n - s,
        {
            proof {
                assert(img(color@, n as nat).contains(color@[s as int] as int));
                vstd::set_lib::lemma_len_subset(used, range);
            }
            let c = color[s] as usize;
            let ghost prel = relabel@;
            if relabel[c] == usize::MAX {
                proof {
                    used = used.insert(c as int);
                    vstd::set_lib::lemma_len_subset(used, range);
                }
                relabel.set(c, cnt);
                proof {
                    rep = rep.push(s as int);
                    assert forall|id: int| 0 <= id < cnt + 1 implies 0 <= #[trigger] rep[id] < n && relabel@[color@[rep[id]] as int] == id by {
                        if id < cnt {
                            assert(0 <= color@[rep[id]] < m) by {
                                assert(img(color@, n as nat).contains(color@[rep[id]] as int));
                            }
                            assert(prel[color@[rep[id]] as int] == id);
                            assert(color@[rep[id]] as int != c);
                        }
                    }
                }
                cnt = cnt + 1;
            }
            proof {
                assert(range.contains(c as int));
                assert(relabel@[c as int] < cnt);
                assert forall|x: int| 0 <= x < s + 1 implies #[trigger] relabel@[color@[x] as int] < cnt by {
                    if x < s {
                        assert(img(color@, n as nat).contains(color@[x] as int));
                        assert(prel[color@[x] as int] < cnt);
                        assert(color@[x] as int != c || prel[c as int] != usize::MAX);
                    } else {
                        assert(color@[x] as int == c as int);
                    }
                }
            }
            s = s + 1;
        }
        proof {
            vstd::set_lib::lemma_len_subset(used, range);
            assert forall|c: int| 0 <= c < m implies #[trigger] relabel@[c] != usize::MAX by {
                assert(range.contains(c));
                let x = choose|x: int| 0 <= x < n && color@[x] as int == c;
                assert(relabel@[color@[x] as int] < cnt);
            }
            assert(used =~= range) by {
                assert forall|c: int| range.contains(c) implies used.contains(c) by {
                    assert(relabel@[c] != usize::MAX);
                }
            }
            assert(cnt == m);
            assert(m * alpha <= n * alpha) by (nonlinear_arith) requires m <= n;
            assert(self.trans@.len() == n * alpha);
            assert(self.trans.len() <= usize::MAX);
        }
        let mut ntrans: Vec<State> = Vec::new();
        let total = m * alpha;
        let mut j: usize = 0;
        while j < total
            invariant
                total == m * alpha,
                j <= m * alpha,
                ntrans.len() == j,
                forall|x: int| 0 <= x < j ==> ntrans@[x] == 0,
            decreases total - j,
        {
            ntrans.push(0);
            j = j + 1;
        }
        let mut naccept: Vec<bool> = Vec::new();
        let mut j: usize = 0;
        while j < m
            invariant
                j <= m,
                naccept.len() == j,
            decreases m - j,
        {
            naccept.push(false);
            j = j + 1;
        }
        let mut s: usize = 0;
        while s < n
            invariant
                self.wf(),
                n == self.nstates,
                alpha == self.alpha,
                color.len() == n,
                img(color@, n as nat) == vstd::set_lib::set_int_range(0, m as int),
                congruence(self, color@),
                relabel.len() == m,
                m <= n,
                1 <= m,
                forall|c: int| 0 <= c < m ==> #[trigger] relabel@[c] < m,
                forall|c1: int, c2: int| 0 <= c1 < m && 0 <= c2 < m
                    && #[trigger] relabel@[c1] == #[trigger] relabel@[c2] ==> c1 == c2,
                ntrans.len() == m * alpha,
                naccept.len() == m,
                s <= n,
                forall|x: int| 0 <= x < ntrans.len() ==> (#[trigger] ntrans@[x] as nat) < m,
                forall|x: nat, b: nat| x < s && b < alpha ==>
                    #[trigger] tstep(ntrans@, alpha as nat, relabel@[color@[x as int] as int] as nat, b)
                    == relabel@[color@[self.step(x, b) as int] as int] as nat,
                forall|x: nat| x < s ==> naccept@[#[trigger] relabel@[color@[x as int] as int] as int] == self.accept@[x as int],
            decreases n - s,
        {
            proof {
                self.lemma_steps();
                assert(img(color@, n as nat).contains(color@[s as int] as int));
            }
            let c = relabel[color[s] as usize];
            let ghost pacc = naccept@;
            naccept.set(c, self.accept[s]);
            proof {
                assert forall|x: nat| x < s + 1 implies naccept@[#[trigger] relabel@[color@[x as int] as int] as int] == self.accept@[x as int] by {
                    if x < s {
                        assert(img(color@, n as nat).contains(color@[x as int] as int));
                        if relabel@[color@[x as int] as int] == c {
                            assert(color@[x as int] == color@[s as int]);
                        }
                    }
                }
            }
            let mut a: usize = 0;
            while a < alpha
                invariant
                    self.wf(),
                    n == self.nstates,
                    alpha == self.alpha,
                    color.len() == n,
                    img(color@, n as nat) == vstd::set_lib::set_int_range(0, m as int),
                    congruence(self, color@),
                    relabel.len() == m,
                    m <= n,
                    forall|c2: int| 0 <= c2 < m ==> #[trigger] relabel@[c2] < m,
                    forall|c1: int, c2: int| 0 <= c1 < m && 0 <= c2 < m
                        && #[trigger] relabel@[c1] == #[trigger] relabel@[c2] ==> c1 == c2,
                    ntrans.len() == m * alpha,
                    s < n,
                    c == relabel@[color@[s as int] as int],
                    c < m,
                    a <= alpha,
                    forall|x: int| 0 <= x < ntrans.len() ==> (#[trigger] ntrans@[x] as nat) < m,
                    forall|x: nat, b: nat| x < s && b < alpha ==>
                        #[trigger] tstep(ntrans@, alpha as nat, relabel@[color@[x as int] as int] as nat, b)
                        == relabel@[color@[self.step(x, b) as int] as int] as nat,
                    forall|b: nat| b < a ==>
                        #[trigger] tstep(ntrans@, alpha as nat, c as nat, b)
                        == relabel@[color@[self.step(s as nat, b) as int] as int] as nat,
                decreases alpha - a,
            {
                proof {
                    self.lemma_steps();
                    lemma_index(c as nat, a as nat, m as nat, alpha as nat);
                }
                let d = self.t(s, a);
                proof {
                    assert(img(color@, n as nat).contains(color@[d as int] as int));
                }
                let v = relabel[color[d] as usize] as State;
                let ghost pt = ntrans@;
                ntrans.set(c * alpha + a, v);
                proof {
                    assert forall|x: nat, b: nat| x < s && b < alpha implies
                        #[trigger] tstep(ntrans@, alpha as nat, relabel@[color@[x as int] as int] as nat, b)
                        == relabel@[color@[self.step(x, b) as int] as int] as nat by {
                        assert(img(color@, n as nat).contains(color@[x as int] as int));
                        let cx = relabel@[color@[x as int] as int] as nat;
                        lemma_index(cx, b, m as nat, alpha as nat);
                        assert(tstep(pt, alpha as nat, cx, b) == relabel@[color@[self.step(x, b) as int] as int] as nat);
                        if cx == c && b == a {
                            assert(img(color@, n as nat).contains(color@[s as int] as int));
                            assert(color@[x as int] == color@[s as int]);
                            assert(color@[self.step(x, b) as int] == color@[self.step(s as nat, b) as int]);
                        } else if cx * alpha + b == c * alpha + a {
                            crate::product::lemma_pair_unique(cx, b, c as nat, a as nat, alpha as nat);
                        }
                    }
                    assert forall|b: nat| b < a + 1 implies
                        #[trigger] tstep(ntrans@, alpha as nat, c as nat, b)
                        == relabel@[color@[self.step(s as nat, b) as int] as int] as nat by {
                        if b < a {
                            lemma_index(c as nat, b, m as nat, alpha as nat);
                            assert(tstep(pt, alpha as nat, c as nat, b) == relabel@[color@[self.step(s as nat, b) as int] as int] as nat);
                            if c * alpha + b == c * alpha + a {
                            }
                        }
                    }
                }
                a = a + 1;
            }
            s = s + 1;
        }
        let r = Dfa { k: self.k, vars: crate::strs::copy_names(&self.vars), alpha, nstates: m, trans: ntrans, accept: naccept };
        proof {
            assert forall|w: Seq<usize>| word_over(w, self.alpha as nat) implies #[trigger] self.accepts(w) == r.accepts(w) by {
                self.lemma_quotient_run(&r, color@, relabel@, w);
            }
            assert forall|c1: nat, c2: nat| c1 < r.nstates && c2 < r.nstates && c1 != c2
                implies #[trigger] r.distinguishable(c1, c2) by {
                let x = rep[c1 as int] as nat;
                let y = rep[c2 as int] as nat;
                assert(color@[x as int] != color@[y as int]);
                assert(self.distinguishable(x, y));
                let w = choose|w: Seq<usize>| word_over(w, self.alpha as nat)
                    && self.accept@[#[trigger] self.run_from(x, w) as int] != self.accept@[self.run_from(y, w) as int];
                self.lemma_quotient_from(&r, color@, relabel@, x, w);
                self.lemma_quotient_from(&r, color@, relabel@, y, w);
                lemma_trun(self.trans@, n as nat, alpha as nat, x, w);
                lemma_trun(self.trans@, n as nat, alpha as nat, y, w);
                assert(r.accept@[r.run_from(c1, w) as int] == self.accept@[self.run_from(x, w) as int]);
                assert(r.accept@[r.run_from(c2, w) as int] == self.accept@[self.run_from(y, w) as int]);
            }
            if forall|q: nat| q < self.nstates ==> #[trigger] self.reachable(q) {
                assert forall|c: nat| c < r.nstates implies #[trigger] r.reachable(c) by {
                    let x = rep[c as int] as nat;
                    assert(self.reachable(x));
                    let w = choose|w: Seq<usize>| word_over(w, self.alpha as nat) && #[trigger] self.run_from(0, w) == x;
                    self.lemma_quotient_run(&r, color@, relabel@, w);
                    assert(r.run_from(0, w) == c);
                }
            }
        }
        r
    }

    /// Runs of the quotient automaton are the relabelled classes of the runs of the input automaton.
    pub proof fn lemma_quotient_run(&self, r: &Dfa, color: Seq<u32>, relabel: Seq<usize>, w: Seq<usize>)
        requires
            self.wf(),
            r.wf(),
            r.alpha == self.alpha,
            color.len() == self.nstates,
            relabel.len() == r.nstates,
            relabel[color[0] as int] == 0,
            img(color, self.nstates as nat) == vstd::set_lib::set_int_range(0, r.nstates as int),
            forall|x: nat, b: nat| x < self.nstates && b < self.alpha ==>
                #[trigger] tstep(r.trans@, r.alpha as nat, relabel[color[x as int] as int] as nat, b)
                == relabel[color[self.step(x, b) as int] as int] as nat,
            forall|x: nat| x < self.nstates ==> r.accept@[#[trigger] relabel[color[x as int] as int] as int] == self.accept@[x as int],
            word_over(w, self.alpha as nat),
        ensures
            r.run_from(0, w) == relabel[color[self.run_from(0, w) as int] as int],
            self.accepts(w) == r.accepts(w),
        decreases w.len(),
    {
        lemma_trun(self.trans@, self.nstates as nat, self.alpha as nat, 0, w);
        if w.len() > 0 {
            lemma_word_over_sub(w, self.alpha as nat);
            self.lemma_quotient_run(r, color, relabel, w.drop_last());
            lemma_trun(self.trans@, self.nstates as nat, self.alpha as nat, 0, w.drop_last());
            let s = self.run_from(0, w.drop_last());
            assert(tstep(r.trans@, r.alpha as nat, relabel[color[s as int] as int] as nat, w.last() as nat)
                == relabel[color[self.step(s, w.last() as nat) as int] as int] as nat);
        }
        let s = self.run_from(0, w);
        assert(r.accept@[relabel[color[s as int] as int] as int] == self.accept@[s as int]);
    }
}

} // verus!
