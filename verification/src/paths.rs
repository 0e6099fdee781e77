//! Shortest words: breadth-first search from the start state.
use vstd::prelude::*;
use crate::dfa::{Dfa, word_over, lemma_trun, lemma_word_over_sub};

verus! {

/// Parent pointers of a breadth-first tree (`u32::MAX` for states not
/// reached), the letter on each tree edge, and depths: every reached state
/// other than the start is one letter below its parent.
pub open spec fn tree_ok(d: &Dfa, prev: Seq<u32>, psym: Seq<u32>, dep: Seq<nat>) -> bool {
    &&& prev.len() == d.nstates
    &&& psym.len() == d.nstates
    &&& dep.len() == d.nstates
    &&& prev[0] == 0
    &&& dep[0] == 0
    &&& forall|t: int| 0 < t < d.nstates && #[trigger] prev[t] != u32::MAX ==> {
        &&& (prev[t] as int) < d.nstates
        &&& prev[prev[t] as int] != u32::MAX
        &&& (psym[t] as int) < d.alpha
        &&& d.step(prev[t] as nat, psym[t] as nat) == t
        &&& dep[t] == dep[prev[t] as int] + 1
    }
}

/// Every word reaching a state reaches a tree state no shallower than its length.
pub open spec fn bfs_dist(d: &Dfa, prev: Seq<u32>, dep: Seq<nat>) -> bool {
    forall|w: Seq<usize>| word_over(w, d.alpha as nat) ==> prev[#[trigger] d.run_from(0, w) as int] != u32::MAX
        && dep[d.run_from(0, w) as int] <= w.len()
}

impl Dfa {
    /// Some word leads from the start state to `s`.
    pub open spec fn reachable(&self, s: nat) -> bool {
        exists|w: Seq<usize>| word_over(w, self.alpha as nat) && #[trigger] self.run_from(0, w) == s
    }

    /// A closed set of tree states whose depths grow by at most one per letter
    /// bounds the depth of every reached state by the word's length.
    proof fn lemma_bfs_dist(&self, prev: Seq<u32>, dep: Seq<nat>, w: Seq<usize>)
        requires
            self.wf(),
            prev.len() == self.nstates,
            dep.len() == self.nstates,
            prev[0] != u32::MAX,
            dep[0] == 0,
            forall|p: nat, a: nat| p < self.nstates && a < self.alpha && prev[p as int] != u32::MAX
                ==> prev[#[trigger] self.step(p, a) as int] != u32::MAX && dep[self.step(p, a) as int] <= dep[p as int] + 1,
            word_over(w, self.alpha as nat),
        ensures
            prev[self.run_from(0, w) as int] != u32::MAX,
            dep[self.run_from(0, w) as int] <= w.len(),
        decreases w.len(),
    {
        if w.len() > 0 {
            lemma_word_over_sub(w, self.alpha as nat);
            self.lemma_bfs_dist(prev, dep, w.drop_last());
            lemma_trun(self.trans@, self.nstates as nat, self.alpha as nat, 0, w.drop_last());
            let p = self.run_from(0, w.drop_last());
            assert(self.run_from(0, w) == self.step(p, w.last() as nat));
        }
    }

    /// The breadth-first tree from the start state: for each state its parent
    /// (`u32::MAX` when unreachable) and the letter leading from the parent.
    #[verifier::rlimit(100)]
    pub fn bfs_tree(&self) -> (r: (Vec<u32>, Vec<u32>))
        requires
            self.wf(),
        ensures
            exists|dep: Seq<nat>| #[trigger] tree_ok(self, r.0@, r.1@, dep) && bfs_dist(self, r.0@, dep),
            forall|t: nat| t < self.nstates ==> (r.0@[t as int] != u32::MAX <==> #[trigger] self.reachable(t)),
    {
        let n = self.nstates;
        let mut prev: Vec<u32> = Vec::new();
        let mut psym: Vec<u32> = Vec::new();
        let mut i: usize = 0;
        while i < n
            invariant
                i <= n,
                prev.len() == i,
                psym.len() == i,
                forall|j: int| 0 <= j < i ==> #[trigger] prev@[j] == u32::MAX,
            decreases n - i,
        {
            prev.push(u32::MAX);
            psym.push(0);
            i = i + 1;
        }
        prev.set(0, 0);
        let mut queue: Vec<usize> = Vec::new();
        queue.push(0);
        let ghost mut dep: Seq<nat> = Seq::new(n as nat, |j: int| 0nat);
        let ghost mut wit: Map<int, Seq<usize>> = Map::empty().insert(0int, Seq::<usize>::empty());
        let ghost mut sset: Set<int> = Set::empty().insert(0int);
        let ghost range = vstd::set_lib::set_int_range(0, n as int);
        proof {
            vstd::set_lib::lemma_int_range(0, n as int);
            assert(sset.len() == 1);
            assert(queue@[0] == 0);
            assert forall|t: int| 0 <= t < n && #[trigger] prev@[t] != u32::MAX implies exists|j: int| 0 <= j < queue.len() && queue@[j] == t by {
                assert(t == 0);
                assert(queue@[0] == t);
            }
        }
        let mut head: usize = 0;
        while head < queue.len()
            invariant
                self.wf(),
                n == self.nstates,
                prev.len() == n,
                psym.len() == n,
                tree_ok(self, prev@, psym@, dep),
                forall|t: int| 0 <= t < n ==> (#[trigger] prev@[t] != u32::MAX <==> sset.contains(t)),
                sset.finite(),
                sset.subset_of(range),
                range == vstd::set_lib::set_int_range(0, n as int),
                range.finite(),
                range.len() == n,
                queue.len() == sset.len(),
                head <= queue.len(),
                forall|j: int| 0 <= j < queue.len() ==> (#[trigger] queue@[j]) < n && prev@[queue@[j] as int] != u32::MAX,
                forall|t: int| 0 <= t < n && #[trigger] prev@[t] != u32::MAX ==> exists|j: int| 0 <= j < queue.len() && queue@[j] == t,
                forall|j: int, a: nat| 0 <= j < head && a < self.alpha ==> prev@[#[trigger] self.step(queue@[j] as nat, a) as int]
                    != u32::MAX && dep[self.step(queue@[j] as nat, a) as int] <= dep[queue@[j] as int] + 1,
                forall|j1: int, j2: int| 0 <= j1 <= j2 < queue.len() ==> dep[#[trigger] queue@[j1] as int] <= dep[#[trigger] queue@[j2] as int],
                head < queue.len() ==> forall|j: int| head <= j < queue.len() ==> dep[#[trigger] queue@[j] as int] <= dep[queue@[head as int] as int] + 1,
                forall|t: int| 0 <= t < n && #[trigger] prev@[t] != u32::MAX ==> wit.dom().contains(t)
                    && word_over(wit[t], self.alpha as nat) && self.run_from(0, wit[t]) == t,
            decreases n - head,
        {
            proof {
                vstd::set_lib::lemma_len_subset(sset, range);
            }
            let s = queue[head];
            let ghost ds = dep[s as int];
            let ghost qlen0 = queue.len();
            let mut a: usize = 0;
            while a < self.alpha
                invariant
                    self.wf(),
                    n == self.nstates,
                    prev.len() == n,
                    psym.len() == n,
                    tree_ok(self, prev@, psym@, dep),
                    forall|t: int| 0 <= t < n ==> (#[trigger] prev@[t] != u32::MAX <==> sset.contains(t)),
                    sset.finite(),
                    sset.subset_of(range),
                    range == vstd::set_lib::set_int_range(0, n as int),
                    range.finite(),
                    range.len() == n,
                    queue.len() == sset.len(),
                    head < queue.len(),
                    qlen0 <= queue.len(),
                    s == queue@[head as int],
                    s < n,
                    prev@[s as int] != u32::MAX,
                    ds == dep[s as int],
                    a <= self.alpha,
                    forall|j: int| 0 <= j < queue.len() ==> (#[trigger] queue@[j]) < n && prev@[queue@[j] as int] != u32::MAX,
                    forall|t: int| 0 <= t < n && #[trigger] prev@[t] != u32::MAX ==> exists|j: int| 0 <= j < queue.len() && queue@[j] == t,
                    forall|j: int, b: nat| 0 <= j < head && b < self.alpha ==> prev@[#[trigger] self.step(queue@[j] as nat, b) as int]
                        != u32::MAX && dep[self.step(queue@[j] as nat, b) as int] <= dep[queue@[j] as int] + 1,
                    forall|b: nat| b < a ==> prev@[#[trigger] self.step(s as nat, b) as int] != u32::MAX
                        && dep[self.step(s as nat, b) as int] <= ds + 1,
                    forall|j1: int, j2: int| 0 <= j1 <= j2 < queue.len() ==> dep[#[trigger] queue@[j1] as int] <= dep[#[trigger] queue@[j2] as int],
                    forall|j: int| head <= j < queue.len() ==> dep[#[trigger] queue@[j] as int] <= ds + 1,
                    forall|t: int| 0 <= t < n && #[trigger] prev@[t] != u32::MAX ==> wit.dom().contains(t)
                        && word_over(wit[t], self.alpha as nat) && self.run_from(0, wit[t]) == t,
                decreases self.alpha - a,
            {
                proof {
                    vstd::set_lib::lemma_len_subset(sset, range);
                }
                let d = self.t(s, a);
                if prev[d] == u32::MAX {
                    proof {
                        assert(d != 0) by {
                            assert(prev@[0] == 0);
                        }
                        assert(!sset.contains(d as int));
                        assert(sset.insert(d as int).subset_of(range));
                        vstd::set_lib::lemma_len_subset(sset.insert(d as int), range);
                    }
                    let ghost pre_prev = prev@;
                    let ghost pre_psym = psym@;
                    let ghost pre_dep = dep;
                    let ghost pre_queue = queue@;
                    prev.set(d, s as u32);
                    psym.set(d, a as u32);
                    queue.push(d);
                    proof {
                        self.lemma_steps();
                        dep = dep.update(d as int, ds + 1);
                        let ws = wit[s as int];
                        wit = wit.insert(d as int, ws.push(a));
                        sset = sset.insert(d as int);
                        assert(ws.push(a).drop_last() =~= ws);
                        assert(word_over(ws.push(a), self.alpha as nat));
                        assert(self.run_from(0, ws.push(a)) == d);
                        assert forall|t: int| 0 < t < self.nstates && #[trigger] prev@[t] != u32::MAX implies {
                            &&& (prev@[t] as int) < self.nstates
                            &&& prev@[prev@[t] as int] != u32::MAX
                            &&& (psym@[t] as int) < self.alpha
                            &&& self.step(prev@[t] as nat, psym@[t] as nat) == t
                            &&& dep[t] == dep[prev@[t] as int] + 1
                        } by {
                            if t != d as int {
                                assert(pre_prev[t] != u32::MAX);
                                assert(pre_prev[t] as int != d as int);
                            }
                        }
                        assert(tree_ok(self, prev@, psym@, dep));
                        assert forall|t: int| 0 <= t < n && #[trigger] prev@[t] != u32::MAX implies exists|j: int| 0 <= j < queue.len() && queue@[j] == t by {
                            if t == d as int {
                                assert(queue@[pre_queue.len() as int] == d);
                            } else {
                                assert(pre_prev[t] != u32::MAX);
                                let j = choose|j: int| 0 <= j < pre_queue.len() && pre_queue[j] == t;
                                assert(queue@[j] == t);
                            }
                        }
                        assert forall|j1: int, j2: int| 0 <= j1 <= j2 < queue.len() implies dep[#[trigger] queue@[j1] as int] <= dep[#[trigger] queue@[j2] as int] by {
                            if j2 < pre_queue.len() {
                                assert(queue@[j1] != d);
                                assert(queue@[j2] != d);
                                assert(pre_dep[pre_queue[j1] as int] <= pre_dep[pre_queue[j2] as int]);
                            } else if j1 < pre_queue.len() {
                                assert(queue@[j1] != d);
                                if j1 < head {
                                    assert(pre_dep[pre_queue[j1] as int] <= pre_dep[pre_queue[head as int] as int]);
                                } else {
                                    assert(pre_dep[pre_queue[j1] as int] <= ds + 1);
                                }
                            }
                        }
                        assert forall|j: int, b: nat| 0 <= j < head && b < self.alpha implies prev@[#[trigger] self.step(queue@[j] as nat, b) as int]
                            != u32::MAX && dep[self.step(queue@[j] as nat, b) as int] <= dep[queue@[j] as int] + 1 by {
                            assert(queue@[j] == pre_queue[j]);
                            assert(pre_prev[self.step(pre_queue[j] as nat, b) as int] != u32::MAX);
                            assert(self.step(pre_queue[j] as nat, b) != d as nat);
                            assert(pre_queue[j] != d);
                        }
                        assert forall|b: nat| b < a + 1 implies prev@[#[trigger] self.step(s as nat, b) as int] != u32::MAX
                            && dep[self.step(s as nat, b) as int] <= ds + 1 by {
                            if b < a {
                                assert(pre_prev[self.step(s as nat, b) as int] != u32::MAX);
                                assert(self.step(s as nat, b) != d as nat);
                            }
                        }
                        assert forall|j: int| head <= j < queue.len() implies dep[#[trigger] queue@[j] as int] <= ds + 1 by {
                            if j < pre_queue.len() {
                                assert(queue@[j] != d);
                            }
                        }
                        assert forall|j: int| 0 <= j < queue.len() implies (#[trigger] queue@[j]) < n && prev@[queue@[j] as int] != u32::MAX by {
                            if j < pre_queue.len() {
                                assert(pre_prev[pre_queue[j] as int] != u32::MAX);
                            }
                        }
                    }
                } else {
                    proof {
                        assert(sset.contains(d as int));
                        let j = choose|j: int| 0 <= j < queue.len() && queue@[j] == d;
                        if j < head {
                            assert(dep[queue@[j] as int] <= dep[queue@[head as int] as int]);
                        }
                    }
                }
                a = a + 1;
            }
            proof {
                if head + 1 < queue.len() {
                    assert forall|j: int| head + 1 <= j < queue.len() implies dep[#[trigger] queue@[j] as int]
                        <= dep[queue@[head + 1] as int] + 1 by {
                        assert(dep[queue@[head as int] as int] <= dep[queue@[head + 1] as int]);
                    }
                }
                assert forall|j: int, b: nat| 0 <= j < head + 1 && b < self.alpha implies prev@[#[trigger] self.step(queue@[j] as nat, b) as int]
                    != u32::MAX && dep[self.step(queue@[j] as nat, b) as int] <= dep[queue@[j] as int] + 1 by {
                    if j == head {
                        assert(prev@[self.step(s as nat, b) as int] != u32::MAX);
                    }
                }
            }
            head = head + 1;
        }
        proof {
            assert forall|p: nat, a: nat| p < self.nstates && a < self.alpha && prev@[p as int] != u32::MAX
                implies prev@[#[trigger] self.step(p, a) as int] != u32::MAX && dep[self.step(p, a) as int] <= dep[p as int] + 1 by {
                let j = choose|j: int| 0 <= j < queue.len() && queue@[j] == p;
                assert(prev@[self.step(queue@[j] as nat, a) as int] != u32::MAX);
            }
            assert forall|w: Seq<usize>| word_over(w, self.alpha as nat) implies prev@[#[trigger] self.run_from(0, w) as int] != u32::MAX
                && dep[self.run_from(0, w) as int] <= w.len() by {
                self.lemma_bfs_dist(prev@, dep, w);
            }
            assert(bfs_dist(self, prev@, dep));
            assert(tree_ok(self, prev@, psym@, dep));
            assert(exists|dep2: Seq<nat>| #[trigger] tree_ok(self, prev@, psym@, dep2) && bfs_dist(self, prev@, dep2));
            assert forall|t: nat| t < self.nstates implies (prev@[t as int] != u32::MAX <==> #[trigger] self.reachable(t)) by {
                if prev@[t as int] != u32::MAX {
                    assert(self.run_from(0, wit[t as int]) == t);
                }
                if self.reachable(t) {
                    let w = choose|w: Seq<usize>| word_over(w, self.alpha as nat) && #[trigger] self.run_from(0, w) == t;
                    self.lemma_bfs_dist(prev@, dep, w);
                }
            }
        }
        let ghost p0 = prev@;
        let ghost p1 = psym@;
        let r = (prev, psym);
        proof {
            assert(r.0@ == p0);
            assert(r.1@ == p1);
            assert(tree_ok(self, r.0@, r.1@, dep) && bfs_dist(self, r.0@, dep));
        }
        r
    }

    /// The word spelled by the tree path from the start state to `s`, or
    /// `None` when `s` is not in the tree.
    pub fn word_to(&self, prev: &[u32], psym: &[u32], s: usize) -> (r: Option<Vec<usize>>)
        requires
            self.wf(),
            s < self.nstates,
            exists|dep: Seq<nat>| #[trigger] tree_ok(self, prev@, psym@, dep),
        ensures
            r is None <==> prev@[s as int] == u32::MAX,
            r matches Some(w) ==> word_over(w@, self.alpha as nat) && self.run_from(0, w@) == s,
            r matches Some(w) ==> forall|dep: Seq<nat>| #[trigger] tree_ok(self, prev@, psym@, dep) ==> w@.len() == dep[s as int],
    {
        if prev[s] == u32::MAX {
            return None;
        }
        let ghost dep0 = choose|dep: Seq<nat>| #[trigger] tree_ok(self, prev@, psym@, dep);
        let mut rev: Vec<usize> = Vec::new();
        let mut t: usize = s;
        while t != 0
            invariant
                self.wf(),
                tree_ok(self, prev@, psym@, dep0),
                t < self.nstates,
                prev@[t as int] != u32::MAX,
                word_over(rev@, self.alpha as nat),
                self.run_from(t as nat, rev@.reverse()) == s,
                forall|dep: Seq<nat>| #[trigger] tree_ok(self, prev@, psym@, dep) ==> dep[t as int] + rev@.len() == dep[s as int],
            decreases dep0[t as int],
        {
            let p = prev[t] as usize;
            let a = psym[t] as usize;
            let ghost pre = rev@;
            rev.push(a);
            proof {
                assert(rev@.reverse() =~= seq![a] + pre.reverse());
                crate::dfa::lemma_trun_concat(self.trans@, self.alpha as nat, p as nat, seq![a], pre.reverse());
                assert(seq![a].drop_last() =~= Seq::<usize>::empty());
                assert(seq![a].last() == a);
                assert(self.run_from(p as nat, Seq::<usize>::empty()) == p);
                assert(self.run_from(p as nat, seq![a]) == self.step(self.run_from(p as nat, Seq::<usize>::empty()), a as nat));
                assert(self.run_from(p as nat, seq![a]) == self.step(p as nat, a as nat));
                assert forall|dep: Seq<nat>| #[trigger] tree_ok(self, prev@, psym@, dep) implies dep[p as int] + rev@.len() == dep[s as int] by {
                    assert(dep[t as int] == dep[p as int] + 1);
                }
            }
            t = p;
        }
        let mut w: Vec<usize> = Vec::new();
        let mut i: usize = rev.len();
        while i > 0
            invariant
                i <= rev.len(),
                w@ == rev@.reverse().take((rev.len() - i) as int),
            decreases i,
        {
            i = i - 1;
            w.push(rev[i]);
            proof {
                assert(w@ =~= rev@.reverse().take((rev.len() - i) as int));
            }
        }
        proof {
            assert(rev@.reverse().take(rev.len() as int) =~= rev@.reverse());
            assert(word_over(w@, self.alpha as nat));
        }
        Some(w)
    }

    /// A shortest accepted word, or `None` if the language is empty.
    pub fn shortest_word(&self) -> (r: Option<Vec<usize>>)
        requires
            self.wf(),
        ensures
            r is None <==> !self.nonempty_lang(),
            r matches Some(w) ==> word_over(w@, self.alpha as nat) && self.accepts(w@),
            r matches Some(w) ==> forall|v: Seq<usize>| word_over(v, self.alpha as nat) && #[trigger] self.accepts(v) ==> w@.len() <= v.len(),
    {
        let (prev, psym) = self.bfs_tree();
        let ghost dep = choose|dep: Seq<nat>| #[trigger] tree_ok(self, prev@, psym@, dep) && bfs_dist(self, prev@, dep);
        let mut best: Option<Vec<usize>> = None;
        let mut s: usize = 0;
        while s < self.nstates
            invariant
                self.wf(),
                tree_ok(self, prev@, psym@, dep),
                bfs_dist(self, prev@, dep),
                s <= self.nstates,
                best matches Some(b) ==> word_over(b@, self.alpha as nat) && self.accepts(b@),
                best matches Some(b) ==> forall|t: int| 0 <= t < s && self.accept@[t] && prev@[t] != u32::MAX ==> b@.len() <= #[trigger] dep[t],
                best is None ==> forall|t: int| 0 <= t < s ==> !(self.accept@[t] && #[trigger] prev@[t] != u32::MAX),
            decreases self.nstates - s,
        {
            if self.accept[s] && prev[s] != u32::MAX {
                let w = match self.word_to(prev.as_slice(), psym.as_slice(), s) {
                    Some(w) => w,
                    None => {
                        return None;
                    },
                };
                let better = match &best {
                    Some(b) => w.len() < b.len(),
                    None => true,
                };
                if better {
                    best = Some(w);
                }
            }
            s = s + 1;
        }
        proof {
            if self.nonempty_lang() {
                let v = choose|v: Seq<usize>| word_over(v, self.alpha as nat) && #[trigger] self.accepts(v);
                lemma_trun(self.trans@, self.nstates as nat, self.alpha as nat, 0, v);
                assert(prev@[self.run_from(0, v) as int] != u32::MAX);
            }
            if best is Some {
                let b = best->Some_0;
                assert forall|v: Seq<usize>| word_over(v, self.alpha as nat) && #[trigger] self.accepts(v) implies b@.len() <= v.len() by {
                    lemma_trun(self.trans@, self.nstates as nat, self.alpha as nat, 0, v);
                    let t = self.run_from(0, v);
                    assert(prev@[t as int] != u32::MAX);
                    assert(dep[t as int] <= v.len());
                }
            }
        }
        best
    }
}
} // verus!
