//! Is the language of an automaton finite? A regular language is infinite exactly
//! when a state that is both reachable and co-reachable lies on a cycle.
use vstd::prelude::*;
use crate::dfa::{Dfa, word_over, lemma_trun, lemma_trun_concat, lemma_word_over_sub};
use crate::ostrowski::{ntrue, lemma_ntrue, lemma_ntrue_bound};

verus! {

proof fn lemma_ntrue_push(v: Seq<bool>, b: bool)
    ensures
        ntrue(v.push(b)) == ntrue(v) + if b { 1nat } else { 0nat },
{
    assert(v.push(b).drop_last() =~= v);
}

/// The three answers about the size of a language.
#[derive(Clone, Copy, Debug, PartialEq, Eq)]
pub enum Finiteness {
    Empty,
    Finite,
    Infinite,
}

impl Dfa {
    /// Some word leads from `s` to an accepting state.
    pub open spec fn useful(&self, s: nat) -> bool {
        exists|w: Seq<usize>| word_over(w, self.alpha as nat) && self.accept@[#[trigger] self.run_from(s, w) as int]
    }

    /// Reachable from the start and able to reach acceptance.
    pub open spec fn live(&self, s: nat) -> bool {
        self.reachable(s) && self.useful(s)
    }

    /// Some accepted word has length at least `m`.
    pub open spec fn long_word(&self, m: nat) -> bool {
        exists|w: Seq<usize>| word_over(w, self.alpha as nat) && #[trigger] self.accepts(w) && w.len() >= m
    }

    /// Accepted words of every length: for each `m` one of length at least `m`.
    pub open spec fn unbounded(&self) -> bool {
        forall|m: nat| #[trigger] self.long_word(m)
    }

    /// Reading the letter `x` and then `w` from `s` is reading `w` from `s`'s successor.
    pub proof fn lemma_prepend(&self, s: nat, x: nat, w: Seq<usize>)
        requires
            self.wf(),
            x < self.alpha,
            word_over(w, self.alpha as nat),
        ensures
            word_over(seq![x as usize] + w, self.alpha as nat),
            self.run_from(s, seq![x as usize] + w) == self.run_from(self.step(s, x), w),
    {
        let u = seq![x as usize];
        assert(u.drop_last() =~= Seq::<usize>::empty());
        assert(u.last() == x as usize);
        assert(self.run_from(s, u.drop_last()) == s);
        assert(self.run_from(s, u) == self.step(s, x));
        lemma_trun_concat(self.trans@, self.alpha as nat, s, u, w);
        let w2 = u + w;
        assert forall|i: int| 0 <= i < w2.len() implies (#[trigger] w2[i] as nat) < self.alpha as nat by {
            if i > 0 {
                assert(w2[i] == w[i - 1]);
            }
        }
    }

    /// A set containing the accepting states and closed under predecessors
    /// contains every state from which a word reaches acceptance.
    proof fn lemma_back_closed(&self, u: Seq<bool>, s: nat, w: Seq<usize>)
        requires
            self.wf(),
            u.len() == self.nstates,
            s < self.nstates,
            word_over(w, self.alpha as nat),
            forall|q: nat, x: nat| q < self.nstates && x < self.alpha && u[#[trigger] self.step(q, x) as int] ==> u[q as int],
            u[self.run_from(s, w) as int],
        ensures
            u[s as int],
        decreases w.len(),
    {
        if w.len() > 0 {
            lemma_word_over_sub(w, self.alpha as nat);
            lemma_trun(self.trans@, self.nstates as nat, self.alpha as nat, s, w.drop_last());
            let q = self.run_from(s, w.drop_last());
            assert(w.last() == w[w.len() - 1]);
            assert(self.run_from(s, w) == self.step(q, w.last() as nat));
            assert(u[q as int]);
            self.lemma_back_closed(u, s, w.drop_last());
        }
    }
}

/// For each state, whether some word leads from it to acceptance.
pub fn useful_states(a: &Dfa) -> (r: Vec<bool>)
    requires
        a.wf(),
    ensures
        r.len() == a.nstates,
        forall|s: nat| s < a.nstates ==> (r@[s as int] <==> #[trigger] a.useful(s)),
{
    let n = a.nstates;
    let alpha = a.alpha;
    let mut u: Vec<bool> = Vec::new();
    let mut cnt: usize = 0;
    let mut j: usize = 0;
    while j < n
        invariant
            a.wf(),
            n == a.nstates,
            j <= n,
            u.len() == j,
            cnt <= j,
            ntrue(u@) == cnt,
            forall|x: int| 0 <= x < j ==> u@[x] == a.accept@[x],
        decreases n - j,
    {
        let b = a.accept[j];
        proof {
            lemma_ntrue_push(u@, b);
        }
        u.push(b);
        if b {
            cnt = cnt + 1;
        }
        j = j + 1;
    }
    proof {
        assert forall|s: nat| s < n && u@[s as int] implies #[trigger] a.useful(s) by {
            let w = Seq::<usize>::empty();
            assert(a.run_from(s, w) == s);
        }
    }
    loop
        invariant
            a.wf(),
            n == a.nstates,
            alpha == a.alpha,
            u.len() == n,
            ntrue(u@) == cnt,
            cnt <= n,
            forall|s: nat| s < n && u@[s as int] ==> #[trigger] a.useful(s),
            forall|s: nat| s < n && a.accept@[s as int] ==> u@[s as int],
        ensures
            u.len() == n,
            forall|s: nat| s < n && u@[s as int] ==> #[trigger] a.useful(s),
            forall|s: nat| s < n && a.accept@[s as int] ==> u@[s as int],
            forall|q: nat, x: nat| q < n && x < alpha && u@[#[trigger] a.step(q, x) as int] ==> u@[q as int],
        decreases n - cnt,
    {
        let ghost u0 = u@;
        let ghost cnt0 = cnt;
        let mut changed = false;
        let mut s: usize = 0;
        while s < n
            invariant
                a.wf(),
                n == a.nstates,
                alpha == a.alpha,
                u.len() == n,
                s <= n,
                ntrue(u@) == cnt,
                cnt <= n,
                cnt0 <= cnt,
                changed ==> cnt0 < cnt,
                !changed ==> u@ == u0,
                !changed ==> forall|q: nat, x: nat| q < s && x < alpha && u0[#[trigger] a.step(q, x) as int] ==> u0[q as int],
                forall|q: nat| q < n && u@[q as int] ==> #[trigger] a.useful(q),
                forall|q: nat| q < n && a.accept@[q as int] ==> u@[q as int],
            decreases n - s,
        {
            if !u[s] {
                let mut x: usize = 0;
                let mut found = false;
                while x < alpha
                    invariant
                        a.wf(),
                        n == a.nstates,
                        alpha == a.alpha,
                        u.len() == n,
                        s < n,
                        x <= alpha,
                        !found ==> forall|y: nat| y < x ==> !u@[#[trigger] a.step(s as nat, y) as int],
                        found ==> x < alpha && u@[a.step(s as nat, x as nat) as int],
                    ensures
                        !found ==> x == alpha && forall|y: nat| y < alpha ==> !u@[#[trigger] a.step(s as nat, y) as int],
                        found ==> x < alpha && u@[a.step(s as nat, x as nat) as int],
                    decreases alpha - x,
                {
                    if u[a.t(s, x)] {
                        found = true;
                        break;
                    }
                    x = x + 1;
                }
                if found {
                    proof {
                        a.lemma_steps();
                        let t = a.step(s as nat, x as nat);
                        assert(a.useful(t));
                        let w = choose|w: Seq<usize>| word_over(w, a.alpha as nat) && a.accept@[#[trigger] a.run_from(t, w) as int];
                        a.lemma_prepend(s as nat, x as nat, w);
                        assert(a.accept@[a.run_from(s as nat, seq![x as usize] + w) as int]);
                        lemma_ntrue(u@, s as int);
                        lemma_ntrue_bound(u@.update(s as int, true));
                    }
                    u.set(s, true);
                    cnt = cnt + 1;
                    changed = true;
                } else {
                    proof {
                        assert(x == alpha);
                        if !changed {
                            assert forall|y: nat| y < alpha implies !u0[#[trigger] a.step(s as nat, y) as int] by {
                                assert(!u@[a.step(s as nat, y) as int]);
                            }
                        }
                    }
                }
            }
            proof {
                if !changed {
                    assert forall|q: nat, y: nat| q < s + 1 && y < alpha && u0[#[trigger] a.step(q, y) as int] implies u0[q as int] by {
                        if q == s && !u0[q as int] {
                            assert(!u0[a.step(s as nat, y) as int]);
                        }
                    }
                }
            }
            s = s + 1;
        }
        if !changed {
            break;
        }
    }
    proof {
        assert forall|s: nat| s < n implies (u@[s as int] <==> #[trigger] a.useful(s)) by {
            if a.useful(s) {
                let w = choose|w: Seq<usize>| word_over(w, a.alpha as nat) && a.accept@[#[trigger] a.run_from(s, w) as int];
                lemma_trun(a.trans@, n as nat, alpha as nat, s, w);
                a.lemma_back_closed(u@, s, w);
            }
        }
    }
    u
}

/// `live` marks the live states, and `inp` the peeled ones: a peeled state's live
/// successors are peeled with a smaller rank, and ranks lie in `1..=n`.
pub open spec fn peeled(a: &Dfa, live: Seq<bool>, inp: Seq<bool>, rank: Seq<u64>) -> bool {
    &&& live.len() == a.nstates
    &&& inp.len() == a.nstates
    &&& rank.len() == a.nstates
    &&& forall|s: nat| s < a.nstates ==> (live[s as int] <==> #[trigger] a.live(s))
    &&& forall|s: nat| s < a.nstates && #[trigger] inp[s as int] ==> live[s as int] && 1 <= rank[s as int] <= a.nstates
    &&& forall|s: nat, x: nat| s < a.nstates && x < a.alpha && inp[s as int] && live[#[trigger] a.step(s, x) as int]
        ==> inp[a.step(s, x) as int] && rank[a.step(s, x) as int] < rank[s as int]
}

/// Every live state left unpeeled has a live unpeeled successor.
pub open spec fn stuck(a: &Dfa, live: Seq<bool>, inp: Seq<bool>) -> bool {
    forall|s: nat| s < a.nstates && live[s as int] && !inp[s as int]
        ==> exists|x: nat| x < a.alpha && live[#[trigger] a.step(s, x) as int] && !inp[a.step(s, x) as int]
}

/// From a live unpeeled state, a word of any length stays among live unpeeled states.
proof fn lemma_walk(a: &Dfa, live: Seq<bool>, inp: Seq<bool>, s: nat, m: nat) -> (u: Seq<usize>)
    requires
        a.wf(),
        live.len() == a.nstates,
        inp.len() == a.nstates,
        stuck(a, live, inp),
        s < a.nstates,
        live[s as int] && !inp[s as int],
    ensures
        word_over(u, a.alpha as nat),
        u.len() == m,
        a.run_from(s, u) < a.nstates,
        live[a.run_from(s, u) as int] && !inp[a.run_from(s, u) as int],
    decreases m,
{
    if m == 0 {
        let u = Seq::<usize>::empty();
        assert(a.run_from(s, u) == s);
        u
    } else {
        let u0 = lemma_walk(a, live, inp, s, (m - 1) as nat);
        let t = a.run_from(s, u0);
        let x = choose|x: nat| x < a.alpha && live[#[trigger] a.step(t, x) as int] && !inp[a.step(t, x) as int];
        let u = u0.push(x as usize);
        assert(u.drop_last() =~= u0);
        assert(u.last() == x as usize);
        assert(a.run_from(s, u) == a.step(t, x));
        a.lemma_steps();
        assert forall|i: int| 0 <= i < u.len() implies (#[trigger] u[i] as nat) < a.alpha as nat by {
            if i < u0.len() {
                assert(u[i] == u0[i]);
            }
        }
        u
    }
}

/// Along an accepted word every state is live, so peeled when nothing live is left
/// unpeeled, and the ranks fall by at least one per letter.
proof fn lemma_rank_down(a: &Dfa, live: Seq<bool>, inp: Seq<bool>, rank: Seq<u64>, w: Seq<usize>, i: nat)
    requires
        a.wf(),
        peeled(a, live, inp, rank),
        forall|s: nat| s < a.nstates && live[s as int] ==> inp[s as int],
        word_over(w, a.alpha as nat),
        a.accepts(w),
        i <= w.len(),
    ensures
        a.run_from(0, w.take(i as int)) < a.nstates,
        live[a.run_from(0, w.take(i as int)) as int],
        rank[a.run_from(0, w.take(i as int)) as int] + i >= w.len() + 1,
    decreases w.len() - i,
{
    let p = w.take(i as int);
    let q = a.run_from(0, p);
    assert forall|j: int| 0 <= j < p.len() implies (#[trigger] p[j] as nat) < a.alpha as nat by {
        assert(p[j] == w[j]);
    }
    lemma_trun(a.trans@, a.nstates as nat, a.alpha as nat, 0, p);
    let v = w.skip(i as int);
    assert forall|j: int| 0 <= j < v.len() implies (#[trigger] v[j] as nat) < a.alpha as nat by {
        assert(v[j] == w[j + i]);
    }
    lemma_trun_concat(a.trans@, a.alpha as nat, 0, p, v);
    assert(p + v =~= w);
    assert(a.run_from(q, v) == a.run_from(0, w));
    assert(word_over(v, a.alpha as nat));
    assert(a.useful(q));
    assert(a.reachable(q));
    assert(a.live(q));
    assert(inp[q as int]);
    if i < w.len() {
        lemma_rank_down(a, live, inp, rank, w, i + 1);
        let p1 = w.take((i + 1) as int);
        assert(p1.drop_last() =~= p);
        assert(p1.last() == w[i as int]);
        assert(a.run_from(0, p1) == a.step(q, w[i as int] as nat));
        let q1 = a.step(q, w[i as int] as nat);
        assert(live[q1 as int]);
    }
}

/// Whether the language is empty, finite or infinite. A finite language has only
/// words shorter than the number of states.
pub fn finiteness(a: &Dfa) -> (r: Finiteness)
    requires
        a.wf(),
    ensures
        (r is Empty) <==> !a.nonempty_lang(),
        (r is Infinite) <==> a.unbounded(),
        !(r is Infinite) ==> forall|w: Seq<usize>| word_over(w, a.alpha as nat) && #[trigger] a.accepts(w) ==> w.len() < a.nstates,
{
    let n = a.nstates;
    let alpha = a.alpha;
    let useful = useful_states(a);
    let (prev, _psym) = a.bfs_tree();
    let mut live: Vec<bool> = Vec::new();
    let mut j: usize = 0;
    while j < n
        invariant
            a.wf(),
            n == a.nstates,
            prev.len() == n,
            useful.len() == n,
            forall|t: nat| t < n ==> (prev@[t as int] != u32::MAX <==> #[trigger] a.reachable(t)),
            forall|t: nat| t < n ==> (useful@[t as int] <==> #[trigger] a.useful(t)),
            j <= n,
            live.len() == j,
            forall|t: nat| t < j ==> (live@[t as int] <==> #[trigger] a.live(t)),
        decreases n - j,
    {
        live.push(prev[j] != u32::MAX && useful[j]);
        proof {
            assert(a.reachable(j as nat) == (prev@[j as int] != u32::MAX));
            assert(a.useful(j as nat) == useful@[j as int]);
        }
        j = j + 1;
    }
    if !useful[0] {
        proof {
            if a.nonempty_lang() {
                let w = choose|w: Seq<usize>| word_over(w, a.alpha as nat) && #[trigger] a.accepts(w);
                assert(a.useful(0));
            }
            if a.unbounded() {
                assert(a.long_word(0));
                let w = choose|w: Seq<usize>| word_over(w, a.alpha as nat) && #[trigger] a.accepts(w) && w.len() >= 0;
                assert(a.useful(0));
            }
        }
        return Finiteness::Empty;
    }
    let mut inp: Vec<bool> = Vec::new();
    let mut rank: Vec<u64> = Vec::new();
    let mut j: usize = 0;
    while j < n
        invariant
            j <= n,
            inp.len() == j,
            rank.len() == j,
            forall|t: int| 0 <= t < j ==> !#[trigger] inp@[t],
            ntrue(inp@) == 0,
        decreases n - j,
    {
        proof {
            lemma_ntrue_push(inp@, false);
        }
        inp.push(false);
        rank.push(0);
        j = j + 1;
    }
    let mut cnt: usize = 0;
    let mut round: u64 = 1;
    loop
        invariant
            a.wf(),
            n == a.nstates,
            alpha == a.alpha,
            peeled(a, live@, inp@, rank@),
            ntrue(inp@) == cnt,
            cnt <= n,
            1 <= round <= cnt + 1,
            forall|s: nat| s < n && #[trigger] inp@[s as int] ==> rank@[s as int] < round,
        ensures
            peeled(a, live@, inp@, rank@),
            stuck(a, live@, inp@),
        decreases n - cnt,
    {
        let ghost inp0 = inp@;
        let ghost rank0 = rank@;
        let ghost cnt0 = cnt;
        let mut changed = false;
        let mut s: usize = 0;
        while s < n
            invariant
                a.wf(),
                n == a.nstates,
                alpha == a.alpha,
                peeled(a, live@, inp@, rank@),
                ntrue(inp@) == cnt,
                cnt <= n,
                cnt0 <= cnt,
                1 <= round <= cnt0 + 1,
                s <= n,
                inp0.len() == n,
                rank0.len() == n,
                forall|t: nat| t < n && #[trigger] inp0[t as int] ==> inp@[t as int] && rank@[t as int] == rank0[t as int] && rank0[t as int] < round,
                forall|t: nat| t < n && #[trigger] inp@[t as int] ==> rank@[t as int] <= round,
                changed ==> cnt0 < cnt,
                !changed ==> inp@ == inp0,
                !changed ==> forall|t: nat| t < s && live@[t as int] && !inp0[t as int]
                    ==> exists|x: nat| x < alpha && live@[#[trigger] a.step(t, x) as int] && !inp0[a.step(t, x) as int],
            decreases n - s,
        {
            if live[s] && !inp[s] {
                let mut x: usize = 0;
                let mut ok = true;
                while x < alpha
                    invariant_except_break
                        ok,
                    invariant
                        a.wf(),
                        n == a.nstates,
                        alpha == a.alpha,
                        live.len() == n,
                        inp.len() == n,
                        rank.len() == n,
                        s < n,
                        x <= alpha,
                        forall|y: nat| y < x ==> (live@[#[trigger] a.step(s as nat, y) as int]
                            ==> inp@[a.step(s as nat, y) as int] && rank@[a.step(s as nat, y) as int] < round),
                    ensures
                        ok ==> x == alpha,
                        forall|y: nat| y < x ==> (live@[#[trigger] a.step(s as nat, y) as int]
                            ==> inp@[a.step(s as nat, y) as int] && rank@[a.step(s as nat, y) as int] < round),
                        !ok ==> x < alpha && live@[a.step(s as nat, x as nat) as int]
                            && !(inp@[a.step(s as nat, x as nat) as int] && rank@[a.step(s as nat, x as nat) as int] < round),
                    decreases alpha - x,
                {
                    let t = a.t(s, x);
                    if live[t] && !(inp[t] && rank[t] < round) {
                        ok = false;
                        break;
                    }
                    x = x + 1;
                }
                if ok {
                    proof {
                        lemma_ntrue(inp@, s as int);
                        lemma_ntrue_bound(inp@.update(s as int, true));
                        a.lemma_steps();
                    }
                    let ghost pinp = inp@;
                    let ghost prank = rank@;
                    inp.set(s, true);
                    rank.set(s, round);
                    cnt = cnt + 1;
                    changed = true;
                    proof {
                        assert(round <= n);
                        assert forall|q: nat, y: nat| q < n && y < alpha && inp@[q as int] && live@[#[trigger] a.step(q, y) as int]
                            implies inp@[a.step(q, y) as int] && rank@[a.step(q, y) as int] < rank@[q as int] by {
                            if q == s {
                                assert(live@[a.step(s as nat, y) as int]);
                            } else {
                                assert(pinp[q as int]);
                                assert(pinp[a.step(q, y) as int]);
                                assert(prank[a.step(q, y) as int] < prank[q as int]);
                            }
                        }
                    }
                } else {
                    proof {
                        a.lemma_steps();
                        if !changed {
                            let t = a.step(s as nat, x as nat);
                            assert(!inp0[t as int]);
                        }
                    }
                }
            }
            s = s + 1;
        }
        if !changed {
            proof {
                assert forall|t: nat| t < n && live@[t as int] && !inp@[t as int]
                    implies exists|x: nat| x < alpha && live@[#[trigger] a.step(t, x) as int] && !inp@[a.step(t, x) as int] by {
                }
            }
            break;
        }
        round = round + 1;
    }
    let mut j: usize = 0;
    while j < n
        invariant
            a.wf(),
            n == a.nstates,
            j <= n,
            peeled(a, live@, inp@, rank@),
            stuck(a, live@, inp@),
            forall|t: int| 0 <= t < j ==> (live@[t] ==> inp@[t]),
        decreases n - j,
    {
        if live[j] && !inp[j] {
            proof {
                assert forall|m: nat| #[trigger] a.long_word(m) by {
                    let s0 = j as nat;
                    assert(a.live(s0));
                    let p = choose|p: Seq<usize>| word_over(p, a.alpha as nat) && #[trigger] a.run_from(0, p) == s0;
                    let u = lemma_walk(a, live@, inp@, s0, m);
                    let t = a.run_from(s0, u);
                    assert(a.live(t));
                    let v = choose|v: Seq<usize>| word_over(v, a.alpha as nat) && a.accept@[#[trigger] a.run_from(t, v) as int];
                    lemma_trun_concat(a.trans@, a.alpha as nat, 0, p, u);
                    lemma_trun_concat(a.trans@, a.alpha as nat, 0, p + u, v);
                    crate::learner::lemma_word_concat(p, u, a.alpha as nat);
                    crate::learner::lemma_word_concat(p + u, v, a.alpha as nat);
                    let w = p + u + v;
                    assert(a.accepts(w));
                }
                assert(a.long_word(0));
                let w = choose|w: Seq<usize>| word_over(w, a.alpha as nat) && #[trigger] a.accepts(w) && w.len() >= 0;
                assert(a.accepts(w));
            }
            return Finiteness::Infinite;
        }
        j = j + 1;
    }
    proof {
        assert forall|w: Seq<usize>| word_over(w, a.alpha as nat) && #[trigger] a.accepts(w) implies w.len() < a.nstates by {
            lemma_rank_down(a, live@, inp@, rank@, w, 0);
            assert(w.take(0) =~= Seq::<usize>::empty());
            assert(a.run_from(0, w.take(0)) == 0);
        }
        if a.unbounded() {
            assert(a.long_word(n as nat));
        }
        assert(a.useful(0));
        let w = choose|w: Seq<usize>| word_over(w, a.alpha as nat) && a.accept@[#[trigger] a.run_from(0, w) as int];
        assert(a.accepts(w));
    }
    Finiteness::Finite
}

/// A word with no padding: empty, or with a nonzero most significant letter
/// (the first letter, or the last one when digits are read least significant first).
pub open spec fn canonical_word(w: Seq<usize>, lsd: bool) -> bool {
    w.len() == 0 || (if lsd { w.last() != 0 } else { w[0] != 0 })
}

/// The padding flag after `w`: 0 for the empty word, 1 when `w` is canonical, 2 when not.
pub open spec fn pad_flag(w: Seq<usize>, lsd: bool) -> nat {
    if w.len() == 0 { 0 } else if canonical_word(w, lsd) { 1 } else { 2 }
}

/// Flag after reading `x` in flag `f`.
pub open spec fn next_flag(f: nat, x: nat, lsd: bool) -> nat {
    if lsd || f == 0 { if x == 0 { 2 } else { 1 } } else { f }
}

proof fn lemma_pad_flag_step(w: Seq<usize>, lsd: bool)
    requires
        w.len() > 0,
    ensures
        pad_flag(w, lsd) == next_flag(pad_flag(w.drop_last(), lsd), w.last() as nat, lsd),
{
    if !lsd && w.len() > 1 {
        assert(w.drop_last()[0] == w[0]);
    }
}

/// The automaton accepting the canonical words that `a` accepts: every value
/// is then read on exactly one word, its representation without padding.
pub fn canonical(a: &Dfa, lsd: bool) -> (r: Dfa)
    requires
        a.wf(),
        3 * a.nstates <= u32::MAX,
        3 * a.nstates * a.alpha <= usize::MAX,
    ensures
        r.wf(),
        r.same_sig(a),
        forall|w: Seq<usize>| word_over(w, a.alpha as nat) ==> #[trigger] r.accepts(w) == (a.accepts(w) && canonical_word(w, lsd)),
{
    let n = a.nstates;
    let alpha = a.alpha;
    let m = 3 * n;
    let mut trans: Vec<crate::dfa::State> = Vec::new();
    let mut accept: Vec<bool> = Vec::new();
    let mut q: usize = 0;
    proof {
        assert(m * alpha <= usize::MAX);
    }
    while q < m
        invariant
            a.wf(),
            n == a.nstates,
            alpha == a.alpha,
            m == 3 * n,
            m <= u32::MAX,
            m * alpha <= usize::MAX,
            q <= m,
            trans.len() == q * alpha,
            accept.len() == q,
            forall|i: int| 0 <= i < trans.len() ==> (#[trigger] trans@[i] as nat) < m,
            forall|p: nat, x: nat| p < q && x < alpha ==> #[trigger] crate::dfa::tstep(trans@, alpha as nat, p, x)
                == 3 * a.step(p / 3, x) + next_flag(p % 3, x, lsd),
            forall|p: int| 0 <= p < q ==> accept@[p] == (a.accept@[p / 3] && p % 3 != 2),
        decreases m - q,
    {
        let s = q / 3;
        let f = q % 3;
        let mut x: usize = 0;
        while x < alpha
            invariant
                a.wf(),
                n == a.nstates,
                alpha == a.alpha,
                m == 3 * n,
                m <= u32::MAX,
                q < m,
                s == q / 3,
                f == q % 3,
                s < n,
                x <= alpha,
                trans.len() == q * alpha + x,
                forall|i: int| 0 <= i < trans.len() ==> (#[trigger] trans@[i] as nat) < m,
                forall|p: nat, y: nat| (p < q && y < alpha) || (p == q && y < x) ==> #[trigger] crate::dfa::tstep(trans@, alpha as nat, p, y)
                    == 3 * a.step(p / 3, y) + next_flag(p % 3, y, lsd),
            decreases alpha - x,
        {
            let t = a.t(s, x);
            let nf: usize = if lsd || f == 0 {
                if x == 0 { 2 } else { 1 }
            } else {
                f
            };
            let ghost before = trans@;
            assert(3 * t + nf < m);
            let v: u32 = (3 * t + nf) as u32;
            assert(v as nat == 3 * t + nf);
            trans.push(v);
            assert(trans@[before.len() as int] == v);
            proof {
                assert forall|p: nat, y: nat| (p < q && y < alpha) || (p == q && y < x + 1) implies #[trigger] crate::dfa::tstep(trans@, alpha as nat, p, y)
                    == 3 * a.step(p / 3, y) + next_flag(p % 3, y, lsd) by {
                    if p < q {
                        crate::dfa::lemma_index(p, y, q as nat, alpha as nat);
                        assert(trans@[(p * alpha + y) as int] == before[(p * alpha + y) as int]);
                        assert(crate::dfa::tstep(before, alpha as nat, p, y) == 3 * a.step(p / 3, y) + next_flag(p % 3, y, lsd));
                    } else if y < x {
                        assert(trans@[(p * alpha + y) as int] == before[(p * alpha + y) as int]);
                        assert(crate::dfa::tstep(before, alpha as nat, p, y) == 3 * a.step(p / 3, y) + next_flag(p % 3, y, lsd));
                    } else {
                        assert(p * alpha + y == before.len());
                        assert(trans@[(p * alpha + y) as int] as nat == 3 * t + nf);
                        assert(nf == next_flag(p % 3, y, lsd));
                    }
                }
            }
            x = x + 1;
        }
        accept.push(a.accept[s] && f != 2);
        proof {
            assert((q + 1) * alpha == q * alpha + alpha) by (nonlinear_arith);
        }
        q = q + 1;
    }
    let r = Dfa { k: a.k, vars: crate::strs::copy_names(&a.vars), alpha, nstates: m, trans, accept };
    proof {
        assert forall|w: Seq<usize>| word_over(w, a.alpha as nat) implies #[trigger] r.accepts(w) == (a.accepts(w) && canonical_word(w, lsd)) by {
            lemma_canonical_run(a, &r, lsd, w);
            lemma_trun(a.trans@, n as nat, alpha as nat, 0, w);
            let s = a.run_from(0, w);
            let p = 3 * s + pad_flag(w, lsd);
            assert(p / 3 == s && p % 3 == pad_flag(w, lsd)) by (nonlinear_arith)
                requires p == 3 * s + pad_flag(w, lsd), pad_flag(w, lsd) < 3;
        }
    }
    r
}

proof fn lemma_canonical_run(a: &Dfa, r: &Dfa, lsd: bool, w: Seq<usize>)
    requires
        a.wf(),
        r.alpha == a.alpha,
        r.nstates == 3 * a.nstates,
        forall|p: nat, x: nat| p < r.nstates && x < a.alpha ==> #[trigger] crate::dfa::tstep(r.trans@, a.alpha as nat, p, x)
            == 3 * a.step(p / 3, x) + next_flag(p % 3, x, lsd),
        word_over(w, a.alpha as nat),
    ensures
        r.run_from(0, w) == 3 * a.run_from(0, w) + pad_flag(w, lsd),
    decreases w.len(),
{
    if w.len() > 0 {
        lemma_word_over_sub(w, a.alpha as nat);
        lemma_canonical_run(a, r, lsd, w.drop_last());
        lemma_trun(a.trans@, a.nstates as nat, a.alpha as nat, 0, w.drop_last());
        lemma_pad_flag_step(w, lsd);
        let s = a.run_from(0, w.drop_last());
        let f = pad_flag(w.drop_last(), lsd);
        let p = 3 * s + f;
        assert(p / 3 == s && p % 3 == f) by (nonlinear_arith)
            requires p == 3 * s + f, f < 3;
        assert(p < r.nstates) by (nonlinear_arith)
            requires p == 3 * s + f, f < 3, s < a.nstates, r.nstates == 3 * a.nstates;
        assert(w.last() == w[w.len() - 1]);
    }
}

/// `u` is the word of some entry of `v`.
pub open spec fn in_words(v: Seq<Vec<usize>>, u: Seq<usize>) -> bool {
    exists|i: int| 0 <= i < v.len() && v[i]@ == u
}

/// `u` is the word of some entry of the frontier `f`.
pub open spec fn in_front(f: Seq<(usize, Vec<usize>)>, u: Seq<usize>) -> bool {
    exists|i: int| 0 <= i < f.len() && f[i].1@ == u
}

impl Dfa {
    /// A prefix of a word leading to acceptance also leads to acceptance.
    proof fn lemma_useful_prefix(&self, u: Seq<usize>, x: nat)
        requires
            self.wf(),
            word_over(u, self.alpha as nat),
            x < self.alpha,
            self.useful(self.step(self.run_from(0, u), x)),
        ensures
            self.useful(self.run_from(0, u)),
    {
        let q = self.run_from(0, u);
        let t = self.step(q, x);
        let w = choose|w: Seq<usize>| word_over(w, self.alpha as nat) && self.accept@[#[trigger] self.run_from(t, w) as int];
        self.lemma_prepend(q, x, w);
        assert(self.accept@[self.run_from(q, seq![x as usize] + w) as int]);
    }
}

/// The accepted words of length at most `maxlen`, shortest first; when fewer
/// than `limit` are returned they are all of them, and otherwise the first `limit`.
pub fn accepted_words(a: &Dfa, maxlen: usize, limit: usize) -> (r: Vec<Vec<usize>>)
    requires
        a.wf(),
    ensures
        r.len() <= limit,
        forall|i: int| 0 <= i < r.len() ==> word_over(#[trigger] r@[i]@, a.alpha as nat)
            && a.accepts(r@[i]@) && r@[i]@.len() <= maxlen,
        r.len() < limit ==> forall|w: Seq<usize>| word_over(w, a.alpha as nat) && a.accepts(w) && w.len() <= maxlen
            ==> #[trigger] in_words(r@, w),
{
    let n = a.nstates;
    let alpha = a.alpha;
    let useful = useful_states(a);
    let mut out: Vec<Vec<usize>> = Vec::new();
    let mut frontier: Vec<(usize, Vec<usize>)> = Vec::new();
    frontier.push((0, Vec::new()));
    proof {
        assert(a.run_from(0, Seq::<usize>::empty()) == 0);
        assert forall|u: Seq<usize>| word_over(u, a.alpha as nat) && u.len() == 0 && a.useful(a.run_from(0, u))
            implies #[trigger] in_front(frontier@, u) by {
            assert(frontier@[0].1@ =~= u);
        }
    }
    let mut depth: usize = 0;
    loop
        invariant
            a.wf(),
            n == a.nstates,
            alpha == a.alpha,
            useful.len() == n,
            forall|t: nat| t < n ==> (useful@[t as int] <==> #[trigger] a.useful(t)),
            depth <= maxlen,
            out.len() <= limit,
            forall|i: int| 0 <= i < out.len() ==> word_over(#[trigger] out@[i]@, a.alpha as nat)
                && a.accepts(out@[i]@) && out@[i]@.len() <= maxlen,
            forall|i: int| 0 <= i < frontier.len() ==> (#[trigger] frontier@[i]).0 < n
                && word_over(frontier@[i].1@, a.alpha as nat)
                && a.run_from(0, frontier@[i].1@) == frontier@[i].0 && frontier@[i].1@.len() == depth,
            forall|u: Seq<usize>| word_over(u, a.alpha as nat) && u.len() == depth && a.useful(a.run_from(0, u))
                ==> #[trigger] in_front(frontier@, u),
            out.len() < limit ==> forall|u: Seq<usize>| word_over(u, a.alpha as nat) && u.len() < depth && a.accepts(u)
                ==> #[trigger] in_words(out@, u),
        ensures
            out.len() <= limit,
            forall|i: int| 0 <= i < out.len() ==> word_over(#[trigger] out@[i]@, a.alpha as nat)
                && a.accepts(out@[i]@) && out@[i]@.len() <= maxlen,
            out.len() < limit ==> forall|u: Seq<usize>| word_over(u, a.alpha as nat) && u.len() <= maxlen && a.accepts(u)
                ==> #[trigger] in_words(out@, u),
        decreases maxlen - depth,
    {
        let mut next: Vec<(usize, Vec<usize>)> = Vec::new();
        let mut i: usize = 0;
        while i < frontier.len()
            invariant
                a.wf(),
                n == a.nstates,
                alpha == a.alpha,
                useful.len() == n,
                forall|t: nat| t < n ==> (useful@[t as int] <==> #[trigger] a.useful(t)),
                depth <= maxlen,
                i <= frontier.len(),
                out.len() <= limit,
                forall|j: int| 0 <= j < out.len() ==> word_over(#[trigger] out@[j]@, a.alpha as nat)
                    && a.accepts(out@[j]@) && out@[j]@.len() <= maxlen,
                forall|j: int| 0 <= j < frontier.len() ==> (#[trigger] frontier@[j]).0 < n
                    && word_over(frontier@[j].1@, a.alpha as nat)
                    && a.run_from(0, frontier@[j].1@) == frontier@[j].0 && frontier@[j].1@.len() == depth,
                forall|j: int| 0 <= j < next.len() ==> (#[trigger] next@[j]).0 < n
                    && word_over(next@[j].1@, a.alpha as nat)
                    && a.run_from(0, next@[j].1@) == next@[j].0 && next@[j].1@.len() == depth + 1,
                forall|j: int, y: nat| 0 <= j < i && y < alpha && depth < maxlen
                    && a.useful(a.step(frontier@[j].0 as nat, y))
                    ==> #[trigger] in_front(next@, frontier@[j].1@.push(y as usize)),
                out.len() < limit ==> forall|u: Seq<usize>| word_over(u, a.alpha as nat) && u.len() < depth && a.accepts(u)
                    ==> #[trigger] in_words(out@, u),
                out.len() < limit ==> forall|j: int| 0 <= j < i && a.accept@[frontier@[j].0 as int]
                    ==> #[trigger] in_words(out@, frontier@[j].1@),
            decreases frontier.len() - i,
        {
            let s = frontier[i].0;
            if a.accept[s] && out.len() < limit {
                let w = frontier[i].1.clone();
                let ghost pout = out@;
                proof {
                    assert(w@ == frontier@[i as int].1@);
                }
                out.push(w);
                proof {
                    assert(out@[pout.len() as int]@ == frontier@[i as int].1@);
                    assert(in_words(out@, frontier@[i as int].1@));
                    if out.len() < limit {
                        assert forall|u: Seq<usize>| word_over(u, a.alpha as nat) && u.len() < depth && a.accepts(u)
                            implies #[trigger] in_words(out@, u) by {
                            assert(in_words(pout, u));
                            let k = choose|k: int| 0 <= k < pout.len() && pout[k]@ == u;
                            assert(out@[k] == pout[k]);
                        }
                        assert forall|j: int| 0 <= j < i + 1 && a.accept@[frontier@[j].0 as int]
                            implies #[trigger] in_words(out@, frontier@[j].1@) by {
                            if j < i {
                                assert(in_words(pout, frontier@[j].1@));
                                let k = choose|k: int| 0 <= k < pout.len() && pout[k]@ == frontier@[j].1@;
                                assert(out@[k] == pout[k]);
                            }
                        }
                    }
                }
            }
            if depth < maxlen {
                let mut x: usize = 0;
                while x < alpha
                    invariant
                        a.wf(),
                        n == a.nstates,
                        alpha == a.alpha,
                        useful.len() == n,
                        forall|t: nat| t < n ==> (useful@[t as int] <==> #[trigger] a.useful(t)),
                        i < frontier.len(),
                        s == frontier@[i as int].0,
                        s < n,
                        word_over(frontier@[i as int].1@, a.alpha as nat),
                        a.run_from(0, frontier@[i as int].1@) == s,
                        frontier@[i as int].1@.len() == depth,
                        depth < maxlen,
                        x <= alpha,
                        forall|j: int| 0 <= j < next.len() ==> (#[trigger] next@[j]).0 < n
                            && word_over(next@[j].1@, a.alpha as nat)
                            && a.run_from(0, next@[j].1@) == next@[j].0 && next@[j].1@.len() == depth + 1,
                        forall|j: int, y: nat| ((0 <= j < i && y < alpha) || (j == i && y < x))
                            && a.useful(a.step(frontier@[j].0 as nat, y))
                            ==> #[trigger] in_front(next@, frontier@[j].1@.push(y as usize)),
                    decreases alpha - x,
                {
                    let t = a.t(s, x);
                    let ghost pnext = next@;
                    if useful[t] {
                        let mut w = frontier[i].1.clone();
                        let ghost w0 = w@;
                        proof {
                            assert(w0 == frontier@[i as int].1@);
                        }
                        w.push(x);
                        proof {
                            assert(w@.drop_last() =~= w0);
                            assert(w@.last() == x);
                            assert(a.run_from(0, w@) == a.step(s as nat, x as nat));
                            assert forall|j: int| 0 <= j < w@.len() implies (#[trigger] w@[j] as nat) < a.alpha as nat by {
                                if j < w0.len() {
                                    assert(w@[j] == w0[j]);
                                }
                            }
                        }
                        next.push((t, w));
                        proof {
                            assert(next@[pnext.len() as int].1@ == frontier@[i as int].1@.push(x as usize));
                        }
                    }
                    proof {
                        assert forall|j: int, y: nat| ((0 <= j < i && y < alpha) || (j == i && y < x + 1))
                            && a.useful(a.step(frontier@[j].0 as nat, y))
                            implies #[trigger] in_front(next@, frontier@[j].1@.push(y as usize)) by {
                            if j == i && y == x {
                                assert(next@[pnext.len() as int].1@ == frontier@[i as int].1@.push(x as usize));
                            } else {
                                assert(in_front(pnext, frontier@[j].1@.push(y as usize)));
                                let k = choose|k: int| 0 <= k < pnext.len() && pnext[k].1@ == frontier@[j].1@.push(y as usize);
                                assert(next@[k] == pnext[k]);
                            }
                        }
                    }
                    x = x + 1;
                }
            }
            i = i + 1;
        }
        proof {
            if out.len() < limit {
                assert forall|u: Seq<usize>| word_over(u, a.alpha as nat) && u.len() < depth + 1 && a.accepts(u)
                    implies #[trigger] in_words(out@, u) by {
                    if u.len() == depth {
                        assert(a.run_from(a.run_from(0, u), Seq::<usize>::empty()) == a.run_from(0, u));
                        assert(a.useful(a.run_from(0, u)));
                        assert(in_front(frontier@, u));
                        let j = choose|j: int| 0 <= j < frontier.len() && frontier@[j].1@ == u;
                        assert(a.accept@[frontier@[j].0 as int]);
                    }
                }
            }
        }
        if depth == maxlen {
            break;
        }
        proof {
            assert forall|u: Seq<usize>| word_over(u, a.alpha as nat) && u.len() == depth + 1 && a.useful(a.run_from(0, u))
                implies #[trigger] in_front(next@, u) by {
                let p = u.drop_last();
                let y = u.last() as nat;
                lemma_word_over_sub(u, a.alpha as nat);
                assert(u[u.len() - 1] == u.last());
                assert(a.run_from(0, u) == a.step(a.run_from(0, p), y));
                a.lemma_useful_prefix(p, y);
                assert(in_front(frontier@, p));
                let j = choose|j: int| 0 <= j < frontier.len() && frontier@[j].1@ == p;
                assert(frontier@[j].0 == a.run_from(0, p));
                assert(p.push(u.last()) =~= u);
                assert(in_front(next@, frontier@[j].1@.push(y as usize)));
            }
        }
        frontier = next;
        depth = depth + 1;
    }
    out
}

} // verus!
