//! Deterministic finite automata over product alphabets of base-k digits.
//!
//! A `Dfa` with variables [v0..v_{n-1}] over base k reads words whose letters are
//! n-tuples of digits in {0..k-1}. Letter (d0,..,d_{n-1}) is encoded as
//! sum_j d_j * k^j.  State 0 is always the start state.
use vstd::prelude::*;
use crate::strs::{names, strictly_sorted};

verus! {

/// A DFA state index.
pub type State = u32;

/// Upper bound on `k^n` (the product alphabet size) any automaton may use.
pub const MAX_ALPHA: usize = 4194304;

/// How many new subsets between progress reports.
pub const SUBSET_TICK: usize = 50000;

/// `k^n`.
pub open spec fn spow(k: nat, n: nat) -> nat
    decreases n,
{
    if n == 0 {
        1
    } else {
        k * spow(k, (n - 1) as nat)
    }
}

/// Digit `i` of the letter `sym`, base `k`.
pub open spec fn sdigit(sym: nat, i: nat, k: nat) -> nat {
    (sym / spow(k, i)) % k
}

/// Every letter of `w` lies below `alpha`.
pub open spec fn word_over(w: Seq<usize>, alpha: nat) -> bool {
    forall|i: int| 0 <= i < w.len() ==> (#[trigger] w[i] as nat) < alpha
}

/// The three-valued result of combining two acceptance bits.
#[derive(Clone, Copy, Debug, PartialEq, Eq)]
pub enum BoolOp {
    And,
    Or,
    Implies,
    Iff,
}

impl BoolOp {
    pub open spec fn eval(self, x: bool, y: bool) -> bool {
        match self {
            BoolOp::And => x && y,
            BoolOp::Or => x || y,
            BoolOp::Implies => !x || y,
            BoolOp::Iff => x == y,
        }
    }

    /// Apply the operator.
    pub fn apply(self, x: bool, y: bool) -> (r: bool)
        ensures
            r == self.eval(x, y),
    {
        match self {
            BoolOp::And => x && y,
            BoolOp::Or => x || y,
            BoolOp::Implies => !x || y,
            BoolOp::Iff => x == y,
        }
    }
}

/// A deterministic finite automaton over the product alphabet of `vars.len()`
/// base-`k` digit coordinates. `trans` is a flattened `nstates x alpha` table
/// (row `s`, column `a` at index `s * alpha + a`); state `0` is the start state.
#[derive(Debug)]
pub struct Dfa {
    pub k: usize,
    pub vars: Vec<String>,
    pub alpha: usize,
    pub nstates: usize,
    pub trans: Vec<State>,
    pub accept: Vec<bool>,
}

/// Distinct names.
pub open spec fn distinct(v: Seq<Seq<char>>) -> bool {
    forall|i: int, j: int| 0 <= i < v.len() && 0 <= j < v.len() && i != j ==> v[i] != v[j]
}

/// A transition table of `n` rows over `alpha` letters whose targets are states.
pub open spec fn table_ok(trans: Seq<State>, n: nat, alpha: nat) -> bool {
    &&& trans.len() == n * alpha
    &&& forall|i: int| 0 <= i < trans.len() ==> (#[trigger] trans[i] as nat) < n
}

/// Successor of `s` on `a` in a flattened table.
pub open spec fn tstep(trans: Seq<State>, alpha: nat, s: nat, a: nat) -> nat {
    trans[(s * alpha + a) as int] as nat
}

/// State reached from `s` after reading `w`, in a flattened table.
pub open spec fn trun(trans: Seq<State>, alpha: nat, s: nat, w: Seq<usize>) -> nat
    decreases w.len(),
{
    if w.len() == 0 {
        s
    } else {
        tstep(trans, alpha, trun(trans, alpha, s, w.drop_last()), w.last() as nat)
    }
}

impl Dfa {
    /// Well-formed: the table is total and in range, and the alphabet is `k^|vars|`.
    pub open spec fn wf(&self) -> bool {
        &&& self.k >= 1
        &&& self.alpha == spow(self.k as nat, self.vars.len() as nat)
        &&& 1 <= self.alpha <= MAX_ALPHA
        &&& 1 <= self.nstates <= u32::MAX
        &&& table_ok(self.trans@, self.nstates as nat, self.alpha as nat)
        &&& self.accept@.len() == self.nstates
        &&& distinct(names(self.vars@))
    }

    /// The variables are listed in strictly increasing order.
    pub open spec fn sorted(&self) -> bool {
        strictly_sorted(names(self.vars@))
    }

    pub open spec fn step(&self, s: nat, a: nat) -> nat {
        tstep(self.trans@, self.alpha as nat, s, a)
    }

    pub open spec fn run_from(&self, s: nat, w: Seq<usize>) -> nat {
        trun(self.trans@, self.alpha as nat, s, w)
    }

    /// The word `w` is accepted.
    pub open spec fn accepts(&self, w: Seq<usize>) -> bool {
        self.accept@[self.run_from(0, w) as int]
    }

    /// The language is nonempty.
    pub open spec fn nonempty_lang(&self) -> bool {
        exists|w: Seq<usize>| word_over(w, self.alpha as nat) && #[trigger] self.accepts(w)
    }

    /// Field-by-field equality of the views.
    pub open spec fn eqv(&self, o: &Dfa) -> bool {
        &&& self.k == o.k
        &&& self.vars@ == o.vars@
        &&& self.alpha == o.alpha
        &&& self.nstates == o.nstates
        &&& self.trans@ == o.trans@
        &&& self.accept@ == o.accept@
    }

    /// Every seen state off the stack (other than `x`) has all its successors seen.
    pub open spec fn closed_except(&self, seen: Seq<bool>, stack: Seq<usize>, x: int) -> bool {
        forall|t: nat, b: nat|
            t < self.nstates && #[trigger] seen[t as int] && !stack.contains(t as usize) && t != x && b < self.alpha
            ==> seen[#[trigger] self.step(t, b) as int]
    }

    /// `other` has the same shape of alphabet and variables.
    pub open spec fn same_sig(&self, other: &Dfa) -> bool {
        &&& self.k == other.k
        &&& self.vars@ == other.vars@
        &&& self.alpha == other.alpha
    }

    /// `self` and `other` accept the same words over the alphabet.
    pub open spec fn same_lang(&self, other: &Dfa) -> bool {
        forall|w: Seq<usize>|
            word_over(w, self.alpha as nat) ==> #[trigger] self.accepts(w) == other.accepts(w)
    }

    /// Some word is accepted from one of `s`, `t` and rejected from the other.
    pub open spec fn distinguishable(&self, s: nat, t: nat) -> bool {
        exists|w: Seq<usize>|
            word_over(w, self.alpha as nat)
            && self.accept@[#[trigger] self.run_from(s, w) as int] != self.accept@[self.run_from(t, w) as int]
    }

    /// Every state is reachable and any two states are told apart by some word.
    pub open spec fn minimal(&self) -> bool {
        &&& forall|s: nat| s < self.nstates ==> #[trigger] self.reachable(s)
        &&& forall|s: nat, t: nat| s < self.nstates && t < self.nstates && s != t
            ==> #[trigger] self.distinguishable(s, t)
    }
}

pub proof fn lemma_index(s: nat, a: nat, n: nat, alpha: nat)
    requires
        s < n,
        a < alpha,
    ensures
        s * alpha + a < n * alpha,
        0 <= s * alpha + a,
{
    assert(s * alpha + a < n * alpha) by (nonlinear_arith)
        requires
            s < n,
            a < alpha,
    ;
}

pub proof fn lemma_tstep(trans: Seq<State>, n: nat, alpha: nat, s: nat, a: nat)
    requires
        table_ok(trans, n, alpha),
        s < n,
        a < alpha,
    ensures
        tstep(trans, alpha, s, a) < n,
{
    lemma_index(s, a, n, alpha);
    assert((trans[(s * alpha + a) as int] as nat) < n);
}

pub proof fn lemma_trun(trans: Seq<State>, n: nat, alpha: nat, s: nat, w: Seq<usize>)
    requires
        table_ok(trans, n, alpha),
        s < n,
        word_over(w, alpha),
    ensures
        trun(trans, alpha, s, w) < n,
    decreases w.len(),
{
    if w.len() > 0 {
        lemma_trun(trans, n, alpha, s, w.drop_last());
        assert(w.last() == w[w.len() - 1]);
        lemma_tstep(trans, n, alpha, trun(trans, alpha, s, w.drop_last()), w.last() as nat);
    }
}

/// Reading `u` then `v` is reading `u + v`.
pub proof fn lemma_trun_concat(trans: Seq<State>, alpha: nat, s: nat, u: Seq<usize>, v: Seq<usize>)
    ensures
        trun(trans, alpha, s, u + v) == trun(trans, alpha, trun(trans, alpha, s, u), v),
    decreases v.len(),
{
    if v.len() == 0 {
        assert(u + v =~= u);
    } else {
        assert((u + v).drop_last() =~= u + v.drop_last());
        assert((u + v).last() == v.last());
        lemma_trun_concat(trans, alpha, s, u, v.drop_last());
    }
}

pub proof fn lemma_word_over_sub(w: Seq<usize>, alpha: nat)
    requires
        word_over(w, alpha),
    ensures
        w.len() > 0 ==> word_over(w.drop_last(), alpha),
        w.len() > 0 ==> (w.last() as nat) < alpha,
{
    if w.len() > 0 {
        assert(w.last() == w[w.len() - 1]);
        assert forall|i: int| 0 <= i < w.drop_last().len() implies (#[trigger] w.drop_last()[i] as nat)
            < alpha by {
            assert(w.drop_last()[i] == w[i]);
        }
    }
}

pub proof fn lemma_spow_pos(k: nat, n: nat)
    requires
        k >= 1,
    ensures
        spow(k, n) >= 1,
    decreases n,
{
    if n > 0 {
        lemma_spow_pos(k, (n - 1) as nat);
        assert(k * spow(k, (n - 1) as nat) >= 1) by (nonlinear_arith)
            requires
                k >= 1,
                spow(k, (n - 1) as nat) >= 1,
        ;
    }
}

pub proof fn lemma_spow_mono(k: nat, m: nat, n: nat)
    requires
        k >= 1,
        m <= n,
    ensures
        spow(k, m) <= spow(k, n),
    decreases n,
{
    if m < n {
        lemma_spow_mono(k, m, (n - 1) as nat);
        lemma_spow_pos(k, (n - 1) as nat);
        assert(spow(k, (n - 1) as nat) <= k * spow(k, (n - 1) as nat)) by (nonlinear_arith)
            requires
                k >= 1,
        ;
    }
}

/// `k^n`, for alphabets within the ceiling.
pub fn pow(k: usize, n: usize) -> (r: usize)
    requires
        k >= 1,
        spow(k as nat, n as nat) <= MAX_ALPHA,
    ensures
        r == spow(k as nat, n as nat),
{
    let mut r: usize = 1;
    let mut i: usize = 0;
    while i < n
        invariant
            k >= 1,
            i <= n,
            r == spow(k as nat, i as nat),
            spow(k as nat, n as nat) <= MAX_ALPHA,
        decreases n - i,
    {
        proof {
            lemma_spow_mono(k as nat, (i + 1) as nat, n as nat);
        }
        assert(spow(k as nat, (i + 1) as nat) == k * spow(k as nat, i as nat));
        r = r * k;
        i = i + 1;
    }
    r
}

/// `k^n` when it fits a `usize`.
pub fn pow_any(k: usize, n: usize) -> (r: usize)
    requires
        k >= 1,
        spow(k as nat, n as nat) <= usize::MAX,
    ensures
        r == spow(k as nat, n as nat),
{
    let mut r: usize = 1;
    let mut i: usize = 0;
    while i < n
        invariant
            k >= 1,
            i <= n,
            r == spow(k as nat, i as nat),
            spow(k as nat, n as nat) <= usize::MAX,
        decreases n - i,
    {
        proof {
            lemma_spow_mono(k as nat, (i + 1) as nat, n as nat);
        }
        assert(spow(k as nat, (i + 1) as nat) == k * spow(k as nat, i as nat));
        r = r * k;
        i = i + 1;
    }
    r
}

/// Digit of `sym` in coordinate `i`, base `k`.
pub fn digit(sym: usize, i: usize, k: usize) -> (r: usize)
    requires
        k >= 1,
        spow(k as nat, i as nat) <= usize::MAX,
    ensures
        r == sdigit(sym as nat, i as nat, k as nat),
        r < k,
{
    let p = pow_any(k, i);
    proof {
        lemma_spow_pos(k as nat, i as nat);
    }
    (sym / p) % k
}

impl Dfa {
    /// Successor of state `s` on letter `a`.
    pub fn t(&self, s: usize, a: usize) -> (r: usize)
        requires
            self.wf(),
            s < self.nstates,
            a < self.alpha,
        ensures
            r == self.step(s as nat, a as nat),
            r < self.nstates,
    {
        proof {
            lemma_index(s as nat, a as nat, self.nstates as nat, self.alpha as nat);
            lemma_tstep(self.trans@, self.nstates as nat, self.alpha as nat, s as nat, a as nat);
        }
        assert(s * self.alpha + a < self.trans.len());
        self.trans[s * self.alpha + a] as usize
    }

    /// Build a `Dfa` from raw parts.
    pub fn new(k: usize, vars: Vec<String>, nstates: usize, trans: Vec<State>, accept: Vec<bool>) -> (r: Dfa)
        requires
            k >= 1,
            spow(k as nat, vars.len() as nat) <= MAX_ALPHA,
            1 <= nstates <= u32::MAX,
            table_ok(trans@, nstates as nat, spow(k as nat, vars.len() as nat)),
            accept.len() == nstates,
            distinct(names(vars@)),
        ensures
            r.wf(),
            r.k == k,
            r.vars@ == vars@,
            r.nstates == nstates,
            r.trans@ == trans@,
            r.accept@ == accept@,
    {
        let alpha = pow(k, vars.len());
        proof {
            lemma_spow_pos(k as nat, vars.len() as nat);
        }
        Dfa { k, vars, alpha, nstates, trans, accept }
    }

    /// A copy of this automaton.
    pub fn dup(&self) -> (r: Dfa)
        ensures
            r.eqv(self),
    {
        let vars = crate::strs::copy_names(&self.vars);
        let trans = self.trans.clone();
        let accept = self.accept.clone();
        assert(trans@ =~= self.trans@);
        assert(accept@ =~= self.accept@);
        Dfa { k: self.k, vars, alpha: self.alpha, nstates: self.nstates, trans, accept }
    }

    /// Does the automaton accept the empty word (state 0 accepting)?
    pub fn accepts_epsilon(&self) -> (r: bool)
        requires
            self.wf(),
        ensures
            r == self.accepts(Seq::empty()),
    {
        self.accept[0]
    }

    /// Run on an explicit word (sequence of symbol indices).
    pub fn run(&self, word: &[usize]) -> (r: bool)
        requires
            self.wf(),
            word_over(word@, self.alpha as nat),
        ensures
            r == self.accepts(word@),
    {
        let mut s: usize = 0;
        let mut i: usize = 0;
        while i < word.len()
            invariant
                self.wf(),
                word_over(word@, self.alpha as nat),
                i <= word.len(),
                s < self.nstates,
                s == self.run_from(0, word@.take(i as int)),
            decreases word.len() - i,
        {
            assert(word@.take(i + 1).drop_last() =~= word@.take(i as int));
            assert((word@[i as int] as nat) < self.alpha);
            s = self.t(s, word[i]);
            i = i + 1;
        }
        assert(word@.take(word.len() as int) =~= word@);
        self.accept[s]
    }

    /// Flip every accept bit: the complement over the same alphabet.
    pub fn complement_raw(&self) -> (r: Dfa)
        requires
            self.wf(),
        ensures
            r.wf(),
            r.same_sig(self),
            r.nstates == self.nstates,
            r.trans@ == self.trans@,
            forall|w: Seq<usize>| word_over(w, self.alpha as nat) ==> #[trigger] r.accepts(w) == !self.accepts(w),
    {
        let mut accept: Vec<bool> = Vec::new();
        let mut i: usize = 0;
        while i < self.nstates
            invariant
                self.wf(),
                i <= self.nstates,
                accept.len() == i,
                forall|j: int| 0 <= j < i ==> accept@[j] == !self.accept@[j],
            decreases self.nstates - i,
        {
            accept.push(!self.accept[i]);
            i = i + 1;
        }
        let c = Dfa {
            k: self.k,
            vars: crate::strs::copy_names(&self.vars),
            alpha: self.alpha,
            nstates: self.nstates,
            trans: self.trans.clone(),
            accept,
        };
        assert(c.trans@ =~= self.trans@);
        assert forall|w: Seq<usize>| word_over(w, self.alpha as nat) implies #[trigger] c.accepts(w)
            == !self.accepts(w) by {
            lemma_trun(self.trans@, self.nstates as nat, self.alpha as nat, 0, w);
        }
        c
    }

    /// Does this automaton accept at least one word?
    pub fn is_nonempty(&self) -> (r: bool)
        requires
            self.wf(),
        ensures
            r == self.nonempty_lang(),
    {
        let n = self.nstates;
        let mut seen: Vec<bool> = Vec::new();
        let mut i: usize = 0;
        while i < n
            invariant
                i <= n,
                seen.len() == i,
                forall|j: int| 0 <= j < i ==> !seen@[j],
            decreases n - i,
        {
            seen.push(false);
            i = i + 1;
        }
        let mut stack: Vec<usize> = Vec::new();
        stack.push(0);
        seen.set(0, true);
        let ghost mut wit: Map<int, Seq<usize>> = Map::empty().insert(0int, Seq::<usize>::empty());
        let ghost mut sset: Set<int> = Set::empty().insert(0int);
        let ghost range = vstd::set_lib::set_int_range(0, n as int);
        proof {
            vstd::set_lib::lemma_int_range(0, n as int);
            assert(stack@[0] == 0);
            assert(stack@.contains(0usize));
        }
        while stack.len() > 0
            invariant
                self.wf(),
                n == self.nstates,
                seen.len() == n,
                seen@[0],
                forall|j: int| 0 <= j < stack.len() ==> (#[trigger] stack@[j]) < n && seen@[stack@[j] as int],
                forall|t: int| 0 <= t < n && #[trigger] seen@[t] ==> wit.dom().contains(t)
                    && word_over(wit[t], self.alpha as nat) && self.run_from(0, wit[t]) == t,
                self.closed_except(seen@, stack@, -1),
                forall|t: int| 0 <= t < n && #[trigger] seen@[t] && !stack@.contains(t as usize) ==> !self.accept@[t],
                sset.finite(),
                sset.subset_of(range),
                range == vstd::set_lib::set_int_range(0, n as int),
                range.finite(),
                range.len() == n,
                forall|j: int| 0 <= j < n ==> (#[trigger] seen@[j] <==> sset.contains(j)),
            decreases n - sset.len(), stack.len(),
        {
            proof {
                vstd::set_lib::lemma_len_subset(sset, range);
            }
            let ghost old_stack = stack@;
            let ghost old_len = sset.len();
            let s = stack.pop().unwrap();
            assert(old_stack == stack@.push(s));
            if self.accept[s] {
                proof {
                    assert(seen@[s as int]);
                    let w = wit[s as int];
                    assert(self.accepts(w));
                }
                return true;
            }
            let ghost base = stack@;
            proof {
                assert forall|t: nat, b: nat|
                    t < n && #[trigger] seen@[t as int] && !stack@.contains(t as usize) && t != s && b < self.alpha
                    implies seen@[#[trigger] self.step(t, b) as int] by {
                    if old_stack.contains(t as usize) {
                        let j = choose|j: int| 0 <= j < old_stack.len() && old_stack[j] == t as usize;
                        assert(j < old_stack.len() - 1);
                        assert(stack@[j] == t as usize);
                    }
                }
                assert forall|t: int| 0 <= t < n && #[trigger] seen@[t] && !stack@.contains(t as usize)
                    implies !self.accept@[t] by {
                    if t != s {
                        if old_stack.contains(t as usize) {
                            let j = choose|j: int| 0 <= j < old_stack.len() && old_stack[j] == t as usize;
                            assert(j < old_stack.len() - 1);
                            assert(stack@[j] == t as usize);
                        }
                    }
                }
            }
            let mut a: usize = 0;
            while a < self.alpha
                invariant
                    self.wf(),
                    n == self.nstates,
                    s < n,
                    seen@[s as int],
                    !self.accept@[s as int],
                    a <= self.alpha,
                    seen.len() == n,
                    seen@[0],
                    forall|b: nat| b < a ==> seen@[#[trigger] self.step(s as nat, b) as int],
                    forall|j: int| 0 <= j < stack.len() ==> (#[trigger] stack@[j]) < n && seen@[stack@[j] as int],
                    base.len() <= stack.len(),
                    forall|j: int| 0 <= j < base.len() ==> stack@[j] == #[trigger] base[j],
                    forall|t: int| 0 <= t < n && #[trigger] seen@[t] ==> wit.dom().contains(t)
                        && word_over(wit[t], self.alpha as nat) && self.run_from(0, wit[t]) == t,
                    self.closed_except(seen@, stack@, s as int),
                    forall|t: int| 0 <= t < n && #[trigger] seen@[t] && !stack@.contains(t as usize) ==> !self.accept@[t],
                    sset.finite(),
                    sset.subset_of(range),
                    range == vstd::set_lib::set_int_range(0, n as int),
                    range.finite(),
                    range.len() == n,
                    forall|j: int| 0 <= j < n ==> (#[trigger] seen@[j] <==> sset.contains(j)),
                    sset.len() - old_len == stack.len() - base.len(),
                decreases self.alpha - a,
            {
                proof {
                    self.lemma_steps();
                }
                let d = self.t(s, a);
                if !seen[d] {
                    let ghost pre = stack@;
                    let ghost pseen = seen@;
                    proof {
                        let ws = wit[s as int];
                        let wd = ws.push(a);
                        assert(wd.drop_last() =~= ws);
                        assert(word_over(wd, self.alpha as nat));
                        wit = wit.insert(d as int, wd);
                        assert(!sset.contains(d as int));
                        sset = sset.insert(d as int);
                    }
                    seen.set(d, true);
                    stack.push(d);
                    proof {
                        assert(stack@[stack.len() - 1] == d);
                        assert forall|t: nat, b: nat|
                            t < n && #[trigger] seen@[t as int] && !stack@.contains(t as usize) && t != s && b < self.alpha
                            implies seen@[#[trigger] self.step(t, b) as int] by {
                            if pre.contains(t as usize) {
                                let j = choose|j: int| 0 <= j < pre.len() && pre[j] == t as usize;
                                assert(stack@[j] == t as usize);
                            }
                            if t != d {
                                assert(pseen[t as int]);
                                assert(self.closed_except(pseen, pre, s as int));
                                assert(pseen[self.step(t, b) as int]);
                            }
                        }
                        assert forall|t: int| 0 <= t < n && #[trigger] seen@[t] && !stack@.contains(t as usize)
                            implies !self.accept@[t] by {
                            if pre.contains(t as usize) {
                                let j = choose|j: int| 0 <= j < pre.len() && pre[j] == t as usize;
                                assert(stack@[j] == t as usize);
                            }
                        }
                    }
                }
                assert(seen@[self.step(s as nat, a as nat) as int]);
                a = a + 1;
            }
            proof {
                vstd::set_lib::lemma_len_subset(sset, range);
                assert forall|t: nat, b: nat|
                    t < n && #[trigger] seen@[t as int] && !stack@.contains(t as usize) && t != -1 && b < self.alpha
                    implies seen@[#[trigger] self.step(t, b) as int] by {
                    if t == s {
                        assert(seen@[self.step(s as nat, b) as int]);
                    }
                }
            }
        }
        proof {
            assert forall|t: nat, b: nat| t < n && #[trigger] seen@[t as int] && b < self.alpha
                implies seen@[#[trigger] self.step(t, b) as int] by {
                assert(!stack@.contains(t as usize));
            }
            assert forall|w: Seq<usize>| word_over(w, self.alpha as nat) implies !#[trigger] self.accepts(w) by {
                self.lemma_closed_reach(seen@, w);
                lemma_trun(self.trans@, n as nat, self.alpha as nat, 0, w);
            }
        }
        false
    }

    /// Every step stays among the states.
    pub proof fn lemma_steps(&self)
        requires
            self.wf(),
        ensures
            forall|s: nat, a: nat| s < self.nstates && a < self.alpha ==> #[trigger] self.step(s, a) < self.nstates,
    {
        assert forall|s: nat, a: nat| s < self.nstates && a < self.alpha implies #[trigger] self.step(s, a)
            < self.nstates by {
            lemma_tstep(self.trans@, self.nstates as nat, self.alpha as nat, s, a);
        }
    }

    /// A set of states that holds the start state and is closed under every
    /// letter holds every state a word reaches.
    pub proof fn lemma_closed_reach(&self, seen: Seq<bool>, w: Seq<usize>)
        requires
            self.wf(),
            seen.len() == self.nstates,
            seen[0],
            forall|s: nat, a: nat|
                s < self.nstates && #[trigger] seen[s as int] && a < self.alpha
                ==> seen[#[trigger] self.step(s, a) as int],
            word_over(w, self.alpha as nat),
        ensures
            seen[self.run_from(0, w) as int],
        decreases w.len(),
    {
        if w.len() > 0 {
            lemma_word_over_sub(w, self.alpha as nat);
            self.lemma_closed_reach(seen, w.drop_last());
            lemma_trun(self.trans@, self.nstates as nat, self.alpha as nat, 0, w.drop_last());
            let s = self.run_from(0, w.drop_last());
            assert(seen[self.step(s, w.last() as nat) as int]);
        }
    }
}

} // verus!
