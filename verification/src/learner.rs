//! Learning a self-verifying predicate as an automaton: a discrimination-tree
//! learner (Kearns-Vazirani, with Rivest-Schapire counterexample
//! decomposition) driven by the membership oracle, and checked by the
//! predicate's own recurrence.
use vstd::prelude::*;
use crate::dfa::{Dfa, State, MAX_ALPHA, spow, word_over};
use crate::dfao::Dfao;
use crate::learn::{Kind, Spec};
use crate::oracle::Oracle;
use crate::ops::Ctx;
use crate::strs::{names, strictly_sorted};
use crate::dfa::distinct;
use crate::strs::{str_chars, string_of, str_to_string, push_str, push_num};
use crate::parser::Ast;
use crate::logic::Lin;
use crate::compiler::{Compiler, Defs};
use crate::learn::HOLE;

verus! {

/// A node of the discrimination tree: a leaf names a state by its access
/// word; an inner node splits by the answer on `access . suffix`.
pub enum Node {
    Leaf { access: Vec<usize>, state: usize },
    Inner { suffix: Vec<usize>, yes: usize, no: usize },
}

/// The learner's hypothesis and discrimination tree.
pub struct Learner<'a> {
    pub or: Oracle<'a>,
    pub cx: &'a Ctx,
    pub k: usize,
    pub n: usize,
    pub kind: Kind,
    pub pos: Vec<usize>,
    pub vars: Vec<String>,
    pub alpha: usize,
    pub nodes: Vec<Node>,
    /// per node: the transition slots currently sifting into it
    pub incoming: Vec<Vec<u32>>,
    pub root: usize,
    /// per state: its access word
    pub access: Vec<Vec<usize>>,
    pub accept: Vec<bool>,
    /// per state: its leaf
    pub leaf_of: Vec<usize>,
    /// `nstates * alpha` successor table
    pub trans: Vec<u32>,
}

/// Every letter of every word is below `alpha`.
pub open spec fn words_over(ws: Seq<Vec<usize>>, alpha: nat) -> bool {
    forall|i: int| 0 <= i < ws.len() ==> word_over(#[trigger] ws[i]@, alpha)
}

impl<'a> Learner<'a> {
    /// The tree's children come after their parents, leaves name states,
    /// the tables have their sizes and every index is in range.
    pub open spec fn wf(&self) -> bool {
        &&& self.or.wf()
        &&& self.or.k == self.k
        &&& self.or.n == self.n
        &&& self.k <= MAX_ALPHA
        &&& self.alpha == spow(self.k as nat, self.n as nat)
        &&& 1 <= self.alpha <= MAX_ALPHA
        &&& self.cx.wf()
        &&& self.cx.fits(self.k as nat)
        &&& self.vars@.len() == self.n
        &&& strictly_sorted(names(self.vars@))
        &&& self.nodes@.len() == self.incoming@.len()
        &&& self.root < self.nodes@.len()
        &&& 1 <= self.access@.len() < u32::MAX
        &&& self.accept@.len() == self.access@.len()
        &&& self.leaf_of@.len() == self.access@.len()
        &&& self.trans@.len() == self.access@.len() * self.alpha
        &&& forall|i: int| 0 <= i < self.trans@.len() ==> (#[trigger] self.trans@[i] as int) < self.access@.len()
        &&& forall|i: int| 0 <= i < self.leaf_of@.len() ==> (#[trigger] self.leaf_of@[i]) < self.nodes@.len()
            && (self.nodes@[self.leaf_of@[i] as int] matches Node::Leaf { state, .. } && state == i)
        &&& forall|i: int| 0 <= i < self.access@.len() ==> word_over(#[trigger] self.access@[i]@, self.alpha as nat)
        &&& forall|x: int| 0 <= x < self.nodes@.len() ==> match #[trigger] self.nodes@[x] {
            Node::Leaf { access, state } => state < self.access@.len() && word_over(access@, self.alpha as nat),
            Node::Inner { suffix, yes, no } => x < yes < self.nodes@.len() && x < no < self.nodes@.len()
                && word_over(suffix@, self.alpha as nat),
        }
        &&& forall|x: int, j: int| 0 <= x < self.incoming@.len() && 0 <= j < self.incoming@[x]@.len()
            ==> (#[trigger] self.incoming@[x]@[j] as int) < self.trans@.len()
    }

    /// The hypothesis' state after reading `w`.
    pub open spec fn hrun(&self, w: Seq<usize>) -> nat {
        crate::dfa::trun(self.trans@, self.alpha as nat, 0, w)
    }

    /// The oracle's answer on `w`.
    pub open spec fn says(&self, w: Seq<usize>) -> bool {
        self.or.answer(w, self.cx.lsd)
    }

    /// The hypothesis and the oracle disagree on `w`.
    pub open spec fn wrong_on(&self, w: Seq<usize>) -> bool {
        self.accept@[self.hrun(w) as int] != self.says(w)
    }

    pub fn nstates(&self) -> (r: usize)
        ensures
            r == self.access@.len(),
    {
        self.access.len()
    }

    /// A membership query through the oracle.
    fn mq(&mut self, w: &Vec<usize>) -> (r: bool)
        requires
            old(self).wf(),
        ensures
            final(self).wf(),
            final(self).same_shape(old(self)),
            old(self).cx.ns is None ==> r == old(self).says(w@),
    {
        self.or.mq(w.as_slice(), self.cx)
    }

    /// Only the oracle's counters changed.
    pub open spec fn same_shape(&self, o: &Learner<'a>) -> bool {
        &&& self.same_env(o)
        &&& self.nodes@ == o.nodes@
        &&& self.incoming@ == o.incoming@
        &&& self.root == o.root
        &&& self.access@ == o.access@
        &&& self.accept@ == o.accept@
        &&& self.leaf_of@ == o.leaf_of@
        &&& self.trans@ == o.trans@
    }

    /// The fixed parts: the session, the class, the alphabet and the oracle's sequence.
    pub open spec fn same_env(&self, o: &Learner<'a>) -> bool {
        &&& self.cx == o.cx
        &&& self.k == o.k
        &&& self.n == o.n
        &&& self.alpha == o.alpha
        &&& self.kind == o.kind
        &&& self.pos@ == o.pos@
        &&& self.vars@ == o.vars@
        &&& self.or.d == o.or.d
        &&& self.or.kind == o.or.kind
        &&& self.or.hardcap == o.or.hardcap
        &&& self.or.pos@ == o.or.pos@
    }

    /// Run the hypothesis on `w`.
    pub fn run(&self, w: &Vec<usize>) -> (r: bool)
        requires
            self.wf(),
            word_over(w@, self.alpha as nat),
        ensures
            r == self.accept@[self.hrun(w@) as int],
    {
        let mut s: usize = 0;
        let mut i: usize = 0;
        proof {
            assert(w@.take(0) =~= Seq::<usize>::empty());
        }
        while i < w.len()
            invariant
                self.wf(),
                word_over(w@, self.alpha as nat),
                i <= w@.len(),
                s < self.access@.len(),
                s == self.hrun(w@.take(i as int)),
            decreases w@.len() - i,
        {
            proof {
                assert(w@[i as int] < self.alpha);
                crate::dfa::lemma_index(s as nat, w@[i as int] as nat, self.access@.len() as nat, self.alpha as nat);
                assert(s * self.alpha + w@[i as int] < self.trans@.len());
                assert(w@.take(i + 1).drop_last() =~= w@.take(i as int));
            }
            let a = w[i];
            assert(s * self.alpha + a < self.trans.len());
            let idx = s * self.alpha + a;
            s = self.trans[idx] as usize;
            i = i + 1;
        }
        proof {
            assert(w@.take(w@.len() as int) =~= w@);
        }
        self.accept[s]
    }

    /// The leaf that `w` sifts down to.
    fn sift(&mut self, w: &Vec<usize>) -> (r: usize)
        requires
            old(self).wf(),
            word_over(w@, old(self).alpha as nat),
        ensures
            final(self).wf(),
            final(self).same_shape(old(self)),
            r < final(self).nodes@.len(),
            final(self).nodes@[r as int] is Leaf,
    {
        let mut x = self.root;
        loop
            invariant
                self.wf(),
                self.same_shape(old(self)),
                word_over(w@, self.alpha as nat),
                x < self.nodes@.len(),
            decreases self.nodes@.len() - x,
        {
            let (suffix, y, nn) = match &self.nodes[x] {
                Node::Leaf { .. } => {
                    return x;
                },
                Node::Inner { suffix, yes, no } => (concat(w, suffix), *yes, *no),
            };
            x = if self.mq(&suffix) { y } else { nn };
        }
    }

    /// The state a leaf names.
    fn leaf_state(&self, x: usize) -> (r: usize)
        requires
            self.wf(),
            x < self.nodes@.len(),
            self.nodes@[x as int] is Leaf,
        ensures
            r < self.access@.len(),
            self.nodes@[x as int] matches Node::Leaf { state, .. } && r == state,
    {
        match &self.nodes[x] {
            Node::Leaf { state, .. } => *state,
            Node::Inner { .. } => 0,
        }
    }
}

/// `a . b`.
pub fn concat(a: &Vec<usize>, b: &Vec<usize>) -> (r: Vec<usize>)
    ensures
        r@ == a@ + b@,
{
    let mut r: Vec<usize> = Vec::new();
    let mut i: usize = 0;
    while i < a.len()
        invariant
            i <= a@.len(),
            r@ == a@.take(i as int),
        decreases a@.len() - i,
    {
        r.push(a[i]);
        i = i + 1;
        proof {
            assert(r@ =~= a@.take(i as int));
        }
    }
    let mut j: usize = 0;
    while j < b.len()
        invariant
            i == a@.len(),
            j <= b@.len(),
            r@ == a@ + b@.take(j as int),
        decreases b@.len() - j,
    {
        proof {
            assert(a@.take(a@.len() as int) =~= a@);
        }
        r.push(b[j]);
        j = j + 1;
        proof {
            assert(r@ =~= a@ + b@.take(j as int));
        }
    }
    proof {
        assert(a@.take(a@.len() as int) =~= a@);
        assert(b@.take(b@.len() as int) =~= b@);
        assert(r@ =~= a@ + b@);
    }
    r
}

/// `w[from..]`.
pub fn tail(w: &Vec<usize>, from: usize) -> (r: Vec<usize>)
    requires
        from <= w@.len(),
    ensures
        r@ == w@.skip(from as int),
{
    let mut r: Vec<usize> = Vec::new();
    let mut i: usize = from;
    while i < w.len()
        invariant
            from <= i <= w@.len(),
            r@ == w@.subrange(from as int, i as int),
        decreases w@.len() - i,
    {
        r.push(w[i]);
        i = i + 1;
        proof {
            assert(r@ =~= w@.subrange(from as int, i as int));
        }
    }
    proof {
        assert(r@ =~= w@.skip(from as int));
    }
    r
}

/// A copy of `w`.
pub fn copy_word(w: &Vec<usize>) -> (r: Vec<usize>)
    ensures
        r@ == w@,
{
    tail(w, 0)
}


/// Strictly sorted names are distinct.
pub proof fn lemma_sorted_distinct(v: Seq<Seq<char>>)
    requires
        strictly_sorted(v),
    ensures
        distinct(v),
{
    assert forall|i: int, j: int| 0 <= i < v.len() && 0 <= j < v.len() && i != j implies v[i] != v[j] by {
        if i < j {
            assert(crate::strs::seq_lt(v[i], v[j]));
        } else {
            assert(crate::strs::seq_lt(v[j], v[i]));
        }
        crate::strs::lemma_seq_lt_irreflexive(v[i]);
    }
}

/// The letters of `a . b` are those of `a` and of `b`.
pub proof fn lemma_word_concat(a: Seq<usize>, b: Seq<usize>, alpha: nat)
    requires
        word_over(a, alpha),
        word_over(b, alpha),
    ensures
        word_over(a + b, alpha),
{
    assert forall|i: int| 0 <= i < (a + b).len() implies ((#[trigger] (a + b)[i]) as nat) < alpha by {
        if i < a.len() {
            assert((a + b)[i] == a[i]);
        } else {
            assert((a + b)[i] == b[i - a.len()]);
        }
    }
}

/// `w . a`.
pub fn push_letter(w: &Vec<usize>, a: usize) -> (r: Vec<usize>)
    ensures
        r@ == w@.push(a),
{
    let mut r = copy_word(w);
    r.push(a);
    r
}

/// Append `x` to row `i`.
fn push_at(v: &mut Vec<Vec<u32>>, i: usize, x: u32)
    requires
        i < old(v)@.len(),
    ensures
        final(v)@.len() == old(v)@.len(),
        final(v)@[i as int]@ == old(v)@[i as int]@.push(x),
        forall|j: int| 0 <= j < old(v)@.len() && j != i ==> #[trigger] final(v)@[j] == old(v)@[j],
{
    let mut row = v[i].clone();
    assert(row@ =~= v@[i as int]@);
    row.push(x);
    v.set(i, row);
}

/// Append `m` zeros.
fn push_zeros(v: &mut Vec<u32>, m: usize)
    ensures
        final(v)@.len() == old(v)@.len() + m,
        forall|j: int| 0 <= j < old(v)@.len() ==> #[trigger] final(v)@[j] == old(v)@[j],
        forall|j: int| old(v)@.len() <= j < final(v)@.len() ==> #[trigger] final(v)@[j] == 0,
{
    let mut i: usize = 0;
    while i < m
        invariant
            i <= m,
            v@.len() == old(v)@.len() + i,
            forall|j: int| 0 <= j < old(v)@.len() ==> #[trigger] v@[j] == old(v)@[j],
            forall|j: int| old(v)@.len() <= j < v@.len() ==> #[trigger] v@[j] == 0,
        decreases m - i,
    {
        v.push(0);
        i = i + 1;
    }
}

impl<'a> Learner<'a> {
    /// Room for one more state: its access word, its row of successors
    /// (slot numbers are `u32`) and two more tree nodes.
    pub open spec fn room(&self) -> bool {
        &&& self.access@.len() + 2 < u32::MAX
        &&& (self.access@.len() + 1) * self.alpha <= u32::MAX
        &&& self.nodes@.len() + 2 < usize::MAX
    }

    /// The one-state hypothesis: every letter loops on the empty word's class.
    pub fn new(or: Oracle<'a>, cx: &'a Ctx, spec: &Spec) -> (r: Option<Learner<'a>>)
        requires
            or.wf(),
            spec.wf(),
            or.kind == spec.kind,
            or.pos@ == spec.pos@,
            cx.wf(),
            cx.fits(or.k as nat),
        ensures
            r matches Some(l) ==> l.wf() && l.access@.len() == 1 && l.cx == cx && l.kind == spec.kind
                && l.or.d == or.d && l.or.kind == or.kind && l.or.hardcap == or.hardcap
                && l.vars@ == spec.sorted@ && l.pos@ == spec.pos@ && l.n == or.n && l.k == or.k && l.pos_ok(),
            r is None <==> !(or.k <= MAX_ALPHA && spow(or.k as nat, or.n as nat) <= MAX_ALPHA),
    {
        let k = or.k;
        let n = or.n;
        if k > MAX_ALPHA {
            return None;
        }
        let alpha = match crate::ops::pow_capped(k, n) {
            Some(a) => a,
            None => {
                return None;
            },
        };
        let mut or = or;
        let e: Vec<usize> = Vec::new();
        let acc0 = or.mq(e.as_slice(), cx);
        let mut row: Vec<u32> = Vec::new();
        let mut a: usize = 0;
        while a < alpha
            invariant
                a <= alpha,
                alpha <= MAX_ALPHA,
                row@.len() == a,
                forall|j: int| 0 <= j < a ==> (#[trigger] row@[j] as int) == j,
            decreases alpha - a,
        {
            row.push(a as u32);
            a = a + 1;
        }
        let mut trans: Vec<u32> = Vec::new();
        push_zeros(&mut trans, alpha);
        let mut accept: Vec<bool> = Vec::new();
        accept.push(acc0);
        let mut access: Vec<Vec<usize>> = Vec::new();
        access.push(Vec::new());
        let mut nodes: Vec<Node> = Vec::new();
        nodes.push(Node::Leaf { access: Vec::new(), state: 0 });
        let mut incoming: Vec<Vec<u32>> = Vec::new();
        incoming.push(row);
        let mut leaf_of: Vec<usize> = Vec::new();
        leaf_of.push(0);
        proof {
            crate::dfa::lemma_spow_pos(k as nat, n as nat);
            assert(trans@.len() == 1 * alpha);
            assert forall|x: int, j: int| 0 <= x < incoming@.len() && 0 <= j < incoming@[x]@.len()
                implies (#[trigger] incoming@[x]@[j] as int) < trans@.len() by {
                assert(x == 0);
                assert(incoming@[0]@[j] as int == j);
            }
        }
        let l = Learner {
            or, cx, k, n, kind: spec.kind, pos: spec.pos.clone(), vars: crate::strs::copy_names(&spec.sorted),
            alpha, nodes, incoming, root: 0, access, accept, leaf_of, trans,
        };
        proof {
            assert(l.pos@ =~= spec.pos@);
            assert(l.vars@.len() == l.n);
            assert(strictly_sorted(names(l.vars@)));
            assert(l.trans@.len() == l.access@.len() * l.alpha);
            assert(forall|i: int| 0 <= i < l.trans@.len() ==> (#[trigger] l.trans@[i] as int) < l.access@.len());
            assert(word_over(l.access@[0]@, alpha as nat));
            assert(match l.nodes@[0] {
                Node::Leaf { access, state } => state < l.access@.len() && word_over(access@, alpha as nat),
                Node::Inner { .. } => false,
            });
        }
        Some(l)
    }

    /// Split `leaf` by `suffix`: its state keeps its access word on one side,
    /// a new state with access word `newaccess` takes the other. Only the
    /// transitions that sifted into `leaf` are sifted again, by the new suffix.
    #[verifier::rlimit(60)]
    fn split(&mut self, leaf: usize, newaccess: Vec<usize>, suffix: Vec<usize>)
        requires
            old(self).wf(),
            old(self).room(),
            leaf < old(self).nodes@.len(),
            old(self).nodes@[leaf as int] is Leaf,
            word_over(newaccess@, old(self).alpha as nat),
            word_over(suffix@, old(self).alpha as nat),
        ensures
            final(self).wf(),
            final(self).same_env(old(self)),
            final(self).access@.len() == old(self).access@.len() + 1,
    {
        let ghost old_self = *self;
        let (oldaccess, oldstate) = match &self.nodes[leaf] {
            Node::Leaf { access, state } => (copy_word(access), *state),
            Node::Inner { .. } => (Vec::new(), 0),
        };
        proof {
            lemma_word_concat(oldaccess@, suffix@, self.alpha as nat);
            lemma_word_concat(newaccess@, suffix@, self.alpha as nat);
        }
        let q = concat(&oldaccess, &suffix);
        let bold = self.mq(&q);
        let q = concat(&newaccess, &suffix);
        let _bnew = self.mq(&q);
        let acc = self.mq(&newaccess);
        let alpha = self.alpha;
        let nold = self.access.len();
        let newstate = nold;
        let idx_old = self.nodes.len();
        let idx_new = idx_old + 1;
        self.nodes.push(Node::Leaf { access: oldaccess, state: oldstate });
        self.incoming.push(Vec::new());
        self.nodes.push(Node::Leaf { access: copy_word(&newaccess), state: newstate });
        self.incoming.push(Vec::new());
        let (yes, no) = if bold { (idx_old, idx_new) } else { (idx_new, idx_old) };
        let inc = self.incoming[leaf].clone();
        assert(inc@ =~= self.incoming@[leaf as int]@);
        self.incoming.set(leaf, Vec::new());
        self.nodes.set(leaf, Node::Inner { suffix: copy_word(&suffix), yes, no });
        self.leaf_of.set(oldstate, idx_old);
        self.access.push(copy_word(&newaccess));
        self.accept.push(acc);
        self.leaf_of.push(idx_new);
        push_zeros(&mut self.trans, alpha);
        proof {
            assert((nold + 1) * alpha == nold * alpha + alpha) by (nonlinear_arith);
            assert forall|x: int| 0 <= x < self.nodes@.len() implies match #[trigger] self.nodes@[x] {
                Node::Leaf { access, state } => state < self.access@.len() && word_over(access@, self.alpha as nat),
                Node::Inner { suffix, yes, no } => x < yes < self.nodes@.len() && x < no < self.nodes@.len()
                    && word_over(suffix@, self.alpha as nat),
            } by {
                if x < old_self.nodes@.len() && x != leaf {
                    assert(self.nodes@[x] == old_self.nodes@[x]);
                }
            }
            assert forall|i: int| 0 <= i < self.access@.len() implies word_over(#[trigger] self.access@[i]@, self.alpha as nat) by {
                if i < nold {
                    assert(self.access@[i] == old_self.access@[i]);
                }
            }
            assert forall|x: int, j: int| 0 <= x < self.incoming@.len() && 0 <= j < self.incoming@[x]@.len()
                implies (#[trigger] self.incoming@[x]@[j] as int) < self.trans@.len() by {
                if x < old_self.incoming@.len() && x != leaf {
                    assert(self.incoming@[x] == old_self.incoming@[x]);
                }
            }
            assert forall|i: int| 0 <= i < self.trans@.len() implies (#[trigger] self.trans@[i] as int) < self.access@.len() by {
                if i < old_self.trans@.len() {
                    assert(self.trans@[i] == old_self.trans@[i]);
                }
            }
            assert(self.wf());
        }
        let ghost mid_self = *self;
        let mut j: usize = 0;
        while j < inc.len()
            invariant
                self.wf(),
                self.same_env(&old_self),
                self.alpha == alpha,
                self.access@.len() == nold + 1,
                newstate == nold,
                oldstate < nold,
                idx_old < self.nodes@.len(),
                idx_new < self.nodes@.len(),
                j <= inc@.len(),
                forall|i: int| 0 <= i < inc@.len() ==> (#[trigger] inc@[i] as int) < nold * alpha,
                self.trans@.len() == nold * alpha + alpha,
                word_over(suffix@, alpha as nat),
                self.nodes@.len() == mid_self.nodes@.len(),
                self.incoming@.len() == mid_self.incoming@.len(),
            decreases inc@.len() - j,
        {
            let slot = inc[j] as usize;
            proof {
                assert((slot as int) < nold * alpha);
                assert(slot / alpha < nold && slot % alpha < alpha) by (nonlinear_arith)
                    requires
                        slot < nold * alpha,
                        alpha >= 1;
            }
            let s = slot / alpha;
            let a = slot % alpha;
            let pa = push_letter(&self.access[s], a);
            proof {
                assert(word_over(pa@, alpha as nat)) by {
                    assert(word_over(self.access@[s as int]@, alpha as nat));
                    assert forall|i: int| 0 <= i < pa@.len() implies ((#[trigger] pa@[i]) as nat) < alpha by {
                        if i < self.access@[s as int]@.len() {
                            assert(pa@[i] == self.access@[s as int]@[i]);
                        }
                    }
                }
                lemma_word_concat(pa@, suffix@, alpha as nat);
            }
            let q = concat(&pa, &suffix);
            let b = self.mq(&q);
            let (node, st) = if b == bold { (idx_old, oldstate) } else { (idx_new, newstate) };
            self.trans.set(slot, st as u32);
            push_at(&mut self.incoming, node, slot as u32);
            proof {
                assert forall|x: int, y: int| 0 <= x < self.incoming@.len() && 0 <= y < self.incoming@[x]@.len()
                    implies (#[trigger] self.incoming@[x]@[y] as int) < self.trans@.len() by {
                    if x == node && y == self.incoming@[x]@.len() - 1 {
                    }
                }
            }
            j = j + 1;
        }
        let mut a: usize = 0;
        while a < alpha
            invariant
                self.wf(),
                self.same_env(&old_self),
                self.alpha == alpha,
                self.access@.len() == nold + 1,
                newstate == nold,
                (nold + 1) * alpha <= u32::MAX,
                a <= alpha,
                word_over(newaccess@, alpha as nat),
            decreases alpha - a,
        {
            let q = push_letter(&newaccess, a);
            proof {
                assert forall|i: int| 0 <= i < q@.len() implies ((#[trigger] q@[i]) as nat) < alpha by {
                    if i < newaccess@.len() {
                        assert(q@[i] == newaccess@[i]);
                    }
                }
            }
            let lf = self.sift(&q);
            let st = self.leaf_state(lf);
            proof {
                crate::dfa::lemma_index(newstate as nat, a as nat, (nold + 1) as nat, alpha as nat);
            }
            let slot = newstate * alpha + a;
            self.trans.set(slot, st as u32);
            push_at(&mut self.incoming, lf, slot as u32);
            a = a + 1;
        }
    }

    /// Rivest-Schapire decomposition of a counterexample `w`: find by binary
    /// search the position where the hypothesis' guess turns, and split the
    /// state reached there. `false` when `w` is not a counterexample.
    fn process_ce(&mut self, w: &Vec<usize>) -> (r: bool)
        requires
            old(self).wf(),
            old(self).room(),
            word_over(w@, old(self).alpha as nat),
        ensures
            final(self).wf(),
            final(self).same_env(old(self)),
            r ==> final(self).access@.len() == old(self).access@.len() + 1,
            !r ==> final(self).access@.len() == old(self).access@.len(),
            !r ==> final(self).room(),
            old(self).cx.ns is None ==> (r <==> (w@.len() > 0 && old(self).wrong_on(w@))),
    {
        let ghost old_self = *self;
        let target = self.mq(w);
        if self.run(w) == target {
            return false;
        }
        let n = w.len();
        if n == 0 {
            return false;
        }
        let alpha = self.alpha;
        let mut path: Vec<usize> = Vec::new();
        path.push(0);
        let mut s: usize = 0;
        let mut i: usize = 0;
        while i < n
            invariant
                self.wf(),
                self.same_shape(&old_self),
                self.alpha == alpha,
                n == w@.len(),
                word_over(w@, alpha as nat),
                i <= n,
                path@.len() == i + 1,
                s < self.access@.len(),
                forall|j: int| 0 <= j < path@.len() ==> (#[trigger] path@[j]) < self.access@.len(),
            decreases n - i,
        {
            proof {
                assert(w@[i as int] < alpha);
                crate::dfa::lemma_index(s as nat, w@[i as int] as nat, self.access@.len() as nat, alpha as nat);
            }
            let a = w[i];
            assert(s * alpha + a < self.trans.len());
            let idx = s * alpha + a;
            s = self.trans[idx] as usize;
            path.push(s);
            i = i + 1;
        }
        let mut lo: usize = 0;
        let mut hi: usize = n;
        while hi - lo > 1
            invariant
                self.wf(),
                self.same_shape(&old_self),
                self.alpha == alpha,
                n == w@.len(),
                word_over(w@, alpha as nat),
                lo < hi <= n,
                path@.len() == n + 1,
                forall|j: int| 0 <= j < path@.len() ==> (#[trigger] path@[j]) < self.access@.len(),
            decreases hi - lo,
        {
            let mid = lo + (hi - lo) / 2;
            let t = tail(w, mid);
            proof {
                assert(word_over(self.access@[path@[mid as int] as int]@, alpha as nat));
                assert forall|x: int| 0 <= x < t@.len() implies ((#[trigger] t@[x]) as nat) < alpha by {
                    assert(t@[x] == w@[x + mid]);
                }
                lemma_word_concat(self.access@[path@[mid as int] as int]@, t@, alpha as nat);
            }
            let q = concat(&self.access[path[mid]], &t);
            if self.mq(&q) == target {
                lo = mid;
            } else {
                hi = mid;
            }
        }
        let p = lo;
        let newaccess = push_letter(&self.access[path[p]], w[p]);
        let suffix = tail(w, p + 1);
        let leaf = self.leaf_of[path[p + 1]];
        proof {
            assert(word_over(self.access@[path@[p as int] as int]@, alpha as nat));
            assert(w@[p as int] < alpha);
            assert forall|x: int| 0 <= x < newaccess@.len() implies ((#[trigger] newaccess@[x]) as nat) < alpha by {
                if x < self.access@[path@[p as int] as int]@.len() {
                    assert(newaccess@[x] == self.access@[path@[p as int] as int]@[x]);
                }
            }
            assert forall|x: int| 0 <= x < suffix@.len() implies ((#[trigger] suffix@[x]) as nat) < alpha by {
                assert(suffix@[x] == w@[x + p + 1]);
            }
        }
        match &self.nodes[leaf] {
            Node::Leaf { .. } => {},
            Node::Inner { .. } => {
                return false;
            },
        }
        self.split(leaf, newaccess, suffix);
        true
    }

    /// The hypothesis as an automaton over the sorted tracks, minimized and
    /// restricted to valid representations.
    pub fn to_dfa(&self) -> (r: Option<Dfa>)
        requires
            self.wf(),
        ensures
            r matches Some(d) ==> d.wf() && d.k == self.k && d.vars@.len() == self.n,
            r matches Some(d) ==> d.alpha == self.alpha,
            self.cx.ns is None ==> (r matches Some(d) && forall|w: Seq<usize>| word_over(w, self.alpha as nat)
                ==> #[trigger] d.accepts(w) == self.accept@[self.hrun(w) as int]),
    {
        proof {
            lemma_sorted_distinct(names(self.vars@));
        }
        let d0 = Dfa::new(self.k, crate::strs::copy_names(&self.vars), self.access.len(), self.trans.clone(), self.accept.clone());
        proof {
            assert forall|w: Seq<usize>| word_over(w, self.alpha as nat) implies
                #[trigger] d0.accepts(w) == self.accept@[self.hrun(w) as int] by {
                assert(d0.trans@ == self.trans@);
                assert(d0.alpha == self.alpha);
            }
        }
        let d = d0.minimize();
        match crate::ops::restrict(&d, self.cx) {
            Some(x) => {
                let y = x.minimize();
                proof {
                    if self.cx.ns is None {
                        assert forall|w: Seq<usize>| word_over(w, self.alpha as nat) implies
                            #[trigger] y.accepts(w) == self.accept@[self.hrun(w) as int] by {
                            assert(y.accepts(w) == x.accepts(w));
                            assert(x.accepts(w) == d.accepts(w));
                            assert(d.accepts(w) == d0.accepts(w));
                        }
                    }
                }
                Some(y)
            },
            None => None,
        }
    }
}


/// A xorshift generator: the sampler's only source of variety, seeded
/// with a fixed constant so that a run is reproducible.
pub struct Rng {
    pub state: u64,
}

/// One xorshift step (shifts 13, 7, 17).
pub open spec fn xorshift(x: u64) -> u64 {
    let a = x ^ (x << 13u64);
    let b = a ^ (a >> 7u64);
    b ^ (b << 17u64)
}

impl Rng {
    /// The next xorshift value; it is also the new state.
    pub fn next(&mut self) -> (r: u64)
        ensures
            r == xorshift(old(self).state),
            final(self).state == r,
    {
        let mut x = self.state;
        x = x ^ (x << 13u64);
        x = x ^ (x >> 7u64);
        x = x ^ (x << 17u64);
        self.state = x;
        x
    }

    /// A value below `n` (0 when `n` is 0).
    pub fn below(&mut self, n: u64) -> (r: u64)
        ensures
            n == 0 ==> r == 0 && final(self).state == old(self).state,
            n > 0 ==> r == xorshift(old(self).state) % n && final(self).state == xorshift(old(self).state),
            n > 0 ==> r < n,
    {
        if n == 0 {
            0
        } else {
            self.next() % n
        }
    }
}

/// `k^e`, or `u64::MAX` when that does not fit (see `sat_pow_spec`).
pub fn sat_pow(k: u64, e: u64) -> (r: u64)
    ensures
        spow(k as nat, e as nat) <= u64::MAX ==> r == spow(k as nat, e as nat),
        spow(k as nat, e as nat) > u64::MAX ==> r == u64::MAX,
    decreases e,
{
    if e == 0 {
        return 1;
    }
    let p = sat_pow(k, e - 1);
    proof {
        assert(spow(k as nat, e as nat) == k * spow(k as nat, (e - 1) as nat));
        if k > 0 && spow(k as nat, (e - 1) as nat) > u64::MAX {
            assert(k * spow(k as nat, (e - 1) as nat) >= spow(k as nat, (e - 1) as nat)) by (nonlinear_arith)
                requires k > 0;
        }
    }
    if p == u64::MAX && k > 0 && spow_over(k, e - 1) {
        return u64::MAX;
    }
    match k.checked_mul(p) {
        Some(x) => x,
        None => u64::MAX,
    }
}

/// Is `k^e` beyond `u64`?
fn spow_over(k: u64, e: u64) -> (r: bool)
    ensures
        r == (spow(k as nat, e as nat) > u64::MAX),
    decreases e,
{
    if e == 0 {
        return false;
    }
    proof {
        assert(spow(k as nat, e as nat) == k * spow(k as nat, (e - 1) as nat));
    }
    if k == 0 {
        assert(spow(k as nat, e as nat) == 0) by (nonlinear_arith)
            requires
                spow(k as nat, e as nat) == k * spow(k as nat, (e - 1) as nat),
                k == 0;
        return false;
    }
    if spow_over(k, e - 1) {
        proof {
            assert(k * spow(k as nat, (e - 1) as nat) >= spow(k as nat, (e - 1) as nat)) by (nonlinear_arith)
                requires k > 0;
        }
        return true;
    }
    let p = sat_pow(k, e - 1);
    k.checked_mul(p).is_none()
}

/// A draw below `n` from state `s`, with the next state.
pub open spec fn below_spec(s: u64, n: u64) -> (u64, u64) {
    if n == 0 { (0, s) } else { (xorshift(s) % n, xorshift(s)) }
}

/// `k^e`, or `u64::MAX` when that does not fit.
pub open spec fn sat_pow_spec(k: u64, e: u64) -> u64 {
    if spow(k as nat, e as nat) > u64::MAX { u64::MAX } else { spow(k as nat, e as nat) as u64 }
}

/// The partner drawn from state `s`, with the next state: by the first draw
/// (below 4), a uniform position, `i + 1 + d` (`d < 16`), `i + k^e (1 + m)`
/// (`e < nd`, `m < k`) or `i` with bit `b < nd` flipped; sums wrap.
pub open spec fn partner_spec(s: u64, i: u64, k: u64, nd: u64, range: u64) -> (u64, u64) {
    let (c, s1) = below_spec(s, 4);
    if c == 0 {
        below_spec(s1, range)
    } else if c == 1 {
        let (d, s2) = below_spec(s1, 16);
        (vstd::wrapping::u64_specs::wrapping_add(i, (1 + d) as u64), s2)
    } else if c == 2 {
        let (e, s2) = below_spec(s1, nd);
        let (m, s3) = below_spec(s2, k);
        (vstd::wrapping::u64_specs::wrapping_add(i,
            vstd::wrapping::u64_specs::wrapping_mul(sat_pow_spec(k, e), (1 + m) as u64)), s3)
    } else {
        let (b, s2) = below_spec(s1, nd);
        (i ^ (1u64 << b), s2)
    }
}

/// A second position near `i`: uniform, adjacent, shifted by a digit, or
/// with one bit flipped.
pub fn partner(rng: &mut Rng, i: u64, k: u64, nd: u64, range: u64) -> (r: u64)
    requires
        1 <= nd <= 63,
    ensures
        (r, final(rng).state) == partner_spec(old(rng).state, i, k, nd, range),
{
    let c = rng.below(4);
    if c == 0 {
        rng.below(range)
    } else if c == 1 {
        let d = rng.below(16);
        i.wrapping_add(1 + d)
    } else if c == 2 {
        let e = rng.below(nd);
        let m = rng.below(k);
        i.wrapping_add(sat_pow(k, e).wrapping_mul(1 + m))
    } else {
        let b = rng.below(nd);
        i ^ (1u64 << b)
    }
}

/// The fixed settings of a learning run (each has a default, see `defaults`).
pub struct LearnConfig {
    /// the first cap on a single oracle walk
    pub start_cap: u64,
    /// the cap is raised sixteenfold up to this
    pub max_cap: u64,
    /// the largest digit count the sampler draws (`None`: by base)
    pub digits: Option<u64>,
    pub samples: usize,
    pub witnesses: usize,
    pub iters: usize,
    pub probe: usize,
}

impl LearnConfig {
    /// `2^22` to `2^26` for the cap, 4000 samples per round, 256 witnesses
    /// per sentence, 20000 rounds and a probe budget of 2000.
    pub fn defaults() -> (r: LearnConfig)
        ensures
            r.start_cap == 0x40_0000 && r.max_cap == 0x400_0000 && r.digits is None,
            r.samples == 4000 && r.witnesses == 256 && r.iters == 20000 && r.probe == 2000,
    {
        LearnConfig {
            start_cap: 0x40_0000,
            max_cap: 0x400_0000,
            digits: None,
            samples: 4000,
            witnesses: 256,
            iters: 20000,
            probe: 2000,
        }
    }
}

/// The sampler's default digit count in base `k`.
pub fn default_digits(k: usize) -> (r: u64)
    ensures
        r == (if k == 2 { 22u64 } else if k == 3 { 14u64 } else if k == 4 { 11u64 } else { 9u64 }),
{
    if k == 2 { 22 } else if k == 3 { 14 } else if k == 4 { 11 } else { 9 }
}

impl<'a> Learner<'a> {
    /// Learners with the same tables and oracle disagree on the same words.
    pub proof fn lemma_same_shape_wrong(a: &Learner<'a>, b: &Learner<'a>, w: Seq<usize>)
        requires
            a.wf(),
            b.wf(),
            a.same_shape(b),
        ensures
            a.wrong_on(w) == b.wrong_on(w),
    {
        assert(a.or.k == b.or.k);
        assert(a.or.n == b.or.n);
        assert(a.says(w) == b.says(w));
    }
}

/// `w` spells the values `vals` in base `k` with plain digits, one track
/// each, padded to the longest.
pub open spec fn encodes(k: nat, vals: Seq<u64>, w: Seq<usize>, lsd: bool) -> bool {
    &&& w.len() == crate::codec::max_ndigits(vals, k)
    &&& forall|c: nat| c < vals.len() ==> #[trigger] crate::codec::digit_track(w, c, k)
        == crate::codec::placed(crate::dfao::kdigits(vals[c as int] as nat, k), w.len(), lsd)
}

/// The values in track order: parameter `d`'s value on track `pos[d]`, for
/// the first `d` parameters (later ones winning), zero elsewhere.
pub open spec fn scatter(v: Seq<u64>, pos: Seq<usize>, d: nat, n: nat) -> Seq<u64>
    decreases d,
{
    if d == 0 {
        Seq::new(n, |i: int| 0u64)
    } else {
        scatter(v, pos, (d - 1) as nat, n).update(pos[d - 1] as int, v[d - 1])
    }
}

/// Every tuple has `n` entries.
pub open spec fn tuples_of(ts: Seq<Vec<u64>>, n: nat) -> bool {
    forall|i: int| 0 <= i < ts.len() ==> (#[trigger] ts[i])@.len() == n
}

impl<'a> Learner<'a> {
    /// Encode a tuple given in parameter order.
    pub fn enc(&self, v: &Vec<u64>) -> (r: Vec<usize>)
        requires
            self.wf(),
            v@.len() == self.n,
            self.pos@.len() == self.n,
            forall|i: int| 0 <= i < self.pos@.len() ==> (#[trigger] self.pos@[i] as int) < self.n,
        ensures
            word_over(r@, self.alpha as nat),
            self.cx.ns is None ==> encodes(self.k as nat, scatter(v@, self.pos@, self.n as nat, self.n as nat), r@, self.cx.lsd),
    {
        let mut s: Vec<u64> = Vec::new();
        let mut i: usize = 0;
        while i < self.n
            invariant
                i <= self.n,
                s@.len() == i,
                forall|j: int| 0 <= j < i ==> s@[j] == 0,
            decreases self.n - i,
        {
            s.push(0);
            i = i + 1;
        }
        let mut d: usize = 0;
        assert(s@ =~= scatter(v@, self.pos@, 0, self.n as nat));
        while d < self.pos.len()
            invariant
                s@.len() == self.n,
                v@.len() == self.n,
                d <= self.pos@.len(),
                self.pos@.len() == self.n,
                forall|i: int| 0 <= i < self.pos@.len() ==> (#[trigger] self.pos@[i] as int) < self.n,
                s@ == scatter(v@, self.pos@, d as nat, self.n as nat),
            decreases self.pos@.len() - d,
        {
            s.set(self.pos[d], v[d]);
            d = d + 1;
        }
        crate::codec::encode_word(self.k, s.as_slice(), self.cx)
    }

    /// Decode a word back to parameter order.
    pub fn dec(&self, w: &Vec<usize>) -> (r: Option<Vec<u64>>)
        requires
            self.wf(),
            self.pos@.len() == self.n,
            forall|i: int| 0 <= i < self.pos@.len() ==> (#[trigger] self.pos@[i] as int) < self.n,
        ensures
            r matches Some(v) ==> v@.len() == self.n,
            self.cx.ns is None ==> (r matches Some(v) ==> forall|d: int| 0 <= d < self.n ==> #[trigger] v@[d] as int
                == crate::oracle::track_val(w@, self.pos@[d] as nat, self.k as nat, self.cx.lsd)),
            self.cx.ns is None ==> (r is Some <==> ((self.cx.lsd ==> (w@.len() == 0 || spow(self.k as nat, (w@.len() - 1) as nat) <= u64::MAX))
                && forall|c: nat| c < self.n ==> #[trigger] crate::base::val(crate::base::track(w@, c, self.k as nat), self.k as nat, self.cx.lsd) <= u64::MAX)),
    {
        match crate::learn::decode(self.k, self.n, w.as_slice(), self.cx) {
            Some(v) => {
                let mut out: Vec<u64> = Vec::new();
                let mut d: usize = 0;
                while d < self.pos.len()
                    invariant
                        v@.len() == self.n,
                        self.pos@.len() == self.n,
                        forall|i: int| 0 <= i < self.pos@.len() ==> (#[trigger] self.pos@[i] as int) < self.n,
                        out@.len() == d,
                        d <= self.pos@.len(),
                        forall|x: int| 0 <= x < d ==> #[trigger] out@[x] == v@[self.pos@[x] as int],
                    decreases self.pos@.len() - d,
                {
                    out.push(v[self.pos[d]]);
                    d = d + 1;
                }
                Some(out)
            },
            None => None,
        }
    }

    /// The tracks of the parameters are a permutation's worth of tracks.
    pub open spec fn pos_ok(&self) -> bool {
        &&& self.pos@.len() == self.n
        &&& forall|i: int| 0 <= i < self.pos@.len() ==> (#[trigger] self.pos@[i] as int) < self.n
    }

    /// Record `v` in `out` when the hypothesis and the oracle disagree on it.
    fn try_tuple(&mut self, v: &Vec<u64>, out: &mut Vec<Vec<usize>>) -> (hit: bool)
        requires
            old(self).wf(),
            old(self).pos_ok(),
            v@.len() == old(self).n,
            words_over(old(out)@, old(self).alpha as nat),
        ensures
            final(self).wf(),
            final(self).same_shape(old(self)),
            words_over(final(out)@, old(self).alpha as nat),
            final(out)@.len() == old(out)@.len() + (if hit { 1int } else { 0int }),
            final(out)@.subrange(0, old(out)@.len() as int) == old(out)@,
            old(self).cx.ns is None ==> exists|w: Seq<usize>|
                #[trigger] encodes(old(self).k as nat, scatter(v@, old(self).pos@, old(self).n as nat, old(self).n as nat), w, old(self).cx.lsd)
                && (hit <==> old(self).wrong_on(w)) && (hit ==> final(out)@.last()@ == w),
    {
        let w = self.enc(v);
        let h = self.run(&w);
        let m = self.mq(&w);
        if h != m {
            out.push(w);
            proof {
                assert(out@.subrange(0, old(out)@.len() as int) =~= old(out)@);
            }
            true
        } else {
            proof {
                assert(out@.subrange(0, old(out)@.len() as int) =~= old(out)@);
            }
            false
        }
    }
}

/// The offset drawn from state `s`, with the next state: by the first draw
/// (below 4), uniform below `range`, `1 + d` (`d < 16`), `k^e` (`e < nd`) or
/// `1 + x` (`x < range`, wrapping).
pub open spec fn offset_spec(s: u64, range: u64, k: u64, nd: u64) -> (u64, u64) {
    let (c, s1) = below_spec(s, 4);
    if c == 0 {
        below_spec(s1, range)
    } else if c == 1 {
        let (d, s2) = below_spec(s1, 16);
        ((1 + d) as u64, s2)
    } else if c == 2 {
        let (e, s2) = below_spec(s1, nd);
        (sat_pow_spec(k, e), s2)
    } else {
        let (x, s2) = below_spec(s1, range);
        (vstd::wrapping::u64_specs::wrapping_add(1, x), s2)
    }
}

/// One of the sampler's boundary draws for a cap `cap`.
fn draw_offset(rng: &mut Rng, range: u64, k: u64, nd: u64) -> (r: u64)
    requires
        1 <= nd <= 63,
    ensures
        (r, final(rng).state) == offset_spec(old(rng).state, range, k, nd),
{
    let c = rng.below(4);
    if c == 0 {
        rng.below(range)
    } else if c == 1 {
        1 + rng.below(16)
    } else if c == 2 {
        let e = rng.below(nd);
        sat_pow(k, e)
    } else {
        1u64.wrapping_add(rng.below(range))
    }
}

/// Randomised counterexample search on the class' language boundary (the
/// lengths at which one more matching position flips the answer), by
/// membership queries alone; at most `want` words are returned.
fn sample_ces(l: &mut Learner, rng: &mut Rng, tries: usize, maxdig: u64, want: usize) -> (r: Vec<Vec<usize>>)
    requires
        old(l).wf(),
        old(l).pos_ok(),
        old(l).n == 3,
        1 <= maxdig <= 62,
    ensures
        final(l).wf(),
        final(l).same_shape(old(l)),
        words_over(r@, old(l).alpha as nat),
        old(l).cx.ns is None ==> forall|i: int| 0 <= i < r@.len() ==> old(l).wrong_on(#[trigger] r@[i]@),
{
    let ghost l0 = *l;
    let k = l.k as u64;
    let mut out: Vec<Vec<usize>> = Vec::new();
    let mut t: usize = 0;
    while t < tries
        invariant
            l.wf(),
            l.pos_ok(),
            l.n == 3,
            l.same_shape(&l0),
            l0 == *old(l),
            1 <= maxdig <= 62,
            words_over(out@, l0.alpha as nat),
            l0.wf(),
            l0.cx.ns is None ==> forall|i: int| 0 <= i < out@.len() ==> l0.wrong_on(#[trigger] out@[i]@),
        decreases tries - t,
    {
        t = t + 1;
        let nd = 1 + rng.below(maxdig);
        let range = sat_pow(k, nd);
        let i = rng.below(range);
        let hc = l.or.hardcap;
        let c2 = match range.checked_mul(2) {
            Some(x) => x,
            None => u64::MAX,
        };
        let cap = if c2 < hc { c2 } else { hc };
        let cap = if cap < 0x10_0000 { cap } else { 0x10_0000 };
        let mut cands: Vec<Vec<u64>> = Vec::new();
        match l.kind {
            Kind::Fe => {
                let j = partner(rng, i, k, nd, range);
                if (i as u128) + (cap as u128) <= u64::MAX as u128 + 1 && (j as u128) + (cap as u128) <= u64::MAX as u128 + 1 {
                    let lc = l.or.lcp_upto(i, j, cap);
                    let r1 = rng.below(lc.wrapping_add(2));
                    let r2 = rng.below(range);
                    cands.push(vec![i, j, 0]);
                    cands.push(vec![i, j, 1]);
                    cands.push(vec![i, j, lc]);
                    cands.push(vec![i, j, lc.wrapping_add(1)]);
                    cands.push(vec![i, j, lc.saturating_sub(1)]);
                    cands.push(vec![i, j, r1]);
                    cands.push(vec![i, j, r2]);
                }
            },
            Kind::Rev => {
                let e = partner(rng, i, k, nd, range);
                if (i as u128) + (cap as u128) <= u64::MAX as u128 + 1 && e < u64::MAX {
                    let m = l.or.rlce_upto(i, e, cap);
                    let r1 = rng.below(m.wrapping_add(2));
                    let r2 = rng.below(range);
                    let lens: Vec<u64> = vec![0, 1, m, m.wrapping_add(1), m.saturating_sub(1), r1, r2];
                    let mut x: usize = 0;
                    while x < lens.len()
                        invariant
                            forall|y: int| 0 <= y < cands@.len() ==> (#[trigger] cands@[y])@.len() == 3,
                            e < u64::MAX,
                        decreases lens@.len() - x,
                    {
                        let ll = lens[x];
                        x = x + 1;
                        if ll == 0 {
                            let r3 = rng.below(range);
                            cands.push(vec![i, r3, 0]);
                        } else if ll <= e + 1 {
                            let j = e + 1 - ll;
                            cands.push(vec![i, j, ll]);
                        }
                    }
                }
            },
            Kind::Period => {
                let p = draw_offset(rng, range, k, nd);
                let ip = i.saturating_add(p);
                if (i as u128) + (cap as u128) <= u64::MAX as u128 + 1 && (ip as u128) + (cap as u128) <= u64::MAX as u128 + 1 {
                    let m = l.or.lcp_upto(i, ip, cap);
                    let b = m.saturating_add(p);
                    let r2 = rng.below(range);
                    cands.push(vec![i, 0, p]);
                    cands.push(vec![i, 1, p]);
                    cands.push(vec![i, p, p]);
                    cands.push(vec![i, p.wrapping_add(1), p]);
                    cands.push(vec![i, b, p]);
                    cands.push(vec![i, b.wrapping_add(1), p]);
                    cands.push(vec![i, b.saturating_sub(1), p]);
                    cands.push(vec![i, r2, p]);
                }
            },
            Kind::Border => {
                let d = draw_offset(rng, range, k, nd);
                let id = i.saturating_add(d);
                if (i as u128) + (cap as u128) <= u64::MAX as u128 + 1 && (id as u128) + (cap as u128) <= u64::MAX as u128 + 1 {
                    let m = l.or.lcp_upto(i, id, cap);
                    let r1 = rng.below(m.wrapping_add(2));
                    let bs: Vec<u64> = vec![0, 1, m, m.wrapping_add(1), m.saturating_sub(1), r1];
                    let mut x: usize = 0;
                    while x < bs.len()
                        invariant
                            forall|y: int| 0 <= y < cands@.len() ==> (#[trigger] cands@[y])@.len() == 3,
                        decreases bs@.len() - x,
                    {
                        let b = bs[x];
                        x = x + 1;
                        cands.push(vec![i, b.wrapping_add(d), b]);
                        if b > 0 {
                            let b1 = b - 1;
                            cands.push(vec![i, b1, b]);
                        }
                    }
                }
            },
            Kind::Custom => {},
        }
        let mut x: usize = 0;
        while x < cands.len()
            invariant
                l.wf(),
                l.pos_ok(),
                l.n == 3,
                l.same_shape(&l0),
                l0 == *old(l),
                words_over(out@, l0.alpha as nat),
                l0.wf(),
            l0.cx.ns is None ==> forall|i: int| 0 <= i < out@.len() ==> l0.wrong_on(#[trigger] out@[i]@),
                forall|y: int| 0 <= y < cands@.len() ==> (#[trigger] cands@[y])@.len() == 3,
            decreases cands@.len() - x,
        {
            let ghost lb = *l;
            let ghost ob = out@;
            let hit = l.try_tuple(&cands[x], &mut out);
            proof {
                if l0.cx.ns is None {
                    assert forall|i: int| 0 <= i < out@.len() implies l0.wrong_on(#[trigger] out@[i]@) by {
                        if i < ob.len() {
                            assert(out@[i] == out@.subrange(0, ob.len() as int)[i]);
                        } else {
                            let w = choose|w: Seq<usize>| #[trigger] encodes(lb.k as nat, scatter(cands@[x as int]@, lb.pos@, lb.n as nat, lb.n as nat), w, lb.cx.lsd)
                                && (hit <==> lb.wrong_on(w)) && (hit ==> out@.last()@ == w);
                            Learner::lemma_same_shape_wrong(&lb, &l0, w);
                        }
                    }
                }
            }
            if out.len() >= want {
                return out;
            }
            x = x + 1;
        }
    }
    out
}

/// The neighbours of a tuple that the probe visits: the length-like
/// coordinate moved by up to three either way, each coordinate moved by
/// one, the step the recurrence itself takes, and all divided by `k`.
/// The probe's neighbours of `(i, j, l)`. For FE: `l` moved by `-3..+3`,
/// `(i+1, j+1, l)`, `(i+1, j+1, l-1)`, `(i-1, j-1, l+1)`, `(i/k, j/k, l/k)` and
/// `(i/k, j/k, l)`. For the others: the length-like coordinate moved by
/// `-3..+3`, each coordinate moved by `+1` and `-1`, the two steps of the
/// class' recurrence, and `(i/k, j/k, l/k)`. Sums and differences saturate.
pub open spec fn neighbours_spec(kind: Kind, v: Seq<u64>, k: u64) -> Seq<Seq<u64>> {
    let i = v[0];
    let j = v[1];
    let l = v[2];
    match kind {
        Kind::Fe => Seq::new(7, |d: int| seq![i, j, l.saturating_add(d as u64).saturating_sub(3)]) + seq![
            seq![i.saturating_add(1), j.saturating_add(1), l],
            seq![i.saturating_add(1), j.saturating_add(1), l.saturating_sub(1)],
            seq![i.saturating_sub(1), j.saturating_sub(1), l.saturating_add(1)],
            seq![i / k, j / k, l / k],
            seq![i / k, j / k, l],
        ],
        _ => {
            let r: int = match kind { Kind::Period => 1, Kind::Border => 1, _ => 2 };
            Seq::new(7, |d: int| v.update(r, v[r].saturating_add(d as u64).saturating_sub(3)))
                + Seq::new(6, |x: int| if x % 2 == 0 {
                    v.update(x / 2, v[x / 2].saturating_add(1))
                } else {
                    v.update(x / 2, v[x / 2].saturating_sub(1))
                })
                + (match kind {
                    Kind::Rev => seq![seq![i.saturating_add(1), j, l.saturating_sub(1)], seq![i.saturating_sub(1), j, l.saturating_add(1)]],
                    Kind::Period => seq![seq![i.saturating_add(1), j.saturating_sub(1), l], seq![i.saturating_sub(1), j.saturating_add(1), l]],
                    Kind::Border => seq![seq![i, j.saturating_sub(1), l.saturating_sub(1)], seq![i, j.saturating_add(1), l.saturating_add(1)]],
                    _ => Seq::empty(),
                })
                + seq![seq![i / k, j / k, l / k]]
        },
    }
}

pub fn neighbours(kind: Kind, v: &Vec<u64>, k: u64) -> (r: Vec<Vec<u64>>)
    requires
        v@.len() == 3,
        k >= 1,
    ensures
        tuples_of(r@, 3),
        tuple_views(r@) == neighbours_spec(kind, v@, k),
{
    let i = v[0];
    let j = v[1];
    let l = v[2];
    assert(v@ =~= seq![i, j, l]);
    let mut nb: Vec<Vec<u64>> = Vec::new();
    match kind {
        Kind::Fe => {
            let mut d: u64 = 0;
            while d < 7
                invariant
                    d <= 7,
                    tuples_of(nb@, 3),
                    tuple_views(nb@) == Seq::new(d as nat, |e: int| seq![i, j, l.saturating_add(e as u64).saturating_sub(3)]),
                decreases 7 - d,
            {
                let t = vec![i, j, l.saturating_add(d).saturating_sub(3)];
                assert(t@ =~= seq![i, j, l.saturating_add(d).saturating_sub(3)]);
                let ghost before = tuple_views(nb@);
                nb.push(t);
                proof {
                    assert(tuple_views(nb@) =~= before.push(t@));
                }
                d = d + 1;
                proof {
                    assert(tuple_views(nb@) =~= Seq::new(d as nat, |e: int| seq![i, j, l.saturating_add(e as u64).saturating_sub(3)]));
                }
            }
            nb.push(vec![i.saturating_add(1), j.saturating_add(1), l]);
            nb.push(vec![i.saturating_add(1), j.saturating_add(1), l.saturating_sub(1)]);
            nb.push(vec![i.saturating_sub(1), j.saturating_sub(1), l.saturating_add(1)]);
            nb.push(vec![i / k, j / k, l / k]);
            nb.push(vec![i / k, j / k, l]);
            proof {
                assert(tuple_views(nb@) =~~= neighbours_spec(kind, v@, k));
            }
        },
        _ => {
            let r: usize = match kind {
                Kind::Rev => 2,
                Kind::Period => 1,
                Kind::Border => 1,
                _ => 2,
            };
            let ghost ri: int = match kind { Kind::Period => 1, Kind::Border => 1, _ => 2 };
            assert(r as int == ri);
            let mut d: u64 = 0;
            while d < 7
                invariant
                    d <= 7,
                    tuples_of(nb@, 3),
                    r < 3,
                    v@.len() == 3,
                    v@ == seq![i, j, l],
                    tuple_views(nb@) == Seq::new(d as nat, |e: int| v@.update(r as int, v@[r as int].saturating_add(e as u64).saturating_sub(3))),
                decreases 7 - d,
            {
                let mut u = vec![i, j, l];
                u.set(r, v[r].saturating_add(d).saturating_sub(3));
                assert(u@ =~= v@.update(r as int, v@[r as int].saturating_add(d).saturating_sub(3)));
                let ghost before = tuple_views(nb@);
                nb.push(u);
                proof {
                    assert(tuple_views(nb@) =~= before.push(u@));
                }
                d = d + 1;
                proof {
                    assert(tuple_views(nb@) =~= Seq::new(d as nat, |e: int| v@.update(r as int, v@[r as int].saturating_add(e as u64).saturating_sub(3))));
                }
            }
            let ghost p1 = tuple_views(nb@);
            let mut c: usize = 0;
            while c < 3
                invariant
                    c <= 3,
                    tuples_of(nb@, 3),
                    v@.len() == 3,
                    v@ == seq![i, j, l],
                    tuple_views(nb@) == p1 + Seq::new((2 * c) as nat, |x: int| if x % 2 == 0 {
                        v@.update(x / 2, v@[x / 2].saturating_add(1))
                    } else {
                        v@.update(x / 2, v@[x / 2].saturating_sub(1))
                    }),
                decreases 3 - c,
            {
                let mut u = vec![i, j, l];
                u.set(c, v[c].saturating_add(1));
                assert(u@ =~= v@.update(c as int, v@[c as int].saturating_add(1)));
                let ghost b0 = tuple_views(nb@);
                nb.push(u);
                proof {
                    assert(tuple_views(nb@) =~= b0.push(u@));
                }
                let mut u = vec![i, j, l];
                u.set(c, v[c].saturating_sub(1));
                assert(u@ =~= v@.update(c as int, v@[c as int].saturating_sub(1)));
                let ghost b1 = tuple_views(nb@);
                nb.push(u);
                proof {
                    assert(tuple_views(nb@) =~= b1.push(u@));
                }
                c = c + 1;
                proof {
                    assert(tuple_views(nb@) =~= p1 + Seq::new((2 * c) as nat, |x: int| if x % 2 == 0 {
                        v@.update(x / 2, v@[x / 2].saturating_add(1))
                    } else {
                        v@.update(x / 2, v@[x / 2].saturating_sub(1))
                    }));
                }
            }
            match kind {
                Kind::Rev => {
                    nb.push(vec![i.saturating_add(1), j, l.saturating_sub(1)]);
                    nb.push(vec![i.saturating_sub(1), j, l.saturating_add(1)]);
                },
                Kind::Period => {
                    nb.push(vec![i.saturating_add(1), j.saturating_sub(1), l]);
                    nb.push(vec![i.saturating_sub(1), j.saturating_add(1), l]);
                },
                Kind::Border => {
                    nb.push(vec![i, j.saturating_sub(1), l.saturating_sub(1)]);
                    nb.push(vec![i, j.saturating_add(1), l.saturating_add(1)]);
                },
                _ => {},
            }
            nb.push(vec![i / k, j / k, l / k]);
            proof {
                assert(tuple_views(nb@) =~~= neighbours_spec(kind, v@, k));
            }
        },
    }
    nb
}

/// Breadth-first crawl of the neighbourhood of `seeds`, keeping every
/// tuple on which the hypothesis and the oracle disagree; only the seeds and
/// the tuples where they disagree are expanded, and at most `4 * budget`
/// tuples are queued.
fn local_probe(l: &mut Learner, seeds: &Vec<Vec<u64>>, budget: usize) -> (r: Vec<Vec<usize>>)
    requires
        old(l).wf(),
        old(l).pos_ok(),
        old(l).n == 3,
        tuples_of(seeds@, 3),
    ensures
        final(l).wf(),
        final(l).same_shape(old(l)),
        words_over(r@, old(l).alpha as nat),
        old(l).cx.ns is None ==> forall|i: int| 0 <= i < r@.len() ==> old(l).wrong_on(#[trigger] r@[i]@),
{
    let ghost l0 = *l;
    let k = l.k as u64;
    let kind = l.kind;
    let mut out: Vec<Vec<usize>> = Vec::new();
    if seeds.len() == 0 {
        return out;
    }
    let cap4 = match budget.checked_mul(4) {
        Some(x) => x,
        None => usize::MAX,
    };
    let mut seen = crate::nfa::Subsets::new(seeds[0].clone());
    assert(seen.order@[0]@ =~= seeds@[0]@);
    let mut s: usize = 1;
    while s < seeds.len()
        invariant
            seen.wf(),
            tuples_of(seeds@, 3),
            1 <= seen.order@.len() <= s <= seeds@.len(),
            tuples_of(seen.order@, 3),
        decreases seeds@.len() - s,
    {
        let t = seeds[s].clone();
        assert(t@ =~= seeds@[s as int]@);
        if seen.order.len() < u32::MAX as usize - 1 {
            let _ = seen.intern(t);
        }
        s = s + 1;
    }
    let nseeds = seeds.len();
    let mut head: usize = 0;
    while head < seen.order.len() && out.len() < budget
        invariant
            l.wf(),
            l.pos_ok(),
            l.n == 3,
            l.same_shape(&l0),
            k >= 2,
            seen.wf(),
            tuples_of(seen.order@, 3),
            seen.order@.len() <= nseeds + cap4,
            head <= seen.order@.len(),
            words_over(out@, l0.alpha as nat),
            l0 == *old(l),
            l0.wf(),
            l0.cx.ns is None ==> forall|i: int| 0 <= i < out@.len() ==> l0.wrong_on(#[trigger] out@[i]@),
        decreases nseeds + cap4 - head,
    {
        let v = seen.order[head].clone();
        assert(v@ =~= seen.order@[head as int]@);
        head = head + 1;
        let ghost lb = *l;
        let ghost ob = out@;
        let hit = l.try_tuple(&v, &mut out);
            proof {
                if l0.cx.ns is None {
                    assert forall|i: int| 0 <= i < out@.len() implies l0.wrong_on(#[trigger] out@[i]@) by {
                        if i < ob.len() {
                            assert(out@[i] == out@.subrange(0, ob.len() as int)[i]);
                        } else {
                            let w = choose|w: Seq<usize>| #[trigger] encodes(lb.k as nat, scatter(v@, lb.pos@, lb.n as nat, lb.n as nat), w, lb.cx.lsd)
                                && (hit <==> lb.wrong_on(w)) && (hit ==> out@.last()@ == w);
                            Learner::lemma_same_shape_wrong(&lb, &l0, w);
                        }
                    }
                }
            }
        if !hit && head > nseeds {
            continue;
        }
        let nb = neighbours(kind, &v, k);
        let mut x: usize = 0;
        while x < nb.len()
            invariant
                seen.wf(),
                tuples_of(seen.order@, 3),
                tuples_of(nb@, 3),
                seen.order@.len() <= nseeds + cap4,
                head <= seen.order@.len(),
            decreases nb@.len() - x,
        {
            if seen.order.len() < cap4 && seen.order.len() < u32::MAX as usize - 1 {
                let t = nb[x].clone();
                assert(t@ =~= nb@[x as int]@);
                let _ = seen.intern(t);
            }
            x = x + 1;
        }
    }
    out
}


/// Reachable rejecting states of `a`, each with a shortest word reaching
/// it, shortest words first, at most `maxw` of them.
pub fn rejecting_witnesses(a: &Dfa, maxw: usize) -> (r: Vec<Vec<usize>>)
    requires
        a.wf(),
    ensures
        r@.len() <= maxw,
        forall|i: int| 0 <= i < r@.len() ==> word_over(#[trigger] r@[i]@, a.alpha as nat) && !a.accepts(r@[i]@),
        maxw > 0 && r@.len() == 0 ==> forall|w: Seq<usize>| word_over(w, a.alpha as nat) ==> #[trigger] a.accepts(w),
{
    let (prev, psym) = a.bfs_tree();
    let mut all: Vec<Vec<usize>> = Vec::new();
    let mut maxlen: usize = 0;
    let mut s: usize = 0;
    while s < a.nstates
        invariant
            a.wf(),
            s <= a.nstates,
            prev@.len() == a.nstates,
            forall|t: nat| t < a.nstates ==> (prev@[t as int] != u32::MAX <==> #[trigger] a.reachable(t)),
            exists|dep: Seq<nat>| #[trigger] crate::paths::tree_ok(a, prev@, psym@, dep),
            forall|i: int| 0 <= i < all@.len() ==> word_over(#[trigger] all@[i]@, a.alpha as nat) && !a.accepts(all@[i]@)
                && all@[i]@.len() <= maxlen,
            all@.len() == 0 ==> forall|t: int| 0 <= t < s && #[trigger] prev@[t] != u32::MAX ==> a.accept@[t],
        decreases a.nstates - s,
    {
        if !a.accept[s] {
            match a.word_to(prev.as_slice(), psym.as_slice(), s) {
                Some(w) => {
                    if w.len() > maxlen {
                        maxlen = w.len();
                    }
                    all.push(w);
                },
                None => {},
            }
        }
        s = s + 1;
    }
    proof {
        if all@.len() == 0 {
            assert forall|w: Seq<usize>| word_over(w, a.alpha as nat) implies #[trigger] a.accepts(w) by {
                let t = a.run_from(0, w);
                crate::dfa::lemma_trun(a.trans@, a.nstates as nat, a.alpha as nat, 0, w);
                assert(a.reachable(t));
                assert(prev@[t as int] != u32::MAX);
            }
        }
    }
    let mut out: Vec<Vec<usize>> = Vec::new();
    let mut len: usize = 0;
    loop
        invariant_except_break
            len <= maxlen,
        invariant
            out@.len() <= maxw,
            forall|i: int| 0 <= i < all@.len() ==> word_over(#[trigger] all@[i]@, a.alpha as nat) && !a.accepts(all@[i]@),
            forall|i: int| 0 <= i < out@.len() ==> word_over(#[trigger] out@[i]@, a.alpha as nat) && !a.accepts(out@[i]@),
            out@.len() == 0 && maxw > 0 ==> forall|x: int| 0 <= x < all@.len() ==> (#[trigger] all@[x]@).len() >= len,
            forall|i: int| 0 <= i < all@.len() ==> (#[trigger] all@[i]@).len() <= maxlen,
            all@.len() == 0 ==> forall|w: Seq<usize>| word_over(w, a.alpha as nat) ==> #[trigger] a.accepts(w),
        ensures
            out@.len() == 0 && maxw > 0 ==> forall|x: int| 0 <= x < all@.len() ==> (#[trigger] all@[x]@).len() > maxlen,
        decreases maxlen - len,
    {
        if out.len() >= maxw {
            break;
        }
        let mut i: usize = 0;
        while i < all.len() && out.len() < maxw
            invariant
                out@.len() <= maxw,
                i <= all@.len(),
                forall|x: int| 0 <= x < all@.len() ==> word_over(#[trigger] all@[x]@, a.alpha as nat) && !a.accepts(all@[x]@),
                forall|x: int| 0 <= x < out@.len() ==> word_over(#[trigger] out@[x]@, a.alpha as nat) && !a.accepts(out@[x]@),
                out@.len() == 0 && maxw > 0 ==> forall|x: int| 0 <= x < all@.len() ==> (#[trigger] all@[x]@).len() >= len,
                out@.len() == 0 && maxw > 0 ==> forall|x: int| 0 <= x < i ==> (#[trigger] all@[x]@).len() != len,
            decreases all@.len() - i,
        {
            if all[i].len() == len {
                out.push(copy_word(&all[i]));
            }
            i = i + 1;
        }
        if len >= maxlen {
            break;
        }
        len = len + 1;
    }
    proof {
        if out@.len() == 0 && maxw > 0 && all@.len() > 0 {
            assert(all@[0]@.len() > maxlen);
        }
    }
    out
}

/// The value bound to `x` by the first entry of `env` that names it.
pub open spec fn env_get(env: Seq<(String, i64)>, x: Seq<char>) -> Option<i64>
    decreases env.len(),
{
    if env.len() == 0 {
        None
    } else if env[0].0@ == x {
        Some(env[0].1)
    } else {
        env_get(env.drop_first(), x)
    }
}

/// `env_get`, computed.
fn env_lookup(env: &Vec<(String, i64)>, x: &str) -> (r: Option<i64>)
    ensures
        r == env_get(env@, x@),
{
    let mut i: usize = 0;
    assert(env@.skip(0) =~= env@);
    while i < env.len()
        invariant
            i <= env@.len(),
            env_get(env@, x@) == env_get(env@.skip(i as int), x@),
        decreases env@.len() - i,
    {
        proof {
            assert(env@.skip(i as int).drop_first() =~= env@.skip(i + 1));
        }
        if crate::strs::str_eq(env[i].0.as_str(), x) {
            return Some(env[i].1);
        }
        i = i + 1;
    }
    None
}

/// `c` plus the terms of a coefficient list under `env`, summed left to right
/// in `i64`: `None` when a variable is unbound or a product or a partial sum
/// leaves `i64`.
pub open spec fn lin_run(coef: Seq<(String, i64)>, env: Seq<(String, i64)>, c: i64) -> Option<i64>
    decreases coef.len(),
{
    if coef.len() == 0 {
        Some(c)
    } else {
        match lin_run(coef.drop_last(), env, c) {
            Some(v) => match env_get(env, coef.last().0@) {
                Some(x) => {
                    let p = coef.last().1 * x;
                    if i64::MIN <= p <= i64::MAX && i64::MIN <= v + p <= i64::MAX {
                        Some((v + p) as i64)
                    } else {
                        None
                    }
                },
                None => None,
            },
            None => None,
        }
    }
}

/// A failed prefix fails the whole sum.
pub proof fn lemma_lin_run_none(coef: Seq<(String, i64)>, env: Seq<(String, i64)>, c: i64, i: int)
    requires
        0 <= i <= coef.len(),
        lin_run(coef.take(i), env, c) is None,
    ensures
        lin_run(coef, env, c) is None,
    decreases coef.len() - i,
{
    if i == coef.len() {
        assert(coef.take(i) =~= coef);
    } else {
        assert(coef.take(i + 1).drop_last() =~= coef.take(i));
        lemma_lin_run_none(coef, env, c, i + 1);
    }
}

/// The value of a linear term under `env` (see `lin_run`).
pub fn lin_eval(t: &Lin, env: &Vec<(String, i64)>) -> (r: Option<i64>)
    ensures
        r == lin_run(t.coef@, env@, t.c),
{
    let mut v: i64 = t.c;
    let mut i: usize = 0;
    proof {
        assert(t.coef@.take(0) =~= Seq::<(String, i64)>::empty());
    }
    while i < t.coef.len()
        invariant
            i <= t.coef@.len(),
            lin_run(t.coef@.take(i as int), env@, t.c) == Some(v),
        decreases t.coef@.len() - i,
    {
        proof {
            assert(t.coef@.take(i + 1).drop_last() =~= t.coef@.take(i as int));
            assert(t.coef@.take(i + 1).last() == t.coef@[i as int]);
        }
        let x = match env_lookup(env, t.coef[i].0.as_str()) {
            Some(x) => x,
            None => {
                proof { lemma_lin_run_none(t.coef@, env@, t.c, i + 1); }
                return None;
            },
        };
        let c = t.coef[i].1;
        let p = match c.checked_mul(x) {
            Some(p) => p,
            None => {
                proof { lemma_lin_run_none(t.coef@, env@, t.c, i + 1); }
                return None;
            },
        };
        let nv = match v.checked_add(p) {
            Some(nv) => nv,
            None => {
                proof { lemma_lin_run_none(t.coef@, env@, t.c, i + 1); }
                return None;
            },
        };
        v = nv;
        i = i + 1;
    }
    proof {
        assert(t.coef@.take(t.coef@.len() as int) =~= t.coef@);
    }
    Some(v)
}

/// The values of argument terms under `env`, when each has one and none is
/// negative.
pub open spec fn args_run(args: Seq<Lin>, env: Seq<(String, i64)>) -> Option<Seq<u64>>
    decreases args.len(),
{
    if args.len() == 0 {
        Some(Seq::empty())
    } else {
        match args_run(args.drop_last(), env) {
            Some(t) => match lin_run(args.last().coef@, env, args.last().c) {
                Some(v) => if v >= 0 { Some(t.push(v as u64)) } else { None },
                None => None,
            },
            None => None,
        }
    }
}

/// A failed prefix fails the whole list.
pub proof fn lemma_args_run_none(args: Seq<Lin>, env: Seq<(String, i64)>, i: int)
    requires
        0 <= i <= args.len(),
        args_run(args.take(i), env) is None,
    ensures
        args_run(args, env) is None,
    decreases args.len() - i,
{
    if i == args.len() {
        assert(args.take(i) =~= args);
    } else {
        assert(args.take(i + 1).drop_last() =~= args.take(i));
        lemma_args_run_none(args, env, i + 1);
    }
}

/// The argument tuples of the calls of `name` in `a`, in syntax order,
/// keeping those whose arguments all have non-negative values.
pub open spec fn calls_of(a: Ast, name: Seq<char>, env: Seq<(String, i64)>) -> Seq<Seq<u64>>
    decreases a,
{
    match a {
        Ast::Call(nm, args) => if nm@ == name {
            match args_run(args@, env) {
                Some(t) => seq![t],
                None => Seq::empty(),
            }
        } else {
            Seq::empty()
        },
        Ast::Not(x) => calls_of(*x, name, env),
        Ast::And(x, y) => calls_of(*x, name, env) + calls_of(*y, name, env),
        Ast::Or(x, y) => calls_of(*x, name, env) + calls_of(*y, name, env),
        Ast::Imp(x, y) => calls_of(*x, name, env) + calls_of(*y, name, env),
        Ast::Iff(x, y) => calls_of(*x, name, env) + calls_of(*y, name, env),
        Ast::Forall(_, x) => calls_of(*x, name, env),
        Ast::Exists(_, x) => calls_of(*x, name, env),
        _ => Seq::empty(),
    }
}

/// The tuples held, each by its values.
pub open spec fn tuple_views(v: Seq<Vec<u64>>) -> Seq<Seq<u64>> {
    v.map_values(|t: Vec<u64>| t@)
}

/// For each call of `name` in `a`, in syntax order, the tuple of its
/// arguments' values under `env`, when every argument has a value and
/// none is negative.
fn call_tuples(a: &Ast, name: &str, env: &Vec<(String, i64)>, out: &mut Vec<Vec<u64>>)
    ensures
        tuple_views(final(out)@) == tuple_views(old(out)@) + calls_of(*a, name@, env@),
    decreases a,
{
    match a {
        Ast::Call(nm, args) => {
            if crate::strs::str_eq(nm.as_str(), name) {
                let mut t: Vec<u64> = Vec::new();
                let mut i: usize = 0;
                proof {
                    assert(args@.take(0) =~= Seq::<Lin>::empty());
                }
                let ghost want = calls_of(*a, name@, env@);
                assert(want == match args_run(args@, env@) {
                    Some(t) => seq![t],
                    None => Seq::<Seq<u64>>::empty(),
                });
                while i < args.len()
                    invariant
                        i <= args@.len(),
                        out@ == old(out)@,
                        want == calls_of(*a, name@, env@),
                        want == match args_run(args@, env@) {
                            Some(t) => seq![t],
                            None => Seq::<Seq<u64>>::empty(),
                        },
                        args_run(args@.take(i as int), env@) == Some(t@),
                    decreases args@.len() - i,
                {
                    proof {
                        assert(args@.take(i + 1).drop_last() =~= args@.take(i as int));
                        assert(args@.take(i + 1).last() == args@[i as int]);
                    }
                    match lin_eval(&args[i], env) {
                        Some(v) => {
                            if v < 0 {
                                proof {
                                    lemma_args_run_none(args@, env@, i + 1);
                                    assert(tuple_views(out@) =~= tuple_views(old(out)@) + calls_of(*a, name@, env@));
                                }
                                return;
                            }
                            t.push(v as u64);
                        },
                        None => {
                            proof {
                                lemma_args_run_none(args@, env@, i + 1);
                                assert(tuple_views(out@) =~= tuple_views(old(out)@) + calls_of(*a, name@, env@));
                            }
                            return;
                        },
                    }
                    i = i + 1;
                }
                proof {
                    assert(args@.take(args@.len() as int) =~= args@);
                }
                out.push(t);
                proof {
                    assert(tuple_views(out@) =~= tuple_views(old(out)@) + calls_of(*a, name@, env@));
                }
            } else {
                proof {
                    assert(tuple_views(out@) =~= tuple_views(old(out)@) + calls_of(*a, name@, env@));
                }
            }
        },
        Ast::Not(x) => call_tuples(x, name, env, out),
        Ast::And(x, y) | Ast::Or(x, y) | Ast::Imp(x, y) | Ast::Iff(x, y) => {
            call_tuples(x, name, env, out);
            call_tuples(y, name, env, out);
            proof {
                assert(tuple_views(out@) =~= tuple_views(old(out)@) + calls_of(*a, name@, env@));
            }
        },
        Ast::Forall(_, x) | Ast::Exists(_, x) => call_tuples(x, name, env, out),
        _ => {
            proof {
                assert(tuple_views(out@) =~= tuple_views(old(out)@) + calls_of(*a, name@, env@));
            }
        },
    }
}

/// `r` is `defs` with the recurrence's predicate bound to `params` and `hyp`
/// at index `j`: the first entry of that name, or a new last entry.
pub open spec fn binds_hole(defs: &Defs, r: &Defs, params: Seq<String>, hyp: &Dfa, j: int) -> bool {
    let n = defs.entries@.len() as int;
    &&& 0 <= j <= n
    &&& r.entries@.len() == if j < n { n } else { n + 1 }
    &&& forall|x: int| 0 <= x < j ==> (#[trigger] defs.entries@[x]).name@ != HOLE@
    &&& j < n ==> defs.entries@[j].name@ == HOLE@
    &&& r.entries@[j].name@ == HOLE@ && r.entries@[j].params@ == params && r.entries@[j].body.eqv(hyp)
    &&& forall|x: int| 0 <= x < n && x != j ==> (#[trigger] r.entries@[x]).name@ == defs.entries@[x].name@
        && r.entries@[x].params@ == defs.entries@[x].params@ && r.entries@[x].body.eqv(&defs.entries@[x].body)
}

/// The predicates `defs` with the recurrence's own predicate bound to `hyp`.
fn with_hole(defs: &Defs, params: &Vec<String>, hyp: &Dfa, Ghost(k): Ghost<nat>) -> (r: Defs)
    requires
        defs.wf(k),
        hyp.wf(),
        hyp.k == k,
    ensures
        r.wf(k),
        exists|j: int| #[trigger] binds_hole(defs, &r, params@, hyp, j),
{
    let mut d2 = defs.copy();
    let ghost dd = d2;
    let h = hyp.dup();
    let j = d2.insert(crate::strs::str_to_string(HOLE), crate::strs::copy_names(params), h);
    proof {
        assert forall|i: int| 0 <= i < d2.entries@.len() implies (#[trigger] d2.entries@[i]).body.wf()
            && d2.entries@[i].body.k == k by {
            if i != j {
                assert(d2.entries@[i] == dd.entries@[i]);
                assert(defs.entries@[i].body.wf());
                assert(dd.entries@[i].body.eqv(&defs.entries@[i].body));
            }
        }
        assert forall|x: int| 0 <= x < j implies (#[trigger] defs.entries@[x]).name@ != HOLE@ by {
            assert(dd.entries@[x].name@ == defs.entries@[x].name@);
        }
        if j < dd.entries@.len() {
            assert(dd.entries@[j as int].name@ == defs.entries@[j as int].name@);
        }
        assert forall|x: int| 0 <= x < defs.entries@.len() && x != j implies (#[trigger] d2.entries@[x]).name@ == defs.entries@[x].name@
            && d2.entries@[x].params@ == defs.entries@[x].params@ && d2.entries@[x].body.eqv(&defs.entries@[x].body) by {
            assert(d2.entries@[x] == dd.entries@[x]);
        }
        assert(binds_hole(defs, &d2, params@, hyp, j as int));
    }
    d2
}

/// An environment taken by its names.
pub open spec fn env_views(env: Seq<(String, i64)>) -> Seq<(Seq<char>, i64)> {
    env.map_values(|p: (String, i64)| (p.0@, p.1))
}

/// The value bound to `x` by the first entry that names it.
pub open spec fn get_v(env: Seq<(Seq<char>, i64)>, x: Seq<char>) -> Option<i64>
    decreases env.len(),
{
    if env.len() == 0 {
        None
    } else if env[0].0 == x {
        Some(env[0].1)
    } else {
        get_v(env.drop_first(), x)
    }
}

/// `env_get` looks at names only.
pub proof fn lemma_env_get_views(env: Seq<(String, i64)>, x: Seq<char>)
    ensures
        env_get(env, x) == get_v(env_views(env), x),
    decreases env.len(),
{
    if env.len() > 0 {
        assert(env_views(env).drop_first() =~= env_views(env.drop_first()));
        lemma_env_get_views(env.drop_first(), x);
    }
}

/// `env` with each of the first `m` parameters that it does not bind bound to 0.
pub open spec fn fill(env: Seq<(Seq<char>, i64)>, params: Seq<Seq<char>>, m: nat) -> Seq<(Seq<char>, i64)>
    decreases m,
{
    if m == 0 {
        env
    } else {
        let e = fill(env, params, (m - 1) as nat);
        if get_v(e, params[m - 1]) is None { e.push((params[m - 1], 0)) } else { e }
    }
}

/// Each track's name of `a` bound to the value the word `w` spells on it.
pub open spec fn track_env(a: &Dfa, w: Seq<usize>, lsd: bool) -> Seq<(Seq<char>, i64)> {
    Seq::new(a.vars@.len(), |j: int| (names(a.vars@)[j],
        (crate::base::val(crate::base::track(w, j as nat, a.k as nat), a.k as nat, lsd) as u64) as i64))
}

/// The environment of a word `w` of `a` (plain digits): each track's name
/// bound to the value it spells, then the parameters it lacks bound to 0.
pub open spec fn word_env(a: &Dfa, w: Seq<usize>, params: Seq<Seq<char>>, lsd: bool) -> Seq<(Seq<char>, i64)> {
    fill(track_env(a, w, lsd), params, params.len())
}

/// The argument tuples of the calls of the recurrence's predicate in `ast`,
/// at the values that the word `w` of `a` spells (parameters that `a` does
/// not carry count as 0).
fn tuples_at(ast: &Ast, a: &Dfa, w: &Vec<usize>, params: &Vec<String>, k: usize, cx: &Ctx, bad: &mut Vec<Vec<u64>>)
    requires
        2 <= k <= MAX_ALPHA,
        a.wf(),
        a.k == k,
        cx.wf(),
        cx.fits(k as nat),
    ensures
        cx.ns is None ==> ({
            let decodable = (cx.lsd ==> (w@.len() == 0 || spow(k as nat, (w@.len() - 1) as nat) <= u64::MAX))
                && forall|c: nat| c < a.vars@.len() ==> #[trigger] crate::base::val(crate::base::track(w@, c, k as nat), k as nat, cx.lsd) <= u64::MAX;
            &&& decodable ==> exists|env: Seq<(String, i64)>| #[trigger] env_views(env) == word_env(a, w@, names(params@), cx.lsd)
                && tuple_views(final(bad)@) == tuple_views(old(bad)@) + calls_of(*ast, HOLE@, env)
            &&& !decodable ==> final(bad)@ == old(bad)@
        }),
{
    let vals = match crate::learn::decode(k, a.vars.len(), w.as_slice(), cx) {
        Some(v) => v,
        None => {
            return;
        },
    };
    let mut env: Vec<(String, i64)> = Vec::new();
    let mut j: usize = 0;
    while j < a.vars.len() && j < vals.len()
        invariant
            j <= a.vars@.len(),
            vals@.len() == a.vars@.len(),
            cx.ns is None ==> forall|c: int| 0 <= c < a.vars@.len() ==> #[trigger] vals@[c] as int
                == crate::base::val(crate::base::track(w@, c as nat, k as nat), k as nat, cx.lsd),
            a.k == k,
            cx.ns is None ==> env_views(env@) == track_env(a, w@, cx.lsd).take(j as int),
        decreases a.vars@.len() - j,
    {
        let nm = str_to_string(a.vars[j].as_str());
        let ghost before = env@;
        env.push((nm, vals[j] as i64));
        proof {
            if cx.ns is None {
                assert(env_views(env@) =~= env_views(before).push((a.vars@[j as int]@, vals@[j as int] as i64)));
                assert(names(a.vars@)[j as int] == a.vars@[j as int]@);
                let x = crate::base::val(crate::base::track(w@, j as nat, a.k as nat), a.k as nat, cx.lsd);
                assert(x == vals@[j as int] as int);
                assert((x as u64) == vals@[j as int]);
                assert(track_env(a, w@, cx.lsd)[j as int] == (names(a.vars@)[j as int], vals@[j as int] as i64));
                assert(env_views(env@) =~= track_env(a, w@, cx.lsd).take(j + 1));
            }
        }
        j = j + 1;
    }
    proof {
        assert(track_env(a, w@, cx.lsd).take(j as int) =~= track_env(a, w@, cx.lsd));
    }
    let mut p: usize = 0;
    while p < params.len()
        invariant
            p <= params@.len(),
            cx.ns is None ==> env_views(env@) == fill(track_env(a, w@, cx.lsd), names(params@), p as nat),
        decreases params@.len() - p,
    {
        proof {
            lemma_env_get_views(env@, params@[p as int]@);
            assert(names(params@)[p as int] == params@[p as int]@);
        }
        if env_lookup(&env, params[p].as_str()).is_none() {
            let ghost before = env@;
            env.push((str_to_string(params[p].as_str()), 0));
            proof {
                assert(env_views(env@) =~= env_views(before).push((params@[p as int]@, 0)));
            }
        }
        p = p + 1;
    }
    call_tuples(ast, HOLE, &env, bad);
    proof {
        if cx.ns is None {
            assert(env_views(env@) == word_env(a, w@, names(params@), cx.lsd));
        }
    }
}

/// Check every sentence of the recurrence against the hypothesis bound to
/// the recurrence's predicate. `Ok` when no sentence has a rejecting word;
/// otherwise the argument tuples of the predicate's calls at the shortest
/// rejecting words (empty when a sentence does not compile).
fn check_recurrence(seq: &Dfao, defs: &Defs, spec: &Spec, hyp: &Dfa, k: usize, maxw: usize, cx: &Ctx)
    -> (r: Result<(), Vec<Vec<u64>>>)
    requires
        2 <= k <= MAX_ALPHA,
        k * k * k <= MAX_ALPHA,
        seq.wf(),
        seq.k == k,
        seq.zero_stable_spec(cx.lsd),
        cx.wf(),
        cx.fits(k as nat),
        defs.wf(k as nat),
        spec.wf(),
        hyp.wf(),
        hyp.k == k,
{
    let d2 = with_hole(defs, &spec.params, hyp, Ghost(k as nat));
    let mut bad: Vec<Vec<u64>> = Vec::new();
    let mut si: usize = 0;
    while si < spec.sentences.len()
        invariant
            2 <= k <= MAX_ALPHA,
            k * k * k <= MAX_ALPHA,
            seq.wf(),
            seq.k == k,
            seq.zero_stable_spec(cx.lsd),
            cx.wf(),
            cx.fits(k as nat),
            d2.wf(k as nat),
            spec.wf(),
        decreases spec.sentences@.len() - si,
    {
        let ast = &spec.sentences[si].1;
        let mut c = Compiler::new(k, seq, &d2, cx);
        let a = match c.compile(ast) {
            Ok(a) => a,
            Err(_) => {
                return Err(Vec::new());
            },
        };
        let ws = rejecting_witnesses(&a, maxw);
        let mut wi: usize = 0;
        while wi < ws.len()
            invariant
                2 <= k <= MAX_ALPHA,
                a.wf(),
                a.k == k,
                cx.wf(),
                cx.fits(k as nat),
            decreases ws@.len() - wi,
        {
            tuples_at(ast, &a, &ws[wi], &spec.params, k, cx, &mut bad);
            wi = wi + 1;
        }
        si = si + 1;
    }
    if bad.len() == 0 {
        Ok(())
    } else {
        Err(bad)
    }
}

/// What a learning run reached and what it cost.
pub struct LearnStats {
    pub states: usize,
    pub iters: usize,
    pub eqs: usize,
    pub ces: usize,
    pub mqs: u64,
    pub steps: u64,
    pub assumed_inf: u64,
}

impl<'a> Learner<'a> {
    /// `room`, computed.
    fn has_room(&self) -> (r: bool)
        ensures
            r == self.room(),
    {
        let n = self.access.len() as u128;
        let ghost big: int = 0x1_0000_0000_0000_0000int;
        assert((n + 1) * (self.alpha as u128) <= big * (big - 1)) by (nonlinear_arith)
            requires
                n + 1 <= big,
                0 <= self.alpha <= big - 1,
                0 <= n;
        assert(big * (big - 1) < 0x1_0000_0000_0000_0000_0000_0000_0000_0000int);
        (n + 2 < u32::MAX as u128) && ((n + 1) * (self.alpha as u128) <= u32::MAX as u128)
            && (self.nodes.len() as u128) + 2 < usize::MAX as u128
    }

    /// Hand each word to the counterexample decomposition; `Some(progress)`
    /// unless the tables ran out of room.
    fn process_all(&mut self, all: &Vec<Vec<usize>>) -> (r: Option<bool>)
        requires
            old(self).wf(),
            words_over(all@, old(self).alpha as nat),
        ensures
            final(self).wf(),
            final(self).same_env(old(self)),
            final(self).access@.len() >= old(self).access@.len(),
            r matches Some(p) ==> (p <==> final(self).access@.len() > old(self).access@.len()),
            r is None ==> !final(self).room(),
    {
        let ghost s0 = *self;
        let mut progress = false;
        let mut i: usize = 0;
        while i < all.len()
            invariant
                self.wf(),
                self.same_env(&s0),
                s0 == *old(self),
                self.access@.len() >= s0.access@.len(),
                progress <==> self.access@.len() > s0.access@.len(),
                words_over(all@, s0.alpha as nat),
            decreases all@.len() - i,
        {
            if !self.has_room() {
                return None;
            }
            if self.process_ce(&all[i]) {
                progress = true;
            }
            i = i + 1;
        }
        Some(progress)
    }
}

/// The error for tables that outgrew their limits.
fn too_large() -> (r: String)
    ensures
        r@ == "automaton too large"@,
{
    str_to_string("automaton too large")
}

/// One learning run at oracle cap `hardcap`: sampling rounds until they stop
/// finding counterexamples, then the recurrence check, until the check
/// passes. The flag of an error says whether a larger cap may help.
#[verifier::rlimit(50)]
fn learn_once(seq: &Dfao, defs: &Defs, spec: &Spec, hardcap: u64, cfg: &LearnConfig, cx: &Ctx)
    -> (r: Result<(Dfa, LearnStats), (String, bool)>)
    requires
        seq.wf(),
        defs.wf(seq.k as nat),
        spec.wf(),
        cx.wf(),
    ensures
        r matches Ok((d, _)) ==> d.wf() && d.k == seq.k && d.vars@.len() == spec.params@.len(),
        spec.kind is Custom ==> r is Err,
{
    let k = seq.k;
    let n = spec.params.len();
    if let Kind::Custom = spec.kind {
        return Err((str_to_string("custom recurrences are not supported"), false));
    }
    if k < 2 || k > MAX_ALPHA || n != 3 || crate::ops::pow_capped(k, n).is_none() || crate::ops::pow_capped(k, 3).is_none() {
        let mut m: Vec<char> = Vec::new();
        push_str(&mut m, "base ");
        push_num(&mut m, k);
        push_str(&mut m, " too large for a ");
        push_num(&mut m, n);
        push_str(&mut m, "-track alphabet");
        return Err((string_of(m.as_slice()), false));
    }
    if !cx.fits_k(k) {
        return Err((str_to_string("the numeration system is not in this base"), false));
    }
    if !seq.zero_stable(cx.lsd) {
        return Err((str_to_string("the sequence is not robust under padding"), false));
    }
    proof {
        assert(k * k * k == spow(k as nat, 3)) by {
            reveal_with_fuel(spow, 4);
            assert(k * (k * (k * 1)) == k * k * k) by (nonlinear_arith);
        }
    }
    let or = Oracle::for_kind(seq, hardcap, spec.kind, spec.pos.clone());
    let mut l = match Learner::new(or, cx, spec) {
        Some(l) => l,
        None => {
            return Err((too_large(), false));
        },
    };
    let maxdig0 = match cfg.digits {
        Some(d) => d,
        None => default_digits(k),
    };
    let maxdig = if maxdig0 < 1 { 1 } else if maxdig0 > 62 { 62 } else { maxdig0 };
    let maxiter = if cfg.iters < usize::MAX - 4 { cfg.iters } else { usize::MAX - 4 };
    let mut rng = Rng { state: 0x9E37_79B9_7F4A_7C15 };
    let mut iters: usize = 0;
    let mut eqs: usize = 0;
    loop
        invariant
            l.wf(),
            l.pos_ok(),
            l.n == 3,
            l.k == k,
            l.cx == cx,
            l.kind == spec.kind,
            spec.wf(),
            seq.wf(),
            seq.k == k,
            seq.zero_stable_spec(cx.lsd),
            cx.wf(),
            cx.fits(k as nat),
            defs.wf(k as nat),
            2 <= k,
            k * k * k <= MAX_ALPHA,
            1 <= maxdig <= 62,
            iters <= maxiter,
            maxiter < usize::MAX - 3,
            !(spec.kind is Custom),
            spec.params@.len() == 3,
        decreases maxiter + 1 - iters,
    {
        let ghost it0 = iters;
        loop
            invariant_except_break
                iters <= maxiter,
            invariant
                l.wf(),
                l.pos_ok(),
                l.n == 3,
                l.k == k,
                l.cx == cx,
                l.kind == spec.kind,
                1 <= maxdig <= 62,
                maxiter < usize::MAX - 3,
                iters >= it0,
            ensures
                iters <= maxiter + 1,
            decreases maxiter + 1 - iters,
        {
            let want = 64 + l.nstates() / 2;
            let batch = sample_ces(&mut l, &mut rng, cfg.samples, maxdig, want);
            if batch.len() == 0 {
                break;
            }
            let mut seeds: Vec<Vec<u64>> = Vec::new();
            let mut b: usize = 0;
            while b < batch.len()
                invariant
                    l.wf(),
                    l.pos_ok(),
                    l.n == 3,
                    tuples_of(seeds@, 3),
                decreases batch@.len() - b,
            {
                match l.dec(&batch[b]) {
                    Some(v) => seeds.push(v),
                    None => {},
                }
                b = b + 1;
            }
            let mut all = local_probe(&mut l, &seeds, cfg.probe);
            let mut b: usize = 0;
            while b < batch.len()
                invariant
                    words_over(all@, l.alpha as nat),
                    words_over(batch@, l.alpha as nat),
                decreases batch@.len() - b,
            {
                all.push(copy_word(&batch[b]));
                b = b + 1;
            }
            let progress = match l.process_all(&all) {
                Some(p) => p,
                None => {
                    return Err((too_large(), false));
                },
            };
            iters = iters + 1;
            if !progress || iters > maxiter {
                break;
            }
        }
        eqs = if eqs < usize::MAX { eqs + 1 } else { eqs };
        let hyp = match l.to_dfa() {
            Some(h) => h,
            None => {
                return Err((too_large(), false));
            },
        };
        match check_recurrence(seq, defs, spec, &hyp, k, cfg.witnesses, cx) {
            Ok(()) => {
                let st = LearnStats {
                    states: hyp.nstates,
                    iters,
                    eqs,
                    ces: l.nstates() - 1,
                    mqs: l.or.mqs,
                    steps: l.or.steps,
                    assumed_inf: l.or.assumed_inf,
                };
                return Ok((hyp, st));
            },
            Err(bad) => {
                if bad.len() == 0 {
                    return Err((str_to_string("verification formula failed to compile"), false));
                }
                let mut tuples: Vec<Vec<u64>> = Vec::new();
                let mut b: usize = 0;
                while b < bad.len()
                    invariant
                        tuples_of(tuples@, 3),
                    decreases bad@.len() - b,
                {
                    if bad[b].len() == 3 {
                        let t = bad[b].clone();
                        assert(t@ =~= bad@[b as int]@);
                        tuples.push(t);
                    }
                    b = b + 1;
                }
                let mut all = local_probe(&mut l, &tuples, cfg.probe);
                let mut b: usize = 0;
                while b < tuples.len()
                    invariant
                        l.wf(),
                        l.pos_ok(),
                        l.n == 3,
                        tuples_of(tuples@, 3),
                        words_over(all@, l.alpha as nat),
                    decreases tuples@.len() - b,
                {
                    let w = l.enc(&tuples[b]);
                    all.push(w);
                    b = b + 1;
                }
                let progress = match l.process_all(&all) {
                    Some(p) => p,
                    None => {
                        return Err((too_large(), false));
                    },
                };
                iters = iters + 1;
                if !progress {
                    let mut m: Vec<char> = Vec::new();
                    push_str(&mut m, "no progress: ");
                    push_num(&mut m, bad.len());
                    push_str(&mut m, " recurrence witnesses, none is a counterexample to the hypothesis at cap ");
                    push_u64(&mut m, hardcap);
                    return Err((string_of(m.as_slice()), true));
                }
                if iters > maxiter {
                    let mut m: Vec<char> = Vec::new();
                    push_str(&mut m, "gave up after ");
                    push_num(&mut m, iters);
                    push_str(&mut m, " iterations");
                    return Err((string_of(m.as_slice()), false));
                }
            },
        }
    }
}

/// Append the decimal digits of a `u64`.
fn push_u64(out: &mut Vec<char>, n: u64)
    ensures
        final(out)@ == old(out)@ + crate::strs::dec_text(n as nat),
    decreases n,
{
    if n <= usize::MAX as u64 {
        push_num(out, n as usize);
    } else {
        push_u64(out, n / 10);
        push_num(out, (n % 10) as usize);
        proof {
            assert(crate::strs::dec_text((n % 10) as nat) =~= seq![crate::strs::digit_of((n % 10) as nat)]);
            assert(crate::strs::dec_text(n as nat) == crate::strs::dec_text((n / 10) as nat).push(crate::strs::digit_of((n % 10) as nat)));
            assert(out@ =~= old(out)@ + crate::strs::dec_text(n as nat));
        }
    }
}

/// Learn the predicate of `spec`, raising the oracle's cap sixteenfold
/// (up to `cfg.max_cap`) and starting afresh whenever a run stalls on a cap
/// that is too coarse.
pub fn learn_pred(seq: &Dfao, defs: &Defs, spec: &Spec, cfg: &LearnConfig, cx: &Ctx)
    -> (r: Result<(Dfa, LearnStats), String>)
    requires
        seq.wf(),
        defs.wf(seq.k as nat),
        spec.wf(),
        cx.wf(),
    ensures
        r matches Ok((d, _)) ==> d.wf() && d.k == seq.k && d.vars@.len() == spec.params@.len(),
        spec.kind is Custom ==> r is Err,
{
    let ceiling = cfg.max_cap;
    let mut cap: u64 = if cfg.start_cap < 1 { 1 } else { cfg.start_cap };
    loop
        invariant
            seq.wf(),
            defs.wf(seq.k as nat),
            spec.wf(),
            cx.wf(),
            cap >= 1,
        decreases u64::MAX - cap,
    {
        match learn_once(seq, defs, spec, cap, cfg, cx) {
            Ok(r) => {
                return Ok(r);
            },
            Err((msg, retry)) => {
                if !retry || cap >= ceiling {
                    return Err(msg);
                }
                let up = match cap.checked_mul(16) {
                    Some(x) => x,
                    None => u64::MAX,
                };
                cap = if up < ceiling { up } else { ceiling };
            },
        }
    }
}

/// Learn the equal-factor predicate `FE(i, j, n)` with the default settings.
pub fn learn_fe(seq: &Dfao, defs: &Defs, cx: &Ctx) -> (r: Result<(Dfa, LearnStats), String>)
    requires
        seq.wf(),
        defs.wf(seq.k as nat),
        cx.wf(),
    ensures
        r matches Ok((d, _)) ==> d.wf() && d.k == seq.k && d.vars@.len() == 3,
{
    let spec = Spec::builtin(Kind::Fe)?;
    let cfg = LearnConfig::defaults();
    learn_pred(seq, defs, &spec, &cfg, cx)
}

/// The usage line of `learn`.
pub const LEARN_USAGE: &'static str = "usage: learn NAME fe|rev|period|border  |  learn NAME (v1,..,vn) [on:v] init:FORMULA step:FORMULA";

/// Run a `learn` command line (what follows the word `learn`): the name to
/// bind, its parameters, the automaton, and the reply line.
pub fn cmd_learn(seq: &Dfao, defs: &Defs, rest: &str, cfg: &LearnConfig, cx: &Ctx)
    -> (r: Result<(String, Vec<String>, Dfa, String), String>)
    requires
        seq.wf(),
        defs.wf(seq.k as nat),
        cx.wf(),
    ensures
        r matches Ok((_, ps, d, _)) ==> d.wf() && d.k == seq.k && ps@.len() == 3,
{
    let cs = str_chars(rest);
    let toks = crate::walnut::tokens(&cs, 0, cs.len());
    if toks.len() < 2 {
        return Err(str_to_string(LEARN_USAGE));
    }
    let name = string_of(crate::walnut::slice_of(&cs, toks[0].0, toks[0].1).as_slice());
    if cs[toks[1].0] == '(' {
        return Err(str_to_string("custom recurrences (init:/step:) are not supported"));
    }
    let word = string_of(crate::walnut::slice_of(&cs, toks[1].0, toks[1].1).as_slice());
    let kind = match Kind::parse(word.as_str()) {
        Some(k) => k,
        None => {
            let mut m: Vec<char> = Vec::new();
            push_str(&mut m, "unknown kind \"");
            push_str(&mut m, word.as_str());
            push_str(&mut m, "\"; ");
            push_str(&mut m, LEARN_USAGE);
            return Err(string_of(m.as_slice()));
        },
    };
    let spec = Spec::builtin(kind)?;
    let (a, st) = learn_pred(seq, defs, &spec, cfg, cx)?;
    let mut m: Vec<char> = Vec::new();
    push_str(&mut m, "OK learn ");
    push_str(&mut m, name.as_str());
    push_str(&mut m, "(");
    let mut i: usize = 0;
    while i < spec.params.len()
        decreases spec.params@.len() - i,
    {
        if i > 0 {
            push_str(&mut m, ",");
        }
        push_str(&mut m, spec.params[i].as_str());
        i = i + 1;
    }
    push_str(&mut m, ") kind=");
    push_str(&mut m, spec.kind.name());
    push_str(&mut m, " states=");
    push_num(&mut m, st.states);
    push_str(&mut m, " iters=");
    push_num(&mut m, st.iters);
    push_str(&mut m, " eqs=");
    push_num(&mut m, st.eqs);
    push_str(&mut m, " ces=");
    push_num(&mut m, st.ces);
    push_str(&mut m, " mqs=");
    push_u64(&mut m, st.mqs);
    push_str(&mut m, " steps=");
    push_u64(&mut m, st.steps);
    if st.assumed_inf > 0 {
        push_str(&mut m, " capped=");
        push_u64(&mut m, st.assumed_inf);
    }
    Ok((name, crate::strs::copy_names(&spec.params), a, string_of(m.as_slice())))
}

} // verus!
