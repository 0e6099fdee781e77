//! The Boolean and first-order operations on automata, under the session's
//! digit order and numeration system.
use vstd::prelude::*;
use crate::dfa::{Dfa, BoolOp, MAX_ALPHA, spow, word_over, distinct, lemma_spow_pos};
use crate::strs::{names, first_index, lemma_first_index};
use crate::product::{positions, proj_word, lift_word, merged, lemma_lift_same, lemma_sorted_distinct};
use crate::numsys::NumSys;

verus! {

/// The session state every operation reads: the digit order, the numeration
/// system in force (`None` for plain base `k`), and the two subset caps of the
/// projection ladder.
pub struct Ctx {
    pub lsd: bool,
    pub ns: Option<NumSys>,
    pub cap0: usize,
    pub cap: usize,
}

/// Every track `0..n` of `w` is accepted by the one-track automaton `valid`.
pub open spec fn valid_tracks(valid: &Dfa, w: Seq<usize>, n: nat, k: nat) -> bool {
    forall|j: nat| j < n ==> #[trigger] valid.accepts(proj_word(w, seq![j], k))
}

impl Ctx {
    /// A session in the given digit order and numeration system, with the
    /// default projection caps (50 000 subsets first, 3 000 000 at most).
    pub fn new(lsd: bool, ns: Option<NumSys>) -> (r: Ctx)
        ensures
            r.lsd == lsd,
            r.ns == ns,
            r.cap0 == 50000,
            r.cap == 3000000,
    {
        Ctx { lsd, ns, cap0: 50000, cap: 3000000 }
    }

    pub open spec fn wf(&self) -> bool {
        match self.ns {
            Some(ns) => ns.wf(),
            None => true,
        }
    }

    /// The numeration system in force, if any, uses base `k`.
    pub open spec fn fits(&self, k: nat) -> bool {
        match self.ns {
            Some(ns) => ns.digits == k,
            None => true,
        }
    }

    /// `fits`, computed.
    pub fn fits_k(&self, k: usize) -> (r: bool)
        ensures
            r == self.fits(k as nat),
    {
        match &self.ns {
            Some(ns) => ns.digits == k,
            None => true,
        }
    }

    /// Install (or clear, with `None`) the session's numeration system.
    pub fn set_active(&mut self, ns: Option<NumSys>)
        ensures
            final(self).ns == ns,
            final(self).lsd == old(self).lsd,
            final(self).cap0 == old(self).cap0,
            final(self).cap == old(self).cap,
    {
        self.ns = ns;
    }

    /// Name of the active numeration system, or `""`.
    pub fn active_name(&self) -> (r: String)
        ensures
            r@ == match self.ns {
                Some(ns) => ns.name@,
                None => Seq::<char>::empty(),
            },
    {
        match &self.ns {
            Some(ns) => crate::strs::str_to_string(ns.name.as_str()),
            None => {
                let e: Vec<char> = Vec::new();
                crate::strs::string_of(e.as_slice())
            },
        }
    }

    /// Is the session reading least significant digits first?
    pub fn is_lsd(&self) -> (r: bool)
        ensures
            r == self.lsd,
    {
        self.lsd
    }

    /// Set the session's digit order.
    pub fn set_lsd(&mut self, lsd: bool)
        ensures
            final(self).lsd == lsd,
            final(self).ns == old(self).ns,
            final(self).cap0 == old(self).cap0,
            final(self).cap == old(self).cap,
    {
        self.lsd = lsd;
    }

    /// Every track of `w` holds a valid representation (always, in plain base `k`).
    pub open spec fn valid_word(&self, w: Seq<usize>, n: nat, k: nat) -> bool {
        match self.ns {
            Some(ns) => valid_tracks(ns.valid_of(self.lsd), w, n, k),
            None => true,
        }
    }
}

/// `r` accepts exactly the words of `d` (read over `r`'s variables) whose tracks
/// are all valid, and has the same variables as `d`.
pub open spec fn restricts(cx: &Ctx, d: &Dfa, r: &Dfa) -> bool {
    &&& r.wf()
    &&& r.k == d.k
    &&& r.vars.len() == d.vars.len()
    &&& forall|x: Seq<char>| names(r.vars@).contains(x) <==> names(d.vars@).contains(x)
    &&& forall|w: Seq<usize>| word_over(w, r.alpha as nat) ==> word_over(lift_word(w, d.vars@, r.vars@, d.k as nat), d.alpha as nat)
    &&& forall|w: Seq<usize>| word_over(w, r.alpha as nat) ==> #[trigger] r.accepts(w) == (d.accepts(
        lift_word(w, d.vars@, r.vars@, d.k as nat)) && cx.valid_word(w, r.vars.len() as nat, d.k as nat))
}

/// The position list of a single name in a list of distinct names.
pub proof fn lemma_positions_one(s: Seq<String>, j: int)
    requires
        distinct(names(s)),
        0 <= j < s.len(),
    ensures
        positions(names(seq![s[j]]), names(s)) == seq![j as nat],
{
    let x = s[j]@;
    lemma_first_index(names(s), x);
    assert(names(s)[j] == x);
    assert(names(s).contains(x));
    let f = first_index(names(s), x);
    if f != j as nat {
        assert(names(s)[f as int] == x);
    }
    assert(names(seq![s[j]]) =~= seq![x]);
    assert(positions(names(seq![s[j]]), names(s)) =~= seq![j as nat]);
}

impl NumSys {
    /// `d` conjoined with "every track holds a valid representation"; `None` if
    /// an intermediate product would need more than `u32::MAX` states.
    pub fn restrict(&self, d: &Dfa, lsd: bool) -> (r: Option<Dfa>)
        requires
            self.wf(),
            d.wf(),
            d.k == self.digits,
        ensures
            r matches Some(x) ==> restricts(&Ctx { lsd, ns: Some(*self), cap0: 0, cap: 0 }, d, &x),
            r matches Some(x) ==> (d.sorted() ==> names(x.vars@) == names(d.vars@)),
    {
        if d.vars.len() == 0 {
            let x = d.dup();
            proof {
                let cx = Ctx { lsd, ns: Some(*self), cap0: 0, cap: 0 };
                assert forall|w: Seq<usize>| word_over(w, x.alpha as nat) implies #[trigger] x.accepts(w) == (d.accepts(
                    lift_word(w, d.vars@, x.vars@, d.k as nat)) && cx.valid_word(w, x.vars.len() as nat, d.k as nat)) by {
                    lemma_lift_same(w, d.vars@, d.k as nat);
                }
                assert forall|w: Seq<usize>| word_over(w, x.alpha as nat) implies word_over(lift_word(w, d.vars@, x.vars@, d.k as nat), d.alpha as nat) by {
                    lemma_lift_same(w, d.vars@, d.k as nat);
                }
            }
            return Some(x);
        }
        let v = self.valid(lsd);
        let k = d.k;
        let s = match crate::strs::sort_distinct(&d.vars) {
            Some(s) => s,
            None => {
                proof {
                    let (i, j) = choose|i: int, j: int| 0 <= i < j < d.vars.len() && names(d.vars@)[i] == names(d.vars@)[j];
                    assert(false);
                }
                return None;
            }
        };
        let alpha = d.alpha;
        proof {
            if d.sorted() {
                crate::strs::lemma_sorted_unique(names(s@), names(d.vars@));
            }
            lemma_sorted_distinct(names(s@));
            assert forall|i: int| 0 <= i < d.vars.len() implies names(s@).contains(#[trigger] names(d.vars@)[i]) by {
                assert(names(d.vars@).contains(names(d.vars@)[i]));
            }
            assert(d.trans@.len() == d.nstates * alpha);
        }
        if v.nstates > usize::MAX / alpha {
            return None;
        }
        proof {
            assert(v.nstates * alpha <= usize::MAX) by (nonlinear_arith)
                requires
                    v.nstates <= usize::MAX / alpha,
                    alpha >= 1,
            ;
            let tl = d.trans.len();
        }
        let mut acc = d.extend_vars(&s);
        let ghost cx = Ctx { lsd, ns: Some(*self), cap0: 0, cap: 0 };
        let mut j: usize = 0;
        while j < s.len()
            invariant
                self.wf(),
                d.wf(),
                k == d.k,
                k == self.digits,
                alpha == d.alpha,
                v == self.valid_of(lsd),
                cx == (Ctx { lsd, ns: Some(*self), cap0: 0, cap: 0 }),
                s.len() == d.vars.len(),
                d.sorted() ==> names(s@) == names(d.vars@),
                distinct(names(s@)),
                forall|x: Seq<char>| names(s@).contains(x) <==> names(d.vars@).contains(x),
                v.nstates * alpha <= usize::MAX,
                acc.wf(),
                acc.k == k,
                acc.vars@ == s@,
                acc.alpha == alpha,
                j <= s.len(),
                forall|w: Seq<usize>| word_over(w, alpha as nat) ==> word_over(lift_word(w, d.vars@, s@, k as nat), d.alpha as nat),
                forall|w: Seq<usize>| word_over(w, alpha as nat) ==> #[trigger] acc.accepts(w) == (d.accepts(
                    lift_word(w, d.vars@, s@, k as nat)) && valid_tracks(v, w, j as nat, k as nat)),
            decreases s.len() - j,
        {
            let vj = Dfa {
                k: v.k,
                vars: vec![s[j].clone()],
                alpha: v.alpha,
                nstates: v.nstates,
                trans: v.trans.clone(),
                accept: v.accept.clone(),
            };
            proof {
                assert(vj.trans@ =~= v.trans@);
                assert(vj.accept@ =~= v.accept@);
                assert(vj.vars@ =~= seq![s@[j as int]]);
                assert(distinct(names(vj.vars@)));
                assert(vj.wf());
                assert forall|i: int| 0 <= i < vj.vars.len() implies names(s@).contains(#[trigger] names(vj.vars@)[i]) by {
                    assert(names(s@)[j as int] == names(vj.vars@)[0]);
                }
                assert(spow(k as nat, s.len() as nat) == alpha);
                lemma_positions_one(s@, j as int);
            }
            assert(names(acc.vars@) == names(s@));
            let b = vj.extend_vars(&s);
            proof {
                let x = acc.nstates as u64;
                let y = b.nstates as u64;
                assert(x * y <= u64::MAX) by (nonlinear_arith)
                    requires
                        x <= u32::MAX,
                        y <= u32::MAX,
                ;
            }
            if acc.nstates as u64 * b.nstates as u64 > u32::MAX as u64 {
                return None;
            }
            let ghost pacc = acc;
            let p = acc.product_raw(&b, BoolOp::And);
            acc = p.minimize();
            proof {
                assert forall|w: Seq<usize>| word_over(w, alpha as nat) implies #[trigger] acc.accepts(w) == (d.accepts(
                    lift_word(w, d.vars@, s@, k as nat)) && valid_tracks(v, w, (j + 1) as nat, k as nat)) by {
                    assert(acc.accepts(w) == p.accepts(w));
                    assert(p.accepts(w) == (pacc.accepts(w) && b.accepts(w)));
                    let u = lift_word(w, vj.vars@, s@, k as nat);
                    assert(u == proj_word(w, seq![j as nat], k as nat));
                    assert(b.accepts(w) == vj.accepts(u));
                    assert(vj.accepts(u) == v.accepts(u));
                    if valid_tracks(v, w, (j + 1) as nat, k as nat) {
                        assert(v.accepts(proj_word(w, seq![j as nat], k as nat)));
                    }
                    if pacc.accepts(w) && b.accepts(w) {
                        assert forall|i: nat| i < j + 1 implies #[trigger] v.accepts(proj_word(w, seq![i], k as nat)) by {
                            if i < j {
                                assert(valid_tracks(v, w, j as nat, k as nat));
                            }
                        }
                    }
                }
            }
            j = j + 1;
        }
        proof {
            assert forall|w: Seq<usize>| word_over(w, acc.alpha as nat) implies #[trigger] acc.accepts(w) == (d.accepts(
                lift_word(w, d.vars@, acc.vars@, d.k as nat)) && cx.valid_word(w, acc.vars.len() as nat, d.k as nat)) by {
            }
        }
        Some(acc)
    }
}

/// `d` conjoined with validity of every track, if a numeration system is in force.
pub fn restrict(d: &Dfa, cx: &Ctx) -> (r: Option<Dfa>)
    requires
        cx.wf(),
        d.wf(),
        cx.fits(d.k as nat),
    ensures
        r matches Some(x) ==> restricts(cx, d, &x),
        r matches Some(x) ==> (d.sorted() ==> names(x.vars@) == names(d.vars@)),
        cx.ns is None ==> r is Some,
        cx.ns is None ==> (r matches Some(x) && x.eqv(d)),
{
    match &cx.ns {
        None => {
            let x = d.dup();
            proof {
                assert forall|w: Seq<usize>| word_over(w, x.alpha as nat) implies #[trigger] x.accepts(w) == (d.accepts(
                    lift_word(w, d.vars@, x.vars@, d.k as nat)) && cx.valid_word(w, x.vars.len() as nat, d.k as nat)) by {
                    lemma_lift_same(w, d.vars@, d.k as nat);
                }
                assert forall|w: Seq<usize>| word_over(w, x.alpha as nat) implies word_over(lift_word(w, d.vars@, x.vars@, d.k as nat), d.alpha as nat) by {
                    lemma_lift_same(w, d.vars@, d.k as nat);
                }
            }
            Some(x)
        },
        Some(ns) => ns.restrict(d, cx.lsd),
    }
}


/// `m` is the sorted union of the variables of `a` and `b`.
pub open spec fn union_vars(m: Seq<String>, a: Seq<String>, b: Seq<String>) -> bool {
    &&& crate::strs::strictly_sorted(names(m))
    &&& m.len() == merged(names(a), names(b)).len()
    &&& forall|x: Seq<char>| names(m).contains(x) <==> (names(a).contains(x) || names(b).contains(x))
}

/// `r` is the `op`-product of `a` and `b` over their sorted union of variables,
/// restricted to valid representations when `op` holds of two rejections.
pub open spec fn combines(cx: &Ctx, a: &Dfa, b: &Dfa, op: BoolOp, r: &Dfa) -> bool {
    &&& r.wf()
    &&& r.sorted()
    &&& r.k == a.k
    &&& union_vars(r.vars@, a.vars@, b.vars@)
    &&& forall|w: Seq<usize>| word_over(w, r.alpha as nat) ==> #[trigger] r.accepts(w) == (op.eval(
            a.accepts(lift_word(w, a.vars@, r.vars@, a.k as nat)),
            b.accepts(lift_word(w, b.vars@, r.vars@, a.k as nat)))
            && (op.eval(false, false) ==> cx.valid_word(w, r.vars.len() as nat, a.k as nat)))
}

/// `k^n` when it is at most `MAX_ALPHA`.
pub fn pow_capped(k: usize, n: usize) -> (r: Option<usize>)
    requires
        k >= 1,
    ensures
        r matches Some(p) ==> p == spow(k as nat, n as nat),
        r is None <==> spow(k as nat, n as nat) > MAX_ALPHA,
{
    let mut r: usize = 1;
    let mut i: usize = 0;
    while i < n
        invariant
            k >= 1,
            i <= n,
            r == spow(k as nat, i as nat),
            r <= MAX_ALPHA,
        decreases n - i,
    {
        if r > MAX_ALPHA / k {
            proof {
                assert(r * k > MAX_ALPHA) by (nonlinear_arith)
                    requires
                        r > MAX_ALPHA / k,
                        k >= 1,
                ;
                assert(spow(k as nat, (i + 1) as nat) == k * spow(k as nat, i as nat));
                crate::dfa::lemma_spow_mono(k as nat, (i + 1) as nat, n as nat);
            }
            return None;
        }
        proof {
            assert(r * k <= MAX_ALPHA) by (nonlinear_arith)
                requires
                    r <= MAX_ALPHA / k,
                    k >= 1,
            ;
        }
        assert(spow(k as nat, (i + 1) as nat) == k * spow(k as nat, i as nat));
        r = r * k;
        i = i + 1;
    }
    Some(r)
}

/// The names of `a` followed by those of `b` not in `a`.
pub fn merge_names(a: &Vec<String>, b: &Vec<String>) -> (r: Vec<String>)
    ensures
        names(r@) == merged(names(a@), names(b@)),
{
    let mut vars = crate::strs::copy_names(a);
    let mut j: usize = 0;
    while j < b.len()
        invariant
            j <= b.len(),
            names(vars@) == merged(names(a@), names(b@).take(j as int)),
        decreases b.len() - j,
    {
        proof {
            assert(names(b@).take(j + 1).drop_last() =~= names(b@).take(j as int));
            assert(names(b@).take(j + 1).last() == b@[j as int]@);
        }
        if !crate::strs::vec_contains(&vars, b[j].as_str()) {
            let ghost pv = vars@;
            vars.push(b[j].clone());
            proof {
                assert(names(vars@) =~= names(pv).push(b@[j as int]@));
            }
        }
        j = j + 1;
    }
    proof {
        assert(names(b@).take(b.len() as int) =~= names(b@));
    }
    vars
}

impl Dfa {
    /// Language complement over the same alphabet, re-restricted to valid
    /// representations under a numeration system.
    pub fn complement(&self, cx: &Ctx) -> (r: Option<Dfa>)
        requires
            self.wf(),
            cx.wf(),
            cx.fits(self.k as nat),
        ensures
            r matches Some(x) ==> {
                &&& x.wf()
                &&& x.k == self.k
                &&& x.vars.len() == self.vars.len()
                &&& forall|v: Seq<char>| names(x.vars@).contains(v) <==> names(self.vars@).contains(v)
                &&& (self.sorted() ==> names(x.vars@) == names(self.vars@))
                &&& forall|w: Seq<usize>| word_over(w, x.alpha as nat) ==> #[trigger] x.accepts(w) == (!self.accepts(
                    lift_word(w, self.vars@, x.vars@, self.k as nat)) && cx.valid_word(w, x.vars.len() as nat, self.k as nat))
            },
            cx.ns is None ==> r is Some,
            cx.ns is None ==> (r matches Some(x) && x.vars@ == self.vars@),
            cx.ns is None ==> (r matches Some(x) && x.nstates == self.nstates && x.trans@ == self.trans@),
    {
        let c = self.complement_raw();
        let r = restrict(&c, cx);
        proof {
            if r is Some {
                let x = r->Some_0;
                assert forall|w: Seq<usize>| word_over(w, x.alpha as nat) implies #[trigger] x.accepts(w) == (!self.accepts(
                    lift_word(w, self.vars@, x.vars@, self.k as nat)) && cx.valid_word(w, x.vars.len() as nat, self.k as nat)) by {
                    assert(word_over(lift_word(w, c.vars@, x.vars@, c.k as nat), c.alpha as nat));
                }
            }
        }
        r
    }

    /// Language over `vars` that is everything (`true`) or nothing (`false`);
    /// "everything" means every track valid under a numeration system.
    pub fn constant(k: usize, vars: Vec<String>, val: bool, cx: &Ctx) -> (r: Option<Dfa>)
        requires
            k >= 1,
            spow(k as nat, vars.len() as nat) <= MAX_ALPHA,
            distinct(names(vars@)),
            cx.wf(),
            cx.fits(k as nat),
        ensures
            r matches Some(x) ==> {
                &&& x.wf()
                &&& x.k == k
                &&& x.vars.len() == vars.len()
                &&& forall|v: Seq<char>| names(x.vars@).contains(v) <==> names(vars@).contains(v)
                &&& forall|w: Seq<usize>| word_over(w, x.alpha as nat) ==> #[trigger] x.accepts(w) == (val
                    && cx.valid_word(w, x.vars.len() as nat, k as nat))
            },
            (!val || cx.ns is None) ==> r is Some,
            r matches Some(x) ==> (!val || cx.ns is None) ==> x.vars@ == vars@,
    {
        let alpha = crate::dfa::pow(k, vars.len());
        let mut trans: Vec<crate::dfa::State> = Vec::new();
        let mut i: usize = 0;
        while i < alpha
            invariant
                i <= alpha,
                trans.len() == i,
                forall|j: int| 0 <= j < i ==> trans@[j] == 0,
            decreases alpha - i,
        {
            trans.push(0);
            i = i + 1;
        }
        proof {
            assert(1 * alpha == alpha);
            crate::dfa::lemma_spow_pos(k as nat, vars.len() as nat);
        }
        let d = Dfa::new(k, vars, 1, trans, vec![val]);
        proof {
            assert forall|w: Seq<usize>| word_over(w, d.alpha as nat) implies #[trigger] d.accepts(w) == val by {
                crate::dfa::lemma_trun(d.trans@, 1, d.alpha as nat, 0, w);
            }
        }
        if val {
            let r = restrict(&d, cx);
            proof {
                if r is Some {
                let x = r->Some_0;
                    assert forall|w: Seq<usize>| word_over(w, x.alpha as nat) implies #[trigger] x.accepts(w) == (val
                        && cx.valid_word(w, x.vars.len() as nat, k as nat)) by {
                        assert(word_over(lift_word(w, d.vars@, x.vars@, d.k as nat), d.alpha as nat));
                    }
                    if cx.ns is None {
                        assert(x.vars@ == d.vars@);
                    }
                }
            }
            r
        } else {
            Some(d)
        }
    }
}

/// The sizes of the product of `a` and `b` fit the engine's tables.
pub open spec fn product_fits(a: &Dfa, b: &Dfa) -> bool {
    let p = spow(a.k as nat, merged(names(a.vars@), names(b.vars@)).len());
    &&& p <= MAX_ALPHA
    &&& a.nstates * p <= usize::MAX
    &&& b.nstates * p <= usize::MAX
    &&& a.nstates * b.nstates <= u32::MAX
}

proof fn lemma_div_bound(x: nat, p: nat)
    requires
        p >= 1,
    ensures
        (x <= (usize::MAX as nat) / p) <==> (x * p <= usize::MAX),
{
    let m = usize::MAX as nat;
    if x <= m / p {
        assert(x * p <= (m / p) * p) by (nonlinear_arith)
            requires
                x <= m / p,
        ;
        assert((m / p) * p <= m) by (nonlinear_arith)
            requires
                p >= 1,
        ;
    } else {
        assert(x >= m / p + 1);
        assert(x * p >= (m / p + 1) * p) by (nonlinear_arith)
            requires
                x >= m / p + 1,
        ;
        assert((m / p + 1) * p > m) by (nonlinear_arith)
            requires
                p >= 1,
        ;
    }
}

impl Dfa {
    /// Boolean product: `op` combines the two acceptance bits; re-restricted to
    /// valid representations when `op` accepts two rejections.
    pub fn product(&self, other: &Dfa, op: BoolOp, cx: &Ctx) -> (r: Option<Dfa>)
        requires
            self.wf(),
            other.wf(),
            self.k == other.k,
            cx.wf(),
            cx.fits(self.k as nat),
        ensures
            r matches Some(x) ==> combines(cx, self, other, op, &x),
            (product_fits(self, other) && (cx.ns is None || !op.eval(false, false))) ==> r is Some,
            (cx.ns is None || !op.eval(false, false)) ==> (r matches Some(x) ==> x.minimal()),
    {
        let m = merge_names(&self.vars, &other.vars);
        let p = match pow_capped(self.k, m.len()) {
            Some(p) => p,
            None => return None,
        };
        proof {
            lemma_spow_pos(self.k as nat, m.len() as nat);
            lemma_div_bound(self.nstates as nat, p as nat);
            lemma_div_bound(other.nstates as nat, p as nat);
            let x = self.nstates as u64;
            let y = other.nstates as u64;
            assert(x * y <= u64::MAX) by (nonlinear_arith)
                requires
                    x <= u32::MAX,
                    y <= u32::MAX,
            ;
        }
        if self.nstates > usize::MAX / p || other.nstates > usize::MAX / p
            || self.nstates as u64 * other.nstates as u64 > u32::MAX as u64 {
            return None;
        }
        let res = self.product_plain(other, op);
        if op.apply(false, false) {
            let r = restrict(&res, cx);
            proof {
                if r is Some {
                    let x = r->Some_0;
                    assert(names(x.vars@) == names(res.vars@));
                    assert forall|w: Seq<usize>| word_over(w, x.alpha as nat) implies #[trigger] x.accepts(w) == (op.eval(
                        self.accepts(lift_word(w, self.vars@, x.vars@, self.k as nat)),
                        other.accepts(lift_word(w, other.vars@, x.vars@, self.k as nat)))
                        && (op.eval(false, false) ==> cx.valid_word(w, x.vars.len() as nat, self.k as nat))) by {
                        assert(lift_word(w, res.vars@, x.vars@, self.k as nat) == lift_word(w, res.vars@, res.vars@, self.k as nat));
                        lemma_sorted_distinct(names(res.vars@));
                        lemma_lift_same(w, res.vars@, self.k as nat);
                        assert(lift_word(w, self.vars@, x.vars@, self.k as nat) == lift_word(w, self.vars@, res.vars@, self.k as nat));
                        assert(lift_word(w, other.vars@, x.vars@, self.k as nat) == lift_word(w, other.vars@, res.vars@, self.k as nat));
                    }
                    assert(union_vars(x.vars@, self.vars@, other.vars@));
                    if cx.ns is None {
                        assert(x.eqv(&res));
                        assert(x.trans@ == res.trans@ && x.accept@ == res.accept@);
                        assert forall|q: nat| q < x.nstates implies #[trigger] x.reachable(q) by {
                            assert(res.reachable(q));
                            let w = choose|w: Seq<usize>| word_over(w, res.alpha as nat) && #[trigger] res.run_from(0, w) == q;
                            assert(x.run_from(0, w) == q);
                        }
                        assert forall|p: nat, q: nat| p < x.nstates && q < x.nstates && p != q implies #[trigger] x.distinguishable(p, q) by {
                            assert(res.distinguishable(p, q));
                            let w = choose|w: Seq<usize>| word_over(w, res.alpha as nat)
                                && res.accept@[#[trigger] res.run_from(p, w) as int] != res.accept@[res.run_from(q, w) as int];
                            assert(x.run_from(p, w) == res.run_from(p, w));
                        }
                    }
                }
            }
            r
        } else {
            Some(res)
        }
    }

    /// Conjunction (`&`): accept iff both accept.
    pub fn and(&self, o: &Dfa, cx: &Ctx) -> (r: Option<Dfa>)
        requires
            self.wf(),
            o.wf(),
            self.k == o.k,
            cx.wf(),
            cx.fits(self.k as nat),
        ensures
            r matches Some(x) ==> combines(cx, self, o, BoolOp::And, &x),
            product_fits(self, o) ==> r is Some,
    {
        self.product(o, BoolOp::And, cx)
    }

    /// Disjunction (`|`): accept iff either accepts.
    pub fn or(&self, o: &Dfa, cx: &Ctx) -> (r: Option<Dfa>)
        requires
            self.wf(),
            o.wf(),
            self.k == o.k,
            cx.wf(),
            cx.fits(self.k as nat),
        ensures
            r matches Some(x) ==> combines(cx, self, o, BoolOp::Or, &x),
            product_fits(self, o) ==> r is Some,
    {
        self.product(o, BoolOp::Or, cx)
    }

    /// Implication (`=>`): accept iff `!self | o`.
    pub fn implies(&self, o: &Dfa, cx: &Ctx) -> (r: Option<Dfa>)
        requires
            self.wf(),
            o.wf(),
            self.k == o.k,
            cx.wf(),
            cx.fits(self.k as nat),
        ensures
            r matches Some(x) ==> combines(cx, self, o, BoolOp::Implies, &x),
            (product_fits(self, o) && cx.ns is None) ==> r is Some,
    {
        self.product(o, BoolOp::Implies, cx)
    }

    /// Biconditional (`<=>`): accept iff both sides agree.
    pub fn iff(&self, o: &Dfa, cx: &Ctx) -> (r: Option<Dfa>)
        requires
            self.wf(),
            o.wf(),
            self.k == o.k,
            cx.wf(),
            cx.fits(self.k as nat),
        ensures
            r matches Some(x) ==> combines(cx, self, o, BoolOp::Iff, &x),
            (product_fits(self, o) && cx.ns is None) ==> r is Some,
    {
        self.product(o, BoolOp::Iff, cx)
    }
}

/// `w` is the word `NumSys::rep` gives for `n`: of the canonical length, and
/// either all zeros or a valid word of rank `n`.
pub open spec fn rep_word(ns: &NumSys, n: nat, w: Seq<usize>) -> bool {
    &&& word_over(w, ns.digits as nat)
    &&& w.len() == ns.rep_len(n)
    &&& ((forall|i: int| 0 <= i < w.len() ==> #[trigger] w[i] == 0) || (ns.rank(w) == n && ns.vacc@[ns.vrun(w, w.len()) as int]))
}

/// `x` is what `d` outputs on the canonical word of `n` in `ns`.
pub open spec fn term_at(d: &crate::dfao::Dfao, ns: &NumSys, n: nat, x: u8) -> bool {
    exists|w: Seq<usize>| #[trigger] rep_word(ns, n, w) && d.msd_out(w) == x
}

impl crate::dfao::Dfao {
    /// The output after reading `w` most significant digit first.
    pub fn run_msd(&self, w: &Vec<usize>) -> (r: u8)
        requires
            self.wf(),
            word_over(w@, self.k as nat),
        ensures
            r == self.msd_out(w@),
    {
        let mut s: usize = 0;
        let mut i: usize = 0;
        proof {
            assert(w@.take(0) =~= Seq::<usize>::empty());
        }
        while i < w.len()
            invariant
                self.wf(),
                word_over(w@, self.k as nat),
                i <= w@.len(),
                s < self.nstates,
                s == crate::dfa::trun(self.trans@, self.k as nat, 0, w@.take(i as int)),
            decreases w@.len() - i,
        {
            proof {
                assert(w@[i as int] < self.k);
                assert(w@.take(i + 1).drop_last() =~= w@.take(i as int));
            }
            s = self.t(s, w[i]);
            i = i + 1;
        }
        proof {
            assert(w@.take(w@.len() as int) =~= w@);
        }
        self.out[s]
    }

    /// Term `n` in the session's numeration: read on the canonical word of
    /// `n` when a numeration system is in force, on the base-`k` digits otherwise.
    pub fn term_in(&self, n: u64, cx: &Ctx) -> (r: u8)
        requires
            self.wf(),
            self.k >= 2,
            cx.wf(),
            cx.fits(self.k as nat),
        ensures
            cx.ns is None ==> r == self.term(n as nat),
            cx.ns matches Some(ns) ==> term_at(self, &ns, n as nat, r),
    {
        match &cx.ns {
            None => self.at(n),
            Some(ns) => {
                let w = ns.rep(n);
                let r = self.run_msd(&w);
                proof {
                    assert(rep_word(ns, n as nat, w@));
                }
                r
            },
        }
    }

    /// The first `n` terms in the session's numeration (see `term_in`).
    pub fn prefix_in(&self, n: usize, cx: &Ctx) -> (r: Vec<u8>)
        requires
            self.wf(),
            self.k >= 2,
            cx.wf(),
            cx.fits(self.k as nat),
        ensures
            r@.len() == n,
            cx.ns is None ==> forall|i: int| 0 <= i < n ==> #[trigger] r@[i] == self.term(i as nat),
            cx.ns matches Some(ns) ==> forall|i: int| 0 <= i < n ==> #[trigger] term_at(self, &ns, i as nat, r@[i]),
    {
        let mut v: Vec<u8> = Vec::new();
        let mut i: usize = 0;
        while i < n
            invariant
                self.wf(),
                self.k >= 2,
                cx.wf(),
                cx.fits(self.k as nat),
                i <= n,
                v@.len() == i,
                cx.ns is None ==> forall|j: int| 0 <= j < i ==> #[trigger] v@[j] == self.term(j as nat),
                cx.ns matches Some(ns) ==> forall|j: int| 0 <= j < i ==> #[trigger] term_at(self, &ns, j as nat, v@[j]),
            decreases n - i,
        {
            let x = self.term_in(i as u64, cx);
            let ghost old_v = v@;
            v.push(x);
            proof {
                if cx.ns is Some {
                    let ns = cx.ns->Some_0;
                    assert forall|j: int| 0 <= j < i + 1 implies #[trigger] term_at(self, &ns, j as nat, v@[j]) by {
                        if j < i {
                            assert(v@[j] == old_v[j]);
                            assert(term_at(self, &ns, j as nat, old_v[j]));
                        } else {
                            assert(v@[j] == x);
                        }
                    }
                }
            }
            i = i + 1;
        }
        v
    }
}

} // verus!
