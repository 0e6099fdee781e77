//! Ostrowski numeration systems from a quadratic irrational.
//!
//! Fix `alpha = [0; a_1, a_2, ...]` with an eventually periodic continued
//! fraction, and let `q_{-1} = 0`, `q_0 = 1`, `q_i = a_i q_{i-1} + q_{i-2}`.
//! Every `n >= 0` has exactly one representation `n = sum b_i q_{i-1}` with
//! `0 <= b_1 < a_1`, `0 <= b_i <= a_i` and `b_i = a_i => b_{i-1} = 0`; written
//! msd-first the admissible words of each length are `0 .. q_L - 1` in
//! lexicographic order, so the system is an ordered numeration system.
use vstd::prelude::*;
use std::collections::HashMap;
use crate::dfa::{Dfa, State, spow, sdigit, word_over, MAX_ALPHA};
use crate::strs::{names, str_to_string};
use crate::nfa::Nfa;

verus! {

broadcast use vstd::std_specs::hash::group_hash_axioms;

/// `s` without its leading zeros.
pub open spec fn strip_zeros(s: Seq<u32>) -> Seq<u32>
    decreases s.len(),
{
    if s.len() > 0 && s[0] == 0 {
        strip_zeros(s.drop_first())
    } else {
        s
    }
}

/// The preperiod after dropping leading zeros, or one copy of the period if
/// nothing is left.
pub open spec fn unrolled(pre: Seq<u32>, per: Seq<u32>) -> Seq<u32> {
    let p = strip_zeros(pre);
    if p.len() == 0 { per } else { p }
}

/// The normalised preperiod: a leading partial quotient `1` is folded into the
/// next one, `[0; 1, a_2, ...] = [0; a_2 + 1, ...]`.
pub open spec fn norm_pre(pre: Seq<u32>, per: Seq<u32>) -> Seq<u32> {
    let p = unrolled(pre, per);
    if p[0] == 1 {
        if p.len() > 1 {
            seq![(p[1] + 1) as u32] + p.skip(2)
        } else {
            seq![(per[0] + 1) as u32]
        }
    } else {
        p
    }
}

/// The normalised period: rotated by one when the fold had to borrow its
/// first quotient.
pub open spec fn norm_per(pre: Seq<u32>, per: Seq<u32>) -> Seq<u32> {
    let p = unrolled(pre, per);
    if p[0] == 1 && p.len() == 1 {
        per.skip(1).push(per[0])
    } else {
        per
    }
}

/// The partial quotients can be normalised: a nonempty period, and no zero
/// quotient once the leading zeros of the preperiod are dropped.
pub open spec fn cf_ok(pre: Seq<u32>, per: Seq<u32>) -> bool {
    &&& per.len() > 0
    &&& forall|i: int| 0 <= i < per.len() ==> #[trigger] per[i] > 0
    &&& forall|i: int| 0 <= i < strip_zeros(pre).len() ==> #[trigger] strip_zeros(pre)[i] > 0
}

/// Largest digit allowed at position `j` of `alpha`: `a_1 - 1` at the first,
/// `a_j` elsewhere.
pub open spec fn digit_cap(alpha: Seq<u32>, j: int) -> int {
    if j == 1 { alpha[1] - 1 } else { alpha[j] as int }
}

/// A normalised continued fraction `alpha = [0; a_1, a_2, ...]`.
pub struct Cf {
    /// `alpha[0] = 0`, then the preperiod, then the period.
    pub alpha: Vec<u32>,
    /// index in `alpha` where the period starts.
    pub period_index: usize,
    /// largest digit of the numeration system.
    pub dmax: usize,
}

impl Cf {
    /// A normalised fraction: at least one preperiod and one period quotient,
    /// all positive, `a_1 >= 2`, and `dmax` the largest digit.
    pub open spec fn wf(&self) -> bool {
        &&& self.alpha@.len() >= 3
        &&& self.alpha@[0] == 0
        &&& 2 <= self.period_index < self.alpha@.len()
        &&& forall|j: int| 1 <= j < self.alpha@.len() ==> #[trigger] self.alpha@[j] >= 1
        &&& self.alpha@[1] >= 2
        &&& forall|j: int| 1 <= j < self.alpha@.len() ==> #[trigger] digit_cap(self.alpha@, j) <= self.dmax
        &&& exists|j: int| 1 <= j < self.alpha@.len() && #[trigger] digit_cap(self.alpha@, j) == self.dmax
    }

    /// Number of index classes.
    pub open spec fn nc(&self) -> nat {
        (self.alpha@.len() - 1) as nat
    }

    /// The class of index `i >= 1`: `i` itself inside `alpha`, else its place
    /// in the period.
    pub open spec fn cls(&self, i: nat) -> nat {
        let n = self.alpha@.len();
        if i < n {
            i
        } else {
            (self.period_index + (i - n) % ((n - self.period_index) as int)) as nat
        }
    }

    /// The partial quotient `a_i`.
    pub open spec fn a_at(&self, i: nat) -> nat {
        self.alpha@[self.cls(i) as int] as nat
    }

    /// The convergent denominators as a pair `(q_{i-1}, q_i)`.
    pub open spec fn qpair(&self, i: nat) -> (nat, nat)
        decreases i,
    {
        if i == 0 {
            (0, 1)
        } else {
            let p = self.qpair((i - 1) as nat);
            (p.1, self.a_at(i) * p.1 + p.0)
        }
    }

    /// `q_i`.
    pub open spec fn qs(&self, i: nat) -> nat {
        self.qpair(i).1
    }
}

/// `s` without leading zeros.
fn drop_leading_zeros(s: &[u32]) -> (r: Vec<u32>)
    ensures
        r@ == strip_zeros(s@),
{
    let mut i: usize = 0;
    assert(s@.skip(0) =~= s@);
    while i < s.len() && s[i] == 0
        invariant
            i <= s@.len(),
            strip_zeros(s@.skip(i as int)) == strip_zeros(s@),
        decreases s@.len() - i,
    {
        proof {
            assert(s@.skip(i as int).drop_first() =~= s@.skip(i + 1));
        }
        i = i + 1;
    }
    let mut r: Vec<u32> = Vec::new();
    let mut j: usize = i;
    while j < s.len()
        invariant
            i <= j <= s@.len(),
            r@ == s@.subrange(i as int, j as int),
        decreases s@.len() - j,
    {
        r.push(s[j]);
        j = j + 1;
        proof {
            assert(r@ =~= s@.subrange(i as int, j as int));
        }
    }
    proof {
        assert(r@ =~= s@.skip(i as int));
    }
    r
}

impl Cf {
    /// Normalise `[0; preperiod, bar(period)]`: drop leading zeros of the
    /// preperiod; if it is then empty, unroll one copy of the period into it;
    /// if `a_1 = 1`, fold it into the next quotient.
    pub fn new(preperiod: &[u32], period: &[u32]) -> (r: Result<Cf, String>)
        requires
            forall|i: int| 0 <= i < preperiod@.len() ==> #[trigger] preperiod@[i] < u32::MAX,
            forall|i: int| 0 <= i < period@.len() ==> #[trigger] period@[i] < u32::MAX,
        ensures
            r is Ok <==> cf_ok(preperiod@, period@),
            period@.len() == 0 ==> (r matches Err(e) && e@ == "the period cannot be empty"@),
            period@.len() > 0 ==> (r matches Err(e) ==> e@ == "all continued-fraction partial quotients must be positive"@),
            r matches Ok(cf) ==> {
                &&& cf.wf()
                &&& cf.alpha@ == seq![0u32] + norm_pre(preperiod@, period@) + norm_per(preperiod@, period@)
                &&& cf.period_index == 1 + norm_pre(preperiod@, period@).len()
            },
    {
        let pre0 = drop_leading_zeros(preperiod);
        if period.len() == 0 {
            return Err(str_to_string("the period cannot be empty"));
        }
        let mut i: usize = 0;
        while i < period.len()
            invariant
                i <= period@.len(),
                forall|j: int| 0 <= j < i ==> #[trigger] period@[j] > 0,
            decreases period@.len() - i,
        {
            if period[i] == 0 {
                return Err(str_to_string("all continued-fraction partial quotients must be positive"));
            }
            i = i + 1;
        }
        let mut i: usize = 0;
        while i < pre0.len()
            invariant
                i <= pre0@.len(),
                period@.len() > 0,
                pre0@ == strip_zeros(preperiod@),
                forall|j: int| 0 <= j < i ==> #[trigger] pre0@[j] > 0,
            decreases pre0@.len() - i,
        {
            if pre0[i] == 0 {
                assert(strip_zeros(preperiod@)[i as int] == 0);
                return Err(str_to_string("all continued-fraction partial quotients must be positive"));
            }
            i = i + 1;
        }
        let ghost sp = strip_zeros(preperiod@);
        proof {
            lemma_strip_sub(preperiod@);
            let k = preperiod@.len() - sp.len();
            assert forall|x: int| 0 <= x < sp.len() implies #[trigger] sp[x] < u32::MAX by {
                assert(sp[x] == preperiod@[x + k]);
            }
        }
        let p: Vec<u32> = if pre0.len() == 0 { vstd::slice::slice_to_vec(period) } else { pre0 };
        let ghost pu = p@;
        assert(pu == unrolled(preperiod@, period@));
        assert(forall|x: int| 0 <= x < pu.len() ==> #[trigger] pu[x] > 0);
        assert(pu.len() > 0);
        let mut pre: Vec<u32> = Vec::new();
        let mut per: Vec<u32> = Vec::new();
        if p[0] == 1 {
            if p.len() > 1 {
                pre.push(p[1] + 1);
                let mut j: usize = 2;
                while j < p.len()
                    invariant
                        2 <= j <= p@.len(),
                        pre@ == seq![(p@[1] + 1) as u32] + p@.subrange(2, j as int),
                    decreases p@.len() - j,
                {
                    pre.push(p[j]);
                    j = j + 1;
                    proof {
                        assert(pre@ =~= seq![(p@[1] + 1) as u32] + p@.subrange(2, j as int));
                    }
                }
                proof {
                    assert(p@.subrange(2, p@.len() as int) =~= p@.skip(2));
                }
                per = vstd::slice::slice_to_vec(period);
            } else {
                pre.push(period[0] + 1);
                let mut j: usize = 1;
                while j < period.len()
                    invariant
                        1 <= j <= period@.len(),
                        per@ == period@.subrange(1, j as int),
                    decreases period@.len() - j,
                {
                    per.push(period[j]);
                    j = j + 1;
                    proof {
                        assert(per@ =~= period@.subrange(1, j as int));
                    }
                }
                per.push(period[0]);
                proof {
                    assert(period@.subrange(1, period@.len() as int) =~= period@.skip(1));
                }
            }
        } else {
            pre = p;
            per = vstd::slice::slice_to_vec(period);
        }
        proof {
            assert(pre@ =~= norm_pre(preperiod@, period@));
            assert(per@ =~= norm_per(preperiod@, period@));
        }
        let mut alpha: Vec<u32> = Vec::new();
        alpha.push(0);
        let mut j: usize = 0;
        while j < pre.len()
            invariant
                j <= pre@.len(),
                alpha@ == seq![0u32] + pre@.take(j as int),
            decreases pre@.len() - j,
        {
            alpha.push(pre[j]);
            j = j + 1;
            proof {
                assert(alpha@ =~= seq![0u32] + pre@.take(j as int));
            }
        }
        let period_index = alpha.len();
        let mut j: usize = 0;
        while j < per.len()
            invariant
                j <= per@.len(),
                pre@.len() + 1 == period_index,
                alpha@ == seq![0u32] + pre@ + per@.take(j as int),
            decreases per@.len() - j,
        {
            proof {
                assert(pre@.take(pre@.len() as int) =~= pre@);
            }
            alpha.push(per[j]);
            j = j + 1;
            proof {
                assert(alpha@ =~= seq![0u32] + pre@ + per@.take(j as int));
            }
        }
        proof {
            assert(pre@.take(pre@.len() as int) =~= pre@);
            assert(per@.take(per@.len() as int) =~= per@);
            assert(alpha@ =~= seq![0u32] + pre@ + per@);
            assert forall|j: int| 1 <= j < alpha@.len() implies #[trigger] alpha@[j] >= 1 by {
                if j < period_index {
                    assert(alpha@[j] == pre@[j - 1]);
                } else {
                    assert(alpha@[j] == per@[j - period_index]);
                }
            }
        }
        let mut dmax: usize = (alpha[1] - 1) as usize;
        assert(digit_cap(alpha@, 1) == dmax);
        let mut j: usize = 2;
        while j < alpha.len()
            invariant
                2 <= j <= alpha@.len(),
                alpha@.len() >= 3,
                alpha@[1] >= 2,
                forall|x: int| 1 <= x < j ==> #[trigger] digit_cap(alpha@, x) <= dmax,
                exists|x: int| 1 <= x < j && #[trigger] digit_cap(alpha@, x) == dmax,
            decreases alpha@.len() - j,
        {
            if alpha[j] as usize > dmax {
                dmax = alpha[j] as usize;
                assert(digit_cap(alpha@, j as int) == dmax);
            }
            j = j + 1;
        }
        Ok(Cf { alpha, period_index, dmax })
    }
}

impl Cf {
    /// Classes lie in `1 ..= nc`, and so `a_i >= 1`.
    pub proof fn lemma_cls(&self, i: nat)
        requires
            self.wf(),
            i >= 1,
        ensures
            1 <= self.cls(i) < self.alpha@.len(),
            i >= self.alpha@.len() ==> self.period_index <= self.cls(i),
            self.a_at(i) >= 1,
    {
        let n = self.alpha@.len();
        if i >= n {
            let m = (n - self.period_index) as int;
            assert(0 <= (i - n) % m < m) by {
                vstd::arithmetic::div_mod::lemma_mod_bound((i - n) as int, m);
            }
        }
    }

    /// `q_i` never decreases.
    pub proof fn lemma_qs_mono(&self, i: nat, j: nat)
        requires
            self.wf(),
            i <= j,
        ensures
            self.qs(i) <= self.qs(j),
            self.qpair(j).0 <= self.qpair(j).1,
        decreases j,
    {
        if j > 0 {
            self.lemma_qs_mono(if i < j { i } else { (j - 1) as nat }, (j - 1) as nat);
            self.lemma_cls(j);
            let p = self.qpair((j - 1) as nat);
            assert(p.1 <= self.a_at(j) * p.1) by (nonlinear_arith)
                requires
                    self.a_at(j) >= 1,
            ;
        }
    }

    /// `a_i` for any `i >= 1` (the tail is periodic).
    pub fn a(&self, i: usize) -> (r: u32)
        requires
            self.wf(),
            i >= 1,
        ensures
            r == self.a_at(i as nat),
    {
        proof {
            self.lemma_cls(i as nat);
        }
        let n = self.alpha.len();
        let idx = if i < n { i } else { self.period_index + (i - n) % (n - self.period_index) };
        self.alpha[idx]
    }

    /// Convergent denominators `q_0, q_1, ..., q_l`.
    pub fn q(&self, l: usize) -> (r: Vec<u128>)
        requires
            self.wf(),
            self.qs(l as nat) <= u128::MAX,
            l < usize::MAX,
        ensures
            r@.len() == l + 1,
            forall|i: int| 0 <= i <= l ==> #[trigger] r@[i] == self.qs(i as nat),
    {
        let mut v: Vec<u128> = Vec::new();
        v.push(1);
        let mut prev: u128 = 0;
        let mut i: usize = 1;
        while i <= l
            invariant
                self.wf(),
                1 <= i <= l + 1,
                l < usize::MAX,
                self.qs(l as nat) <= u128::MAX,
                v@.len() == i,
                forall|x: int| 0 <= x < i ==> #[trigger] v@[x] == self.qs(x as nat),
                prev == self.qpair((i - 1) as nat).0,
            decreases l + 1 - i,
        {
            proof {
                self.lemma_qs_mono(i as nat, l as nat);
                self.lemma_cls(i as nat);
                let p = self.qpair((i - 1) as nat);
                assert(self.a_at(i as nat) * p.1 <= self.qs(i as nat));
            }
            let a = self.a(i) as u128;
            let next = a * v[i - 1] + prev;
            prev = v[i - 1];
            v.push(next);
            i = i + 1;
        }
        v
    }

    /// Number of index classes: `1 ..= nclass()`.
    fn nclass(&self) -> (r: usize)
        requires
            self.wf(),
        ensures
            r == self.nc(),
    {
        self.alpha.len() - 1
    }

    /// Digits allowed at class `i` when the previous digit was not maximal:
    /// `0..a_i`, but `0..a_1 - 1` at the last position.
    fn max_digit(&self, i: usize) -> (r: usize)
        requires
            self.wf(),
            1 <= i < self.alpha@.len(),
        ensures
            r == digit_cap(self.alpha@, i as int),
            r <= self.dmax,
    {
        assert(digit_cap(self.alpha@, i as int) <= self.dmax);
        if i == 1 { (self.alpha[1] - 1) as usize } else { self.alpha[i] as usize }
    }
}

impl Cf {
    /// Largest digit at index `i >= 1`: `a_1 - 1` at index 1, `a_i` elsewhere.
    pub open spec fn maxd_at(&self, i: nat) -> nat {
        if i == 1 { (self.a_at(1) - 1) as nat } else { self.a_at(i) }
    }

    /// The lsd-first digits `b_1 .. b_m` of `v` obey the Ostrowski rules:
    /// `b_i <= a_i` (`b_1 < a_1`) and `b_i = a_i => b_{i-1} = 0`.
    pub open spec fn ok_upto(&self, v: Seq<usize>, m: nat) -> bool
        decreases m,
    {
        if m == 0 {
            true
        } else {
            &&& self.ok_upto(v, (m - 1) as nat)
            &&& v[m - 1] <= self.maxd_at(m)
            &&& (m >= 2 && v[m - 1] == self.a_at(m) ==> v[m - 2] == 0)
        }
    }

    /// `w`, read msd-first, is a nonempty admissible representation.
    pub open spec fn admissible(&self, w: Seq<usize>) -> bool {
        w.len() >= 1 && self.ok_upto(w.reverse(), w.len())
    }

    /// The class after class `c` when reading lsd-first (the period wraps).
    pub open spec fn nxt(&self, c: nat) -> nat {
        if c + 1 < self.alpha@.len() { c + 1 } else { self.period_index as nat }
    }

    /// Successor in the lsd validity table: states `(c - 1) * 2 + nz` track
    /// the class of the next digit and whether the previous one was nonzero;
    /// `2 nc` is the dead state.
    pub open spec fn vtarget(&self, s: nat, d: nat) -> nat {
        let dead = 2 * self.nc();
        if s >= dead {
            dead
        } else {
            let c = s / 2 + 1;
            let nz = s % 2;
            if d <= digit_cap(self.alpha@, c as int) && !(nz == 1 && d == self.alpha@[c as int]) {
                ((self.nxt(c) - 1) * 2 + (if d != 0 { 1nat } else { 0nat })) as nat
            } else {
                dead
            }
        }
    }

    /// The class of index `i + 1` follows that of `i`.
    pub proof fn lemma_cls_next(&self, i: nat)
        requires
            self.wf(),
            i >= 1,
        ensures
            self.cls(i + 1) == self.nxt(self.cls(i)),
            self.cls(1) == 1,
            (self.cls(i + 1) == 1) == false,
    {
        let n = self.alpha@.len();
        let pi = self.period_index as int;
        let m = n - pi;
        self.lemma_cls(i);
        self.lemma_cls(i + 1);
        if i + 1 >= n {
            if i + 1 == n {
                assert((i + 1 - n) % m == 0) by {
                    vstd::arithmetic::div_mod::lemma_small_mod(0, m as nat);
                }
            } else {
                let r = (i - n) % m;
                vstd::arithmetic::div_mod::lemma_mod_bound((i - n) as int, m);
                vstd::arithmetic::div_mod::lemma_fundamental_div_mod((i - n) as int, m);
                let qq = (i - n) / m;
                assert(m * qq == qq * m) by (nonlinear_arith);
                assert((i - n) == qq * m + r);
                if r + 1 < m {
                    assert((i + 1 - n) % m == r + 1) by {
                        vstd::arithmetic::div_mod::lemma_fundamental_div_mod_converse((i + 1 - n) as int, m, qq, r + 1);
                    }
                } else {
                    assert((qq + 1) * m == qq * m + m) by (nonlinear_arith);
                    assert((i + 1 - n) % m == 0) by {
                        vstd::arithmetic::div_mod::lemma_fundamental_div_mod_converse((i + 1 - n) as int, m, qq + 1, 0);
                    }
                }
            }
        }
    }

    /// Reading `v.take(m)` from state 0 of the lsd table lands on the state
    /// for class `cls(m + 1)` while the rules hold, and on the dead state
    /// once they fail.
    proof fn lemma_vrun(&self, trans: Seq<State>, v: Seq<usize>, m: nat)
        requires
            self.wf(),
            trans.len() == (2 * self.nc() + 1) * (self.dmax + 1),
            forall|s: nat, d: nat| s <= 2 * self.nc() && d <= self.dmax ==>
                #[trigger] trans[(s * (self.dmax + 1) + d) as int] as nat == self.vtarget(s, d),
            m <= v.len(),
            word_over(v, (self.dmax + 1) as nat),
        ensures
            crate::dfa::trun(trans, (self.dmax + 1) as nat, 0, v.take(m as int)) == if m == 0 {
                0
            } else if self.ok_upto(v, m) {
                ((self.cls(m + 1) - 1) * 2 + (if v[m - 1] != 0 { 1nat } else { 0nat })) as nat
            } else {
                2 * self.nc()
            },
        decreases m,
    {
        let dd = (self.dmax + 1) as nat;
        if m > 0 {
            self.lemma_vrun(trans, v, (m - 1) as nat);
            assert(v.take(m as int).drop_last() =~= v.take(m - 1));
            assert(v.take(m as int).last() == v[m - 1]);
            let prev = crate::dfa::trun(trans, dd, 0, v.take(m - 1));
            let d = v[m - 1] as nat;
            assert(d < dd);
            assert(crate::dfa::trun(trans, dd, 0, v.take(m as int)) == trans[(prev * dd + d) as int] as nat);
            let nz2: nat = if v[m - 1] != 0 { 1 } else { 0 };
            self.lemma_cls(m);
            self.lemma_cls_next(m);
            if m == 1 {
                assert(prev == 0);
                assert(trans[(prev * dd + d) as int] as nat == self.vtarget(prev, d));
                assert(self.cls(2) == self.nxt(1));
                assert(self.maxd_at(1) == digit_cap(self.alpha@, 1));
                assert(self.ok_upto(v, 0));
                assert(self.cls(1) == 1 && self.a_at(1) == self.alpha@[1]);
                assert(self.ok_upto(v, 1) == (d <= digit_cap(self.alpha@, 1)));
                assert(self.ok_upto(v, 1) ==> self.vtarget(prev, d) == (self.cls(2) - 1) * 2 + nz2);
            } else {
                self.lemma_cls_next((m - 1) as nat);
                if self.ok_upto(v, (m - 1) as nat) {
                    let c = self.cls(m);
                    let nz: nat = if v[m - 2] != 0 { 1 } else { 0 };
                    assert(c >= 2);
                    assert(prev == (c - 1) * 2 + nz);
                    assert(prev / 2 + 1 == c && prev % 2 == nz);
                    assert(prev < 2 * self.nc());
                    assert(trans[(prev * dd + d) as int] as nat == self.vtarget(prev, d));
                    assert(self.maxd_at(m) == digit_cap(self.alpha@, c as int));
                    assert(self.a_at(m) == self.alpha@[c as int]);
                } else {
                    assert(prev == 2 * self.nc());
                    assert(trans[(prev * dd + d) as int] as nat == self.vtarget(prev, d));
                }
            }
        }
    }
}

/// The lsd-first validity table of `cf`, with its dead state.
fn lsd_validity(cf: &Cf, d: usize, nc: usize) -> (r: Dfa)
    requires
        cf.wf(),
        d == cf.dmax + 1,
        d <= MAX_ALPHA,
        nc == cf.nc(),
        2 * nc + 1 <= u32::MAX,
    ensures
        r.wf(),
        r.k == d,
        r.alpha == d,
        r.vars@.len() == 1,
        forall|v: Seq<usize>| word_over(v, d as nat) ==> #[trigger] r.accepts(v) == (v.len() >= 1 && cf.ok_upto(v, v.len())),
{
    let n = 2 * nc + 1;
    let dead = 2 * nc;
    let na = cf.alpha.len();
    let mut trans: Vec<State> = Vec::new();
    let mut s: usize = 0;
    proof {
        assert(n * d <= u32::MAX * MAX_ALPHA) by (nonlinear_arith)
            requires
                n <= u32::MAX,
                d <= MAX_ALPHA,
        ;
    }
    while s < n
        invariant
            cf.wf(),
            d == cf.dmax + 1,
            d <= MAX_ALPHA,
            nc == cf.nc(),
            na == cf.alpha@.len(),
            n == 2 * nc + 1,
            dead == 2 * nc,
            n <= u32::MAX,
            s <= n,
            trans@.len() == s * d,
            forall|s2: nat, d2: nat| s2 < s && d2 < d ==>
                #[trigger] trans@[(s2 * d + d2) as int] as nat == cf.vtarget(s2, d2),
            forall|x: int| 0 <= x < trans@.len() ==> (#[trigger] trans@[x] as nat) < n,
        decreases n - s,
    {
        let mut x: usize = 0;
        while x < d
            invariant
                cf.wf(),
                d == cf.dmax + 1,
                d <= MAX_ALPHA,
                nc == cf.nc(),
                na == cf.alpha@.len(),
                n == 2 * nc + 1,
                dead == 2 * nc,
                n <= u32::MAX,
                s < n,
                x <= d,
                trans@.len() == s * d + x,
                forall|s2: nat, d2: nat| (s2 < s && d2 < d) || (s2 == s && d2 < x) ==>
                    #[trigger] trans@[(s2 * d + d2) as int] as nat == cf.vtarget(s2, d2),
                forall|y: int| 0 <= y < trans@.len() ==> (#[trigger] trans@[y] as nat) < n,
            decreases d - x,
        {
            let t: usize = if s == dead {
                dead
            } else {
                let c = s / 2 + 1;
                let nz = s % 2;
                proof {
                    assert(c < na);
                }
                let ok = x <= cf.max_digit(c) && !(nz == 1 && x == cf.alpha[c] as usize);
                if ok {
                    let c2 = if c + 1 < na { c + 1 } else { cf.period_index };
                    (c2 - 1) * 2 + if x != 0 { 1 } else { 0 }
                } else {
                    dead
                }
            };
            proof {
                assert(t == cf.vtarget(s as nat, x as nat));
                assert(trans@.len() == s * d + x);
            }
            let ghost pre = trans@;
            trans.push(t as State);
            proof {
                assert forall|s2: nat, d2: nat| (s2 < s && d2 < d) || (s2 == s && d2 < x + 1) implies
                    #[trigger] trans@[(s2 * d + d2) as int] as nat == cf.vtarget(s2, d2) by {
                    if s2 == s && d2 == x {
                    } else {
                        crate::dfa::lemma_index(s2, d2, s as nat + 1, d as nat);
                        if s2 < s {
                            crate::dfa::lemma_index(s2, d2, s as nat, d as nat);
                        }
                        assert(trans@[(s2 * d + d2) as int] == pre[(s2 * d + d2) as int]);
                    }
                }
            }
            x = x + 1;
        }
        proof {
            assert((s + 1) * d == s * d + d) by (nonlinear_arith);
        }
        s = s + 1;
    }
    let mut accept: Vec<bool> = Vec::new();
    let mut i: usize = 0;
    while i < n
        invariant
            i <= n,
            dead < n,
            accept@.len() == i,
            forall|j: int| 0 <= j < i ==> #[trigger] accept@[j] == (j != 0 && j != dead),
        decreases n - i,
    {
        accept.push(i != 0 && i != dead);
        i = i + 1;
    }
    let vars: Vec<String> = vec![str_to_string("\u{1}a")];
    proof {
        assert(vars@.len() == 1);
        assert(spow(d as nat, 0) == 1);
        assert(spow(d as nat, 1) == d * spow(d as nat, 0));
        assert(spow(d as nat, 1) == d);
        assert(names(vars@).len() == 1);
        assert(crate::dfa::distinct(names(vars@)));
    }
    let r = Dfa::new(d, vars, n, trans, accept);
    proof {
        assert forall|v: Seq<usize>| word_over(v, d as nat) implies #[trigger] r.accepts(v) == (v.len() >= 1 && cf.ok_upto(v, v.len())) by {
            cf.lemma_vrun(r.trans@, v, v.len());
            assert(v.take(v.len() as int) =~= v);
            if v.len() >= 1 && cf.ok_upto(v, v.len()) {
                cf.lemma_cls_next(v.len());
                cf.lemma_cls(v.len() + 1);
            }
        }
    }
    r
}

/// The msd validity automaton of the Ostrowski system for `cf`: it accepts
/// exactly the nonempty admissible words. `None` when the digit alphabet or
/// the number of classes is too large for the automaton types, or the subset
/// construction outgrows `u32` states.
pub fn validity(cf: &Cf) -> (r: Option<Dfa>)
    requires
        cf.wf(),
    ensures
        r matches Some(a) ==> {
            &&& a.wf()
            &&& a.k == cf.dmax + 1
            &&& a.vars@.len() == 1
            &&& forall|w: Seq<usize>| word_over(w, (cf.dmax + 1) as nat) ==> #[trigger] a.accepts(w) == cf.admissible(w)
        },
        cf.dmax >= MAX_ALPHA || cf.nc() >= u32::MAX / 2 ==> r is None,
{
    if cf.dmax >= MAX_ALPHA {
        return None;
    }
    let nc = cf.nclass();
    if nc >= u32::MAX as usize / 2 {
        return None;
    }
    let d = cf.dmax + 1;
    let lsd = lsd_validity(cf, d, nc);
    match lsd.reverse_dfa() {
        Some(m) => {
            proof {
                assert forall|w: Seq<usize>| word_over(w, d as nat) implies #[trigger] m.accepts(w) == cf.admissible(w) by {
                    assert(word_over(w.reverse(), d as nat));
                    assert(w.reverse().len() == w.len());
                }
            }
            Some(m)
        },
        None => None,
    }
}

/// `x + y - z` for the three-track letter `sym` over `d` digits.
pub open spec fn dsum(sym: nat, d: nat) -> int {
    sdigit(sym, 0, d) + sdigit(sym, 1, d) - sdigit(sym, 2, d)
}

/// The largest carry magnitude the adder construction can encode.
pub const CAP_LIMIT: i64 = 1048576;

/// The most index classes the adder construction can encode.
pub const CLASS_LIMIT: usize = 1048576;

/// The most carry states the adder search visits.
pub const ADDER_STATES: usize = 2000000;

impl Cf {
    /// Could a state with `D = u q_j + v q_{j-1}` and next class `i` still be
    /// completed to a valid sum? `u + v r in [-2, 1]` for some
    /// `r in [1/(a_i + 1), 1/a_i]`, tested exactly.
    pub open spec fn feasible_spec(&self, i: nat, u: int, v: int) -> bool {
        let a = self.a_at(i) as int;
        let lo = if v >= 0 { a + 1 } else { a };
        let hi = if v >= 0 { a } else { a + 1 };
        u * lo + v <= lo && u * hi + v >= -2 * hi
    }

    /// The new leading carry after a letter at class `c`: `a_c u + v + s`.
    pub open spec fn carry(&self, c: nat, u: int, v: int, sym: nat, d: nat) -> int {
        self.a_at(c) * u + v + dsum(sym, d)
    }

    /// From carry state `(c, u, v)` the word `w`, read msd-first, completes
    /// an accepting run of the carry automaton: class 1 must take the last
    /// letter and leave carry 0; any other class moves to class `c - 1`, or,
    /// at the start of the period, to the last class, keeping only feasible
    /// states.
    pub open spec fn finishes(&self, c: nat, u: int, v: int, w: Seq<usize>, d: nat) -> bool
        decreases w.len(),
    {
        if w.len() == 0 {
            false
        } else {
            let u2 = self.carry(c, u, v, w[0] as nat, d);
            if c == 1 {
                w.len() == 1 && u2 == 0
            } else {
                ||| (c > 1 && self.feasible_spec((c - 1) as nat, u2, u) && self.finishes((c - 1) as nat, u2, u, w.drop_first(), d))
                ||| (c == self.period_index && self.feasible_spec(self.nc(), u2, u) && self.finishes(self.nc(), u2, u, w.drop_first(), d))
            }
        }
    }

    /// The carry automaton accepts `w` from some start class with zero carry.
    pub open spec fn sum_accepts(&self, w: Seq<usize>) -> bool {
        exists|c: nat| 1 <= c <= self.nc() && #[trigger] self.finishes(c, 0, 0, w, (self.dmax + 1) as nat)
    }

    /// `feasible_spec`, computed in exact integer arithmetic.
    fn feasible(&self, i: usize, u: i64, v: i64) -> (r: bool)
        requires
            self.wf(),
            1 <= i < self.alpha@.len(),
        ensures
            r == self.feasible_spec(i as nat, u as int, v as int),
    {
        let a = self.a(i) as i128;
        let u = u as i128;
        let v = v as i128;
        let lo_d: i128 = if v >= 0 { a + 1 } else { a };
        let hi_d: i128 = if v >= 0 { a } else { a + 1 };
        proof {
            assert(-0x8000_0000_0000_0000 * 0x1_0000_0001 <= u * lo_d <= 0x8000_0000_0000_0000 * 0x1_0000_0001) by (nonlinear_arith)
                requires
                    -0x8000_0000_0000_0000 <= u <= 0x8000_0000_0000_0000,
                    0 <= lo_d <= 0x1_0000_0001,
            ;
            assert(-0x8000_0000_0000_0000 * 0x1_0000_0001 <= u * hi_d <= 0x8000_0000_0000_0000 * 0x1_0000_0001) by (nonlinear_arith)
                requires
                    -0x8000_0000_0000_0000 <= u <= 0x8000_0000_0000_0000,
                    0 <= hi_d <= 0x1_0000_0001,
            ;
        }
        (u * lo_d + v <= lo_d) && (u * hi_d + v >= -(hi_d + hi_d))
    }
}

/// The hash key of carry state `(c, u, v)` for carries within `cap`.
pub open spec fn skey(c: nat, u: int, v: int, cap: int) -> int {
    (c * (2 * cap + 1) + (u + cap)) * (2 * cap + 1) + (v + cap)
}

/// Keys of states within the cap are distinct and fit a `u64`.
proof fn lemma_skey(c1: nat, u1: int, v1: int, c2: nat, u2: int, v2: int, cap: int)
    requires
        1 <= cap <= CAP_LIMIT,
        c1 < CLASS_LIMIT,
        c2 < CLASS_LIMIT,
        -cap <= u1 <= cap,
        -cap <= v1 <= cap,
        -cap <= u2 <= cap,
        -cap <= v2 <= cap,
    ensures
        0 <= skey(c1, u1, v1, cap) <= u64::MAX,
        skey(c1, u1, v1, cap) == skey(c2, u2, v2, cap) ==> c1 == c2 && u1 == u2 && v1 == v2,
{
    let m = 2 * cap + 1;
    let a1 = c1 * m + (u1 + cap);
    let a2 = c2 * m + (u2 + cap);
    assert(0 <= a1 < CLASS_LIMIT * m) by (nonlinear_arith)
        requires
            c1 < CLASS_LIMIT,
            0 <= u1 + cap < m,
            a1 == c1 * m + (u1 + cap),
    ;
    assert(CLASS_LIMIT * m <= CLASS_LIMIT * (2 * CAP_LIMIT + 1)) by (nonlinear_arith)
        requires
            m <= 2 * CAP_LIMIT + 1,
    ;
    assert(0 <= a1 * m + (v1 + cap) < CLASS_LIMIT * (2 * CAP_LIMIT + 1) * (2 * CAP_LIMIT + 1)) by (nonlinear_arith)
        requires
            0 <= a1 < CLASS_LIMIT * (2 * CAP_LIMIT + 1),
            0 <= v1 + cap < m,
            m <= 2 * CAP_LIMIT + 1,
    ;
    assert(CLASS_LIMIT * (2 * CAP_LIMIT + 1) * (2 * CAP_LIMIT + 1) <= u64::MAX) by (nonlinear_arith);
    assert(skey(c1, u1, v1, cap) == a1 * m + (v1 + cap));
    if skey(c1, u1, v1, cap) == skey(c2, u2, v2, cap) {
        assert(0 <= a2) by (nonlinear_arith)
            requires
                c2 >= 0,
                u2 + cap >= 0,
                a2 == c2 * m + (u2 + cap),
                m >= 1,
        ;
        crate::product::lemma_pair_unique(a1 as nat, (v1 + cap) as nat, a2 as nat, (v2 + cap) as nat, m as nat);
        crate::product::lemma_pair_unique(c1, (u1 + cap) as nat, c2, (u2 + cap) as nat, m as nat);
    }
}

/// `skey`, computed.
fn akey(c: usize, u: i64, v: i64, cap: i64) -> (r: u64)
    requires
        1 <= cap <= CAP_LIMIT,
        c < CLASS_LIMIT,
        -cap <= u <= cap,
        -cap <= v <= cap,
    ensures
        r == skey(c as nat, u as int, v as int, cap as int),
{
    proof {
        lemma_skey(c as nat, u as int, v as int, c as nat, u as int, v as int, cap as int);
        let m = 2 * cap + 1;
        assert(0 <= c * m + (u + cap) <= CLASS_LIMIT * (2 * CAP_LIMIT + 1)) by (nonlinear_arith)
            requires
                c < CLASS_LIMIT,
                0 <= u + cap < m,
                m <= 2 * CAP_LIMIT + 1,
        ;
    }
    let m = (2 * cap + 1) as u64;
    ((c as u64) * m + ((u + cap) as u64)) * m + ((v + cap) as u64)
}

/// The carry states met so far, in discovery order, with a hash index.
pub struct Carries {
    pub order: Vec<(usize, i64, i64)>,
    pub index: HashMap<u64, usize>,
}

impl Carries {
    /// Every state is in range and found under its key; every key leads back
    /// to the state it was made from.
    pub open spec fn wf(&self, cap: int, nc: nat) -> bool {
        &&& 1 <= cap <= CAP_LIMIT
        &&& nc < CLASS_LIMIT
        &&& forall|t: int| 0 <= t < self.order@.len() ==> {
            let e = #[trigger] self.order@[t];
            &&& 1 <= e.0 <= nc
            &&& -cap <= e.1 <= cap
            &&& -cap <= e.2 <= cap
            &&& self.index@.contains_key(skey(e.0 as nat, e.1 as int, e.2 as int, cap) as u64)
            &&& self.index@[skey(e.0 as nat, e.1 as int, e.2 as int, cap) as u64] == t
        }
        &&& forall|k: u64| #[trigger] self.index@.contains_key(k) ==> {
            let t = self.index@[k] as int;
            &&& t < self.order@.len()
            &&& skey(self.order@[t].0 as nat, self.order@[t].1 as int, self.order@[t].2 as int, cap) == k
        }
    }

    /// `(c, u, v)` is in range and has been met.
    pub open spec fn known(&self, c: nat, u: int, v: int, cap: int) -> bool {
        &&& c < CLASS_LIMIT
        &&& -cap <= u <= cap
        &&& -cap <= v <= cap
        &&& self.index@.contains_key(skey(c, u, v, cap) as u64)
    }

    /// A known state sits at the index its key gives.
    pub proof fn lemma_known(&self, c: nat, u: int, v: int, cap: int, nc: nat)
        requires
            self.wf(cap, nc),
            self.known(c, u, v, cap),
        ensures
            ({
                let t = self.index@[skey(c, u, v, cap) as u64] as int;
                &&& 0 <= t < self.order@.len()
                &&& self.order@[t] == (c as usize, u as i64, v as i64)
            }),
    {
        let k = skey(c, u, v, cap) as u64;
        let t = self.index@[k] as int;
        let e = self.order@[t];
        lemma_skey(c, u, v, c, u, v, cap);
        lemma_skey(e.0 as nat, e.1 as int, e.2 as int, c, u, v, cap);
    }

    /// The state at `t` is the only one with its value.
    pub proof fn lemma_unique(&self, t: int, t2: int, cap: int, nc: nat)
        requires
            self.wf(cap, nc),
            0 <= t < self.order@.len(),
            0 <= t2 < self.order@.len(),
            self.order@[t] == self.order@[t2],
        ensures
            t == t2,
    {
    }

    /// The index of `(c, u, v)`, added at the end if it is new.
    pub fn intern(&mut self, c: usize, u: i64, v: i64, cap: i64, Ghost(nc): Ghost<nat>) -> (r: usize)
        requires
            old(self).wf(cap as int, nc),
            1 <= c <= nc,
            -cap <= u <= cap,
            -cap <= v <= cap,
            old(self).order@.len() < usize::MAX,
        ensures
            final(self).wf(cap as int, nc),
            r < final(self).order@.len(),
            final(self).order@[r as int] == (c, u, v),
            final(self).order@ == old(self).order@ || final(self).order@ == old(self).order@.push((c, u, v)),
            forall|k: u64| old(self).index@.contains_key(k) ==> #[trigger] final(self).index@.contains_key(k),
    {
        let k = akey(c, u, v, cap);
        match self.index.get(&k) {
            Some(t) => {
                let t = *t;
                proof {
                    self.lemma_known(c as nat, u as int, v as int, cap as int, nc);
                }
                t
            },
            None => {
                let t = self.order.len();
                let ghost old_order = self.order@;
                let ghost old_index = self.index@;
                self.order.push((c, u, v));
                self.index.insert(k, t);
                proof {
                    assert forall|x: int| 0 <= x < self.order@.len() implies {
                        let e = #[trigger] self.order@[x];
                        &&& 1 <= e.0 <= nc
                        &&& -cap <= e.1 <= cap
                        &&& -cap <= e.2 <= cap
                        &&& self.index@.contains_key(skey(e.0 as nat, e.1 as int, e.2 as int, cap as int) as u64)
                        &&& self.index@[skey(e.0 as nat, e.1 as int, e.2 as int, cap as int) as u64] == x
                    } by {
                        if x < t {
                            let e = old_order[x];
                            assert(old_index.contains_key(skey(e.0 as nat, e.1 as int, e.2 as int, cap as int) as u64));
                            lemma_skey(e.0 as nat, e.1 as int, e.2 as int, c as nat, u as int, v as int, cap as int);
                        }
                    }
                    assert forall|k2: u64| #[trigger] self.index@.contains_key(k2) implies {
                        let t2 = self.index@[k2] as int;
                        &&& t2 < self.order@.len()
                        &&& skey(self.order@[t2].0 as nat, self.order@[t2].1 as int, self.order@[t2].2 as int, cap as int) == k2
                    } by {
                        if k2 != k {
                            assert(old_index.contains_key(k2));
                        }
                    }
                }
                t
            },
        }
    }
}

impl Cf {
    /// Class `c` may move to class `j` (class 1 ends the word).
    pub open spec fn moves_to(&self, c: nat, j: nat) -> bool {
        c != 1 && ((c > 1 && j == c - 1) || (c == self.period_index && j == self.nc()))
    }
}

/// Every feasible successor of the state at `t` on `sym` has been met.
pub open spec fn succ_known(cf: &Cf, tab: &Carries, t: int, sym: nat, d: nat, cap: int) -> bool {
    let e = tab.order@[t];
    let u2 = cf.carry(e.0 as nat, e.1 as int, e.2 as int, sym, d);
    forall|j: nat| #[trigger] cf.moves_to(e.0 as nat, j) && cf.feasible_spec(j, u2, e.1 as int)
        ==> tab.known(j, u2, e.1 as int, cap)
}

/// The adder NFA has an edge from state `t` on `sym` to `x`: the final
/// state `order.len()` after class 1 leaves carry 0, else the feasible
/// successor state.
pub open spec fn adds(cf: &Cf, order: Seq<(usize, i64, i64)>, d: nat, t: int, sym: nat, x: nat) -> bool {
    let e = order[t];
    let u2 = cf.carry(e.0 as nat, e.1 as int, e.2 as int, sym, d);
    if e.0 == 1 {
        u2 == 0 && x == order.len()
    } else {
        &&& x < order.len()
        &&& order[x as int].1 == u2
        &&& order[x as int].2 == e.1
        &&& cf.moves_to(e.0 as nat, order[x as int].0 as nat)
        &&& cf.feasible_spec(order[x as int].0 as nat, u2, e.1 as int)
    }
}

/// The new leading carry of the state at `t` on `sym`, computed.
fn carry_of(cf: &Cf, e: (usize, i64, i64), sym: usize, d: usize, cap: i64) -> (r: i64)
    requires
        cf.wf(),
        1 <= e.0 < cf.alpha@.len(),
        1 <= cap <= CAP_LIMIT,
        -cap <= e.1 <= cap,
        -cap <= e.2 <= cap,
        2 <= d <= 161,
    ensures
        r == cf.carry(e.0 as nat, e.1 as int, e.2 as int, sym as nat, d as nat),
{
    proof {
        assert(spow(d as nat, 0) == 1);
        assert(spow(d as nat, 1) == d * spow(d as nat, 0));
        assert(spow(d as nat, 2) == d * spow(d as nat, 1));
        assert(d * d <= 161 * 161) by (nonlinear_arith)
            requires
                d <= 161,
        ;
    }
    let x = crate::dfa::digit(sym, 0, d);
    let y = crate::dfa::digit(sym, 1, d);
    let z = crate::dfa::digit(sym, 2, d);
    let a = cf.a(e.0) as i64;
    proof {
        assert(-0xffff_ffff * CAP_LIMIT <= a * e.1 <= 0xffff_ffff * CAP_LIMIT) by (nonlinear_arith)
            requires
                0 <= a <= 0xffff_ffff,
                -CAP_LIMIT <= e.1 <= CAP_LIMIT,
        ;
    }
    a * e.1 + e.2 + (x as i64 + y as i64 - z as i64)
}

/// The successor list of state `t` on `sym` in the adder NFA.
fn adder_row(cf: &Cf, tab: &Carries, t: usize, sym: usize, d: usize, cap: i64, Ghost(nc): Ghost<nat>) -> (r: Vec<State>)
    requires
        cf.wf(),
        nc == cf.nc(),
        tab.wf(cap as int, nc),
        t < tab.order@.len(),
        tab.order@.len() < u32::MAX,
        2 <= d <= 161,
        succ_known(cf, tab, t as int, sym as nat, d as nat, cap as int),
    ensures
        forall|x: State| r@.contains(x) <==> adds(cf, tab.order@, d as nat, t as int, sym as nat, x as nat),
        forall|i: int| 0 <= i < r@.len() ==> (#[trigger] r@[i] as nat) <= tab.order@.len(),
{
    let e = tab.order[t];
    let ghost sq = tab.order@;
    let u2 = carry_of(cf, e, sym, d, cap);
    let mut row: Vec<State> = Vec::new();
    if e.0 == 1 {
        if u2 == 0 {
            row.push(tab.order.len() as State);
        }
        proof {
            assert forall|x: State| row@.contains(x) <==> adds(cf, sq, d as nat, t as int, sym as nat, x as nat) by {
                if row@.contains(x) {
                    assert(row@[0] == x);
                }
                if adds(cf, sq, d as nat, t as int, sym as nat, x as nat) {
                    assert(row@[0] == x);
                }
            }
        }
        return row;
    }
    let ghost c = e.0 as nat;
    let j1 = e.0 - 1;
    let f1 = cf.feasible(j1, u2, e.1);
    let mut t1: usize = 0;
    if f1 {
        proof {
            assert(cf.moves_to(c, j1 as nat));
            tab.lemma_known(j1 as nat, u2 as int, e.1 as int, cap as int, nc);
        }
        t1 = *tab.index.get(&akey(j1, u2, e.1, cap)).unwrap();
        row.push(t1 as State);
    }
    let f2 = e.0 == cf.period_index && cf.feasible(nc_of(cf), u2, e.1);
    let mut t2: usize = 0;
    if f2 {
        let j2 = nc_of(cf);
        proof {
            assert(cf.moves_to(c, j2 as nat));
            tab.lemma_known(j2 as nat, u2 as int, e.1 as int, cap as int, nc);
        }
        t2 = *tab.index.get(&akey(j2, u2, e.1, cap)).unwrap();
        row.push(t2 as State);
    }
    proof {
        assert forall|x: State| row@.contains(x) <==> adds(cf, sq, d as nat, t as int, sym as nat, x as nat) by {
            if adds(cf, sq, d as nat, t as int, sym as nat, x as nat) {
                let j = sq[x as int].0 as nat;
                if j == c - 1 {
                    tab.lemma_unique(x as int, t1 as int, cap as int, nc);
                    assert(row@[0] == x);
                } else {
                    tab.lemma_unique(x as int, t2 as int, cap as int, nc);
                    assert(row@[row@.len() - 1] == x);
                }
            }
            if row@.contains(x) {
                let i = choose|i: int| 0 <= i < row@.len() && row@[i] == x;
                if f1 && i == 0 {
                    assert(x == t1);
                } else {
                    assert(x == t2);
                }
            }
        }
    }
    row
}

/// `nc`, computed.
fn nc_of(cf: &Cf) -> (r: usize)
    requires
        cf.wf(),
    ensures
        r == cf.nc(),
        1 <= r < cf.alpha@.len(),
{
    cf.alpha.len() - 1
}

/// Some state of `order` is `(j, u, v)`.
pub open spec fn has_state(order: Seq<(usize, i64, i64)>, j: nat, u: int, v: int) -> bool {
    exists|m: int| 0 <= m < order.len() && order[m].0 as nat == j && order[m].1 as int == u && #[trigger] order[m].2 as int == v
}

/// Every feasible move out of a listed state leads to a listed state.
pub open spec fn closed(cf: &Cf, order: Seq<(usize, i64, i64)>, d: nat, alpha: nat) -> bool {
    forall|t: int, sym: nat, j: nat|
        0 <= t < order.len() && sym < alpha && #[trigger] cf.moves_to(order[t].0 as nat, j)
            && cf.feasible_spec(j, #[trigger] cf.carry(order[t].0 as nat, order[t].1 as int, order[t].2 as int, sym, d), order[t].1 as int)
        ==> has_state(order, j, cf.carry(order[t].0 as nat, order[t].1 as int, order[t].2 as int, sym, d), order[t].1 as int)
}

/// The table the adder NFA is built from.
pub open spec fn adder_table(n: &Nfa, cf: &Cf, order: Seq<(usize, i64, i64)>, d: nat) -> bool {
    &&& n.nstates == order.len() + 1
    &&& forall|t: int, sym: nat, x: State| 0 <= t < order.len() && sym < n.alpha
        ==> (#[trigger] n.trans@[t * n.alpha + sym]@.contains(x) <==> adds(cf, order, d, t, sym, x as nat))
    &&& forall|sym: nat| sym < n.alpha ==> #[trigger] n.trans@[order.len() * n.alpha + sym]@.len() == 0
}

/// Nothing leaves the final state.
proof fn lemma_final_stuck(n: &Nfa, f: nat, w: Seq<usize>, x: nat)
    requires
        n.wf(),
        f < n.nstates,
        forall|sym: nat| sym < n.alpha ==> #[trigger] n.trans@[f * n.alpha + sym]@.len() == 0,
        word_over(w, n.alpha as nat),
    ensures
        n.path(f, w, x) <==> (w.len() == 0 && x == f),
    decreases w.len(),
{
    if w.len() > 0 {
        crate::dfa::lemma_word_over_sub(w, n.alpha as nat);
        lemma_final_stuck(n, f, w.drop_last(), x);
        if n.path(f, w, x) {
            let m = choose|m: nat| m < n.nstates && #[trigger] n.path(f, w.drop_last(), m) && n.edge(m, w.last() as nat, x);
            lemma_final_stuck(n, f, w.drop_last(), m);
            assert(n.trans@[(f * n.alpha + w.last()) as int]@.len() == 0);
        }
    }
}

/// A path from state `t` to the final state spells a word on which the
/// carry automaton finishes from `order[t]`, and conversely.
proof fn lemma_adder_path(n: &Nfa, cf: &Cf, order: Seq<(usize, i64, i64)>, d: nat, t: nat, w: Seq<usize>)
    requires
        cf.wf(),
        n.wf(),
        adder_table(n, cf, order, d),
        closed(cf, order, d, n.alpha as nat),
        forall|m: int| 0 <= m < order.len() ==> 1 <= (#[trigger] order[m]).0 <= cf.nc(),
        t < order.len(),
        word_over(w, n.alpha as nat),
    ensures
        n.path(t, w, order.len()) <==> cf.finishes(order[t as int].0 as nat, order[t as int].1 as int, order[t as int].2 as int, w, d),
    decreases w.len(),
{
    let f = order.len();
    let e = order[t as int];
    let c = e.0 as nat;
    if w.len() == 0 {
        assert(!n.path(t, w, f));
    } else {
        let a = w[0];
        let rest = w.drop_first();
        assert(w =~= seq![a] + rest);
        crate::dfa::lemma_word_over_sub(w, n.alpha as nat);
        assert(word_over(rest, n.alpha as nat));
        n.lemma_path_split(t, seq![a], rest, f);
        let u2 = cf.carry(c, e.1 as int, e.2 as int, a as nat, d);
        assert forall|m: nat| #[trigger] n.path(t, seq![a], m) <==> (m < n.nstates && adds(cf, order, d, t as int, a as nat, m)) by {
            n.lemma_path_one(t, a, m);
            if m < n.nstates {
                assert(n.trans@[t * n.alpha + a]@.contains(m as State) <==> adds(cf, order, d, t as int, a as nat, m));
            }
        }
        lemma_final_stuck(n, f, rest, f);
        if c == 1 {
            if n.path(t, w, f) {
                let m = choose|m: nat| #[trigger] n.path(t, seq![a], m) && n.path(m, rest, f);
                assert(m == f);
            }
            if cf.finishes(c, e.1 as int, e.2 as int, w, d) {
                assert(rest.len() == 0);
                assert(n.path(t, seq![a], f));
                assert(n.path(f, rest, f));
            }
        } else {
            if n.path(t, w, f) {
                let m = choose|m: nat| #[trigger] n.path(t, seq![a], m) && n.path(m, rest, f);
                assert(adds(cf, order, d, t as int, a as nat, m));
                lemma_adder_path(n, cf, order, d, m, rest);
                let j = order[m as int].0 as nat;
                assert(j == c - 1 || (c == cf.period_index && j == cf.nc()));
            }
            if cf.finishes(c, e.1 as int, e.2 as int, w, d) {
                let j: nat = if c > 1 && cf.feasible_spec((c - 1) as nat, u2, e.1 as int)
                    && cf.finishes((c - 1) as nat, u2, e.1 as int, rest, d) { (c - 1) as nat } else { cf.nc() };
                assert(cf.moves_to(c, j));
                assert(has_state(order, j, u2, e.1 as int));
                let m = choose|m: int| 0 <= m < order.len() && order[m].0 as nat == j && order[m].1 as int == u2 && #[trigger] order[m].2 as int == e.1 as int;
                lemma_adder_path(n, cf, order, d, m as nat, rest);
                assert(adds(cf, order, d, t as int, a as nat, m as nat));
                assert(n.path(t, seq![a], m as nat));
            }
        }
    }
}

/// Number of `true` entries.
pub open spec fn ntrue(s: Seq<bool>) -> nat
    decreases s.len(),
{
    if s.len() == 0 {
        0
    } else {
        ntrue(s.drop_last()) + if s.last() { 1nat } else { 0nat }
    }
}

/// Setting a `false` entry to `true` adds one, and the count is at most the length.
pub proof fn lemma_ntrue(s: Seq<bool>, i: int)
    requires
        0 <= i < s.len(),
        !s[i],
    ensures
        ntrue(s.update(i, true)) == ntrue(s) + 1,
        ntrue(s) < s.len(),
    decreases s.len(),
{
    if i == s.len() - 1 {
        assert(s.update(i, true).drop_last() =~= s.drop_last());
        lemma_ntrue_bound(s.drop_last());
    } else {
        assert(s.update(i, true).drop_last() =~= s.drop_last().update(i, true));
        lemma_ntrue(s.drop_last(), i);
    }
}

pub proof fn lemma_ntrue_bound(s: Seq<bool>)
    ensures
        ntrue(s) <= s.len(),
    decreases s.len(),
{
    if s.len() > 0 {
        lemma_ntrue_bound(s.drop_last());
    }
}

/// `succ_known` survives growing the table.
proof fn lemma_succ_grow(cf: &Cf, a: &Carries, b: &Carries, t: int, sym: nat, d: nat, cap: int)
    requires
        0 <= t < a.order@.len() <= b.order@.len(),
        b.order@[t] == a.order@[t],
        forall|k: u64| a.index@.contains_key(k) ==> #[trigger] b.index@.contains_key(k),
        succ_known(cf, a, t, sym, d, cap),
    ensures
        succ_known(cf, b, t, sym, d, cap),
{
    let e = a.order@[t];
    let u2 = cf.carry(e.0 as nat, e.1 as int, e.2 as int, sym, d);
    assert forall|j: nat| #[trigger] cf.moves_to(e.0 as nat, j) && cf.feasible_spec(j, u2, e.1 as int)
        implies b.known(j, u2, e.1 as int, cap) by {
        assert(a.known(j, u2, e.1 as int, cap));
    }
}

/// A fully explored table is closed under feasible moves.
proof fn lemma_closed(cf: &Cf, tab: &Carries, d: nat, alpha: nat, cap: int, nc: nat)
    requires
        tab.wf(cap, nc),
        forall|t: int, sym: nat| 0 <= t < tab.order@.len() && sym < alpha ==> #[trigger] succ_known(cf, tab, t, sym, d, cap),
    ensures
        closed(cf, tab.order@, d, alpha),
{
    let order = tab.order@;
    assert forall|t: int, sym: nat, j: nat|
        0 <= t < order.len() && sym < alpha && #[trigger] cf.moves_to(order[t].0 as nat, j)
            && cf.feasible_spec(j, #[trigger] cf.carry(order[t].0 as nat, order[t].1 as int, order[t].2 as int, sym, d), order[t].1 as int)
        implies has_state(order, j, cf.carry(order[t].0 as nat, order[t].1 as int, order[t].2 as int, sym, d), order[t].1 as int) by {
        let u2 = cf.carry(order[t].0 as nat, order[t].1 as int, order[t].2 as int, sym, d);
        assert(succ_known(cf, tab, t, sym, d, cap));
        assert(tab.known(j, u2, order[t].1 as int, cap));
        tab.lemma_known(j, u2, order[t].1 as int, cap, nc);
        let m = tab.index@[skey(j, u2, order[t].1 as int, cap) as u64] as int;
        assert(order[m].2 as int == order[t].1 as int);
    }
}

/// The adder NFA accepts exactly what the carry automaton accepts.
proof fn lemma_adder_lang(n: &Nfa, cf: &Cf, order: Seq<(usize, i64, i64)>, d: nat, w: Seq<usize>)
    requires
        cf.wf(),
        n.wf(),
        adder_table(n, cf, order, d),
        closed(cf, order, d, n.alpha as nat),
        forall|m: int| 0 <= m < order.len() ==> 1 <= (#[trigger] order[m]).0 <= cf.nc(),
        cf.nc() <= order.len(),
        forall|m: int| 0 <= m < cf.nc() ==> #[trigger] order[m] == ((m + 1) as usize, 0i64, 0i64),
        forall|s: nat| #[trigger] n.is_init(s) <==> s < cf.nc(),
        forall|x: int| 0 <= x < n.nstates ==> #[trigger] n.accept@[x] == (x == order.len()),
        word_over(w, n.alpha as nat),
        d == cf.dmax + 1,
    ensures
        n.accepts(w) == cf.sum_accepts(w),
{
    let f = order.len();
    let dd = (cf.dmax + 1) as nat;
    n.lemma_reach_path(w, f);
    if n.accepts(w) {
        let t = choose|t: nat| t < n.nstates && #[trigger] n.reach(w, t) && n.accept@[t as int];
        assert(t == f);
        let s0 = choose|s0: nat| #[trigger] n.is_init(s0) && n.path(s0, w, f);
        lemma_adder_path(n, cf, order, d, s0, w);
        assert(order[s0 as int] == ((s0 + 1) as usize, 0i64, 0i64));
        assert(cf.finishes(s0 + 1, 0, 0, w, d));
    }
    if cf.sum_accepts(w) {
        let c = choose|c: nat| 1 <= c <= cf.nc() && #[trigger] cf.finishes(c, 0, 0, w, dd);
        let s0 = (c - 1) as nat;
        assert(order[s0 as int] == (c as usize, 0i64, 0i64));
        lemma_adder_path(n, cf, order, d, s0, w);
        assert(n.is_init(s0));
        assert(n.path(s0, w, f));
        assert(n.reach(w, f));
        assert(n.accept@[f as int]);
    }
}

/// Record the move of carry `u2` to class `j` if it is feasible; a carry
/// beyond the cap is an error.
fn visit(cf: &Cf, tab: &mut Carries, j: usize, u2: i64, u: i64, cap: i64, Ghost(nc): Ghost<nat>) -> (r: Result<(), String>)
    requires
        cf.wf(),
        nc == cf.nc(),
        old(tab).wf(cap as int, nc),
        1 <= j <= nc,
        -cap <= u <= cap,
        old(tab).order@.len() < usize::MAX,
    ensures
        r is Ok ==> {
            &&& final(tab).wf(cap as int, nc)
            &&& old(tab).order@.len() <= final(tab).order@.len() <= old(tab).order@.len() + 1
            &&& forall|i: int| 0 <= i < old(tab).order@.len() ==> #[trigger] final(tab).order@[i] == old(tab).order@[i]
            &&& forall|k: u64| old(tab).index@.contains_key(k) ==> #[trigger] final(tab).index@.contains_key(k)
            &&& cf.feasible_spec(j as nat, u2 as int, u as int) ==> final(tab).known(j as nat, u2 as int, u as int, cap as int)
        },
{
    if cf.feasible(j, u2, u) {
        if u2 > cap || u2 < -cap {
            return Err(str_to_string("Ostrowski adder: a carry exceeded the cap"));
        }
        let ghost before = tab.order@;
        let t = tab.intern(j, u2, u, cap, Ghost(nc));
        proof {
            let e = tab.order@[t as int];
            assert(tab.index@.contains_key(skey(e.0 as nat, e.1 as int, e.2 as int, cap as int) as u64));
        }
    }
    Ok(())
}

/// The msd adder `(x, y, z) : x + y = z` of the Ostrowski system for `cf`:
/// the carry automaton over states `(class, u, v)`, explored from every class
/// with zero carry, made deterministic and minimal. `cap` bounds `|u|, |v|`;
/// the construction fails rather than truncate, and also fails when a state on
/// the cap is both reachable and co-reachable (the cap might have bound).
pub fn addition(cf: &Cf, cap: i64) -> (r: Result<Dfa, String>)
    requires
        cf.wf(),
        1 <= cap <= CAP_LIMIT,
    ensures
        r matches Ok(a) ==> {
            &&& a.wf()
            &&& a.k == cf.dmax + 1
            &&& a.vars@.len() == 3
            &&& forall|w: Seq<usize>| word_over(w, a.alpha as nat) ==> #[trigger] a.accepts(w) == cf.sum_accepts(w)
        },
{
    if cf.dmax >= 161 {
        return Err(str_to_string("Ostrowski adder: the digit alphabet is too large"));
    }
    let nc = nc_of(cf);
    if nc >= CLASS_LIMIT {
        return Err(str_to_string("Ostrowski adder: too many index classes"));
    }
    let d = cf.dmax + 1;
    proof {
        assert(digit_cap(cf.alpha@, 1) >= 1);
        assert(d * d <= 161 * 161) by (nonlinear_arith)
            requires
                d <= 161,
        ;
        assert(d * d * d <= 161 * 161 * 161) by (nonlinear_arith)
            requires
                d <= 161,
                d * d <= 161 * 161,
        ;
    }
    let alpha = d * d * d;
    let ghost gnc = nc as nat;
    let mut tab = Carries { order: Vec::new(), index: HashMap::new() };
    let mut i: usize = 1;
    while i <= nc
        invariant
            cf.wf(),
            nc == cf.nc(),
            gnc == nc,
            nc < CLASS_LIMIT,
            1 <= cap <= CAP_LIMIT,
            1 <= i <= nc + 1,
            tab.wf(cap as int, gnc),
            tab.order@.len() == i - 1,
            forall|m: int| 0 <= m < i - 1 ==> #[trigger] tab.order@[m] == ((m + 1) as usize, 0i64, 0i64),
        decreases nc + 1 - i,
    {
        let ghost before = tab.order@;
        let r = tab.intern(i, 0, 0, cap, Ghost(gnc));
        proof {
            if tab.order@ == before {
                assert(tab.order@[r as int].0 == r + 1);
            }
        }
        i = i + 1;
    }
    let mut q: usize = 0;
    while q < tab.order.len()
        invariant
            cf.wf(),
            nc == cf.nc(),
            gnc == nc,
            nc < CLASS_LIMIT,
            1 <= cap <= CAP_LIMIT,
            d == cf.dmax + 1,
            2 <= d <= 161,
            alpha == d * d * d,
            alpha <= 161 * 161 * 161,
            tab.wf(cap as int, gnc),
            nc <= tab.order@.len() <= ADDER_STATES,
            q <= tab.order@.len(),
            forall|m: int| 0 <= m < nc ==> #[trigger] tab.order@[m] == ((m + 1) as usize, 0i64, 0i64),
            forall|t: int, sym: nat| 0 <= t < q && sym < alpha ==> #[trigger] succ_known(cf, &tab, t, sym, d as nat, cap as int),
        decreases ADDER_STATES - q,
    {
        let e = tab.order[q];
        let mut sym: usize = 0;
        while sym < alpha
            invariant
                cf.wf(),
                nc == cf.nc(),
                gnc == nc,
                nc < CLASS_LIMIT,
                1 <= cap <= CAP_LIMIT,
                d == cf.dmax + 1,
                2 <= d <= 161,
                alpha == d * d * d,
                alpha <= 161 * 161 * 161,
                tab.wf(cap as int, gnc),
                nc <= tab.order@.len() <= ADDER_STATES + 2 * sym,
                q < tab.order@.len(),
                tab.order@[q as int] == e,
                sym <= alpha,
                forall|m: int| 0 <= m < nc ==> #[trigger] tab.order@[m] == ((m + 1) as usize, 0i64, 0i64),
                forall|t: int, s2: nat| 0 <= t < q && s2 < alpha ==> #[trigger] succ_known(cf, &tab, t, s2, d as nat, cap as int),
                forall|s2: nat| s2 < sym ==> #[trigger] succ_known(cf, &tab, q as int, s2, d as nat, cap as int),
            decreases alpha - sym,
        {
            let ghost t0 = tab;
            let u2 = carry_of(cf, e, sym, d, cap);
            if e.0 != 1 {
                visit(cf, &mut tab, e.0 - 1, u2, e.1, cap, Ghost(gnc))?;
                let ghost t1 = tab;
                if e.0 == cf.period_index {
                    visit(cf, &mut tab, nc, u2, e.1, cap, Ghost(gnc))?;
                    proof {
                        if cf.feasible_spec((e.0 - 1) as nat, u2 as int, e.1 as int) {
                            assert(t1.known((e.0 - 1) as nat, u2 as int, e.1 as int, cap as int));
                        }
                    }
                }
            }
            proof {
                assert forall|i2: int| 0 <= i2 < t0.order@.len() implies #[trigger] tab.order@[i2] == t0.order@[i2] by {
                }
                assert forall|k: u64| t0.index@.contains_key(k) implies #[trigger] tab.index@.contains_key(k) by {
                }
                assert forall|t: int, s2: nat| (0 <= t < q && s2 < alpha) || (t == q && s2 < sym) implies
                    #[trigger] succ_known(cf, &tab, t, s2, d as nat, cap as int) by {
                    lemma_succ_grow(cf, &t0, &tab, t, s2, d as nat, cap as int);
                }
                let c = e.0 as nat;
                assert forall|j: nat| #[trigger] cf.moves_to(c, j) && cf.feasible_spec(j, u2 as int, e.1 as int)
                    implies tab.known(j, u2 as int, e.1 as int, cap as int) by {
                }
                assert(succ_known(cf, &tab, q as int, sym as nat, d as nat, cap as int));
            }
            sym = sym + 1;
        }
        q = q + 1;
        if tab.order.len() > ADDER_STATES {
            return Err(str_to_string("Ostrowski adder: too many carry states"));
        }
    }
    let o = tab.order.len();
    let n = o + 1;
    proof {
        lemma_closed(cf, &tab, d as nat, alpha as nat, cap as int, gnc);
    }
    let ghost order = tab.order@;
    let mut trans: Vec<Vec<State>> = Vec::new();
    let mut t: usize = 0;
    while t < o
        invariant
            cf.wf(),
            nc == cf.nc(),
            gnc == nc,
            tab.wf(cap as int, gnc),
            tab.order@ == order,
            o == order.len(),
            o <= ADDER_STATES,
            2 <= d <= 161,
            alpha == d * d * d,
            t <= o,
            forall|t2: int, sym: nat| 0 <= t2 < o && sym < alpha ==> #[trigger] succ_known(cf, &tab, t2, sym, d as nat, cap as int),
            trans@.len() == t * alpha,
            forall|t2: int, sym: nat, x: State| 0 <= t2 < t && sym < alpha ==>
                (#[trigger] trans@[t2 * alpha + sym]@.contains(x) <==> adds(cf, order, d as nat, t2, sym, x as nat)),
            forall|i2: int, j2: int| 0 <= i2 < trans@.len() && 0 <= j2 < trans@[i2]@.len() ==> (#[trigger] trans@[i2]@[j2] as nat) <= o,
        decreases o - t,
    {
        let mut sym: usize = 0;
        while sym < alpha
            invariant
                cf.wf(),
                nc == cf.nc(),
                gnc == nc,
                tab.wf(cap as int, gnc),
                tab.order@ == order,
                o == order.len(),
                o <= ADDER_STATES,
                2 <= d <= 161,
                alpha == d * d * d,
                t < o,
                sym <= alpha,
                forall|t2: int, s2: nat| 0 <= t2 < o && s2 < alpha ==> #[trigger] succ_known(cf, &tab, t2, s2, d as nat, cap as int),
                trans@.len() == t * alpha + sym,
                forall|t2: int, s2: nat, x: State| (0 <= t2 < t && s2 < alpha) || (t2 == t && s2 < sym) ==>
                    (#[trigger] trans@[t2 * alpha + s2]@.contains(x) <==> adds(cf, order, d as nat, t2, s2, x as nat)),
                forall|i2: int, j2: int| 0 <= i2 < trans@.len() && 0 <= j2 < trans@[i2]@.len() ==> (#[trigger] trans@[i2]@[j2] as nat) <= o,
            decreases alpha - sym,
        {
            assert(succ_known(cf, &tab, t as int, sym as nat, d as nat, cap as int));
            let row = adder_row(cf, &tab, t, sym, d, cap, Ghost(gnc));
            let ghost pre = trans@;
            trans.push(row);
            proof {
                assert forall|t2: int, s2: nat, x: State| (0 <= t2 < t && s2 < alpha) || (t2 == t && s2 < sym + 1) implies
                    (#[trigger] trans@[t2 * alpha + s2]@.contains(x) <==> adds(cf, order, d as nat, t2, s2, x as nat)) by {
                    if t2 == t && s2 == sym {
                    } else {
                        crate::dfa::lemma_index(t2 as nat, s2, t as nat + 1, alpha as nat);
                        if t2 < t {
                            crate::dfa::lemma_index(t2 as nat, s2, t as nat, alpha as nat);
                        }
                        assert(trans@[t2 * alpha + s2] == pre[t2 * alpha + s2]);
                    }
                }
            }
            sym = sym + 1;
        }
        proof {
            assert((t + 1) * alpha == t * alpha + alpha) by (nonlinear_arith);
        }
        t = t + 1;
    }
    let mut sym: usize = 0;
    while sym < alpha
        invariant
            o == order.len(),
            alpha == d * d * d,
            2 <= d <= 161,
            sym <= alpha,
            trans@.len() == o * alpha + sym,
            forall|t2: int, s2: nat, x: State| 0 <= t2 < o && s2 < alpha ==>
                (#[trigger] trans@[t2 * alpha + s2]@.contains(x) <==> adds(cf, order, d as nat, t2, s2, x as nat)),
            forall|s2: nat| s2 < sym ==> #[trigger] trans@[o * alpha + s2]@.len() == 0,
            forall|i2: int, j2: int| 0 <= i2 < trans@.len() && 0 <= j2 < trans@[i2]@.len() ==> (#[trigger] trans@[i2]@[j2] as nat) <= o,
        decreases alpha - sym,
    {
        let ghost pre = trans@;
        trans.push(Vec::new());
        proof {
            assert forall|t2: int, s2: nat, x: State| 0 <= t2 < o && s2 < alpha implies
                (#[trigger] trans@[t2 * alpha + s2]@.contains(x) <==> adds(cf, order, d as nat, t2, s2, x as nat)) by {
                crate::dfa::lemma_index(t2 as nat, s2, o as nat, alpha as nat);
                assert(trans@[t2 * alpha + s2] == pre[t2 * alpha + s2]);
            }
            assert forall|s2: nat| s2 < sym + 1 implies #[trigger] trans@[o * alpha + s2]@.len() == 0 by {
                if s2 < sym {
                    assert(trans@[o * alpha + s2] == pre[o * alpha + s2]);
                }
            }
        }
        sym = sym + 1;
    }
    let mut init: Vec<State> = Vec::new();
    let mut i: usize = 0;
    while i < nc
        invariant
            i <= nc,
            nc <= o,
            o <= ADDER_STATES,
            init@.len() == i,
            forall|m: int| 0 <= m < i ==> #[trigger] init@[m] == m as State,
        decreases nc - i,
    {
        init.push(i as State);
        i = i + 1;
    }
    let mut accept: Vec<bool> = Vec::new();
    let mut i: usize = 0;
    while i < n
        invariant
            i <= n,
            n == o + 1,
            accept@.len() == i,
            forall|m: int| 0 <= m < i ==> #[trigger] accept@[m] == (m == o),
        decreases n - i,
    {
        accept.push(i == o);
        i = i + 1;
    }
    let vars: Vec<String> = vec![str_to_string("\u{1}a"), str_to_string("\u{1}b"), str_to_string("\u{1}c")];
    proof {
        reveal_strlit("\u{1}a");
        reveal_strlit("\u{1}b");
        reveal_strlit("\u{1}c");
        assert(vars@.len() == 3);
        assert(spow(d as nat, 0) == 1);
        assert(spow(d as nat, 1) == d * spow(d as nat, 0));
        assert(spow(d as nat, 2) == d * spow(d as nat, 1));
        assert(spow(d as nat, 3) == d * spow(d as nat, 2));
        assert(d * (d * d) == d * d * d) by (nonlinear_arith);
        assert(names(vars@)[0][1] == 'a' && names(vars@)[1][1] == 'b' && names(vars@)[2][1] == 'c');
        assert(crate::dfa::distinct(names(vars@)));
        assert(161 * 161 * 161 <= MAX_ALPHA);
    }
    let nfa = Nfa { k: d, vars, alpha, nstates: n, trans, init, accept };
    proof {
        assert((o + 1) * alpha == o * alpha + alpha) by (nonlinear_arith);
        assert(nfa.k >= 1);
        assert(nfa.alpha == spow(nfa.k as nat, nfa.vars.len() as nat));
        assert(161 * 161 * 161 <= MAX_ALPHA) by (nonlinear_arith);
        assert(1 <= d * d * d) by (nonlinear_arith)
            requires
                d >= 2,
        ;
        assert(1 <= nfa.alpha <= MAX_ALPHA);
        assert(1 <= nfa.nstates <= u32::MAX);
        assert(nfa.trans@.len() == nfa.nstates * nfa.alpha);
        assert(forall|i2: int, j2: int| 0 <= i2 < nfa.trans@.len() && 0 <= j2 < nfa.trans@[i2]@.len()
                ==> (#[trigger] nfa.trans@[i2]@[j2] as nat) < nfa.nstates);
        assert(forall|j2: int| 0 <= j2 < nfa.init@.len() ==> (#[trigger] nfa.init@[j2] as nat) < nfa.nstates);
        assert(nfa.accept@.len() == nfa.nstates);
        assert(nfa.wf());
        assert(adder_table(&nfa, cf, order, d as nat));
        assert forall|s0: nat| #[trigger] nfa.is_init(s0) <==> s0 < cf.nc() by {
            if s0 < cf.nc() {
                assert(nfa.init@[s0 as int] == s0 as State);
            }
        }
    }
    check_cap(&nfa, &tab, cap, Ghost(gnc))?;
    let det = match nfa.determinize() {
        Some(x) => x,
        None => {
            return Err(str_to_string("Ostrowski adder: too many subsets"));
        },
    };
    let m = det.minimize();
    proof {
        assert forall|w: Seq<usize>| word_over(w, m.alpha as nat) implies #[trigger] m.accepts(w) == cf.sum_accepts(w) by {
            lemma_adder_lang(&nfa, cf, order, d as nat, w);
        }
    }
    Ok(m)
}

/// Fail when a state on the carry cap both is reachable from a start state
/// and can still reach acceptance: the cap might have cut a genuine run.
fn check_cap(nfa: &Nfa, tab: &Carries, cap: i64, Ghost(nc): Ghost<nat>) -> (r: Result<(), String>)
    requires
        nfa.wf(),
        tab.wf(cap as int, nc),
        nfa.nstates == tab.order@.len() + 1,
{
    let n = nfa.nstates;
    let alpha = nfa.alpha;
    let o = tab.order.len();
    let tl = nfa.trans.len();
    let mut co: Vec<bool> = Vec::new();
    let mut i: usize = 0;
    while i < n
        invariant
            i <= n,
            co@.len() == i,
        decreases n - i,
    {
        co.push(i == o);
        i = i + 1;
    }
    loop
        invariant
            nfa.wf(),
            n == nfa.nstates,
            alpha == nfa.alpha,
            tl == nfa.trans@.len(),
            co@.len() == n,
        decreases n - ntrue(co@),
    {
        proof {
            lemma_ntrue_bound(co@);
        }
        let ghost start = ntrue(co@);
        let mut ch = false;
        let mut s: usize = 0;
        while s < n
            invariant
                nfa.wf(),
                n == nfa.nstates,
                alpha == nfa.alpha,
                tl == nfa.trans@.len(),
                co@.len() == n,
                s <= n,
                ntrue(co@) >= start,
                ch ==> ntrue(co@) > start,
            decreases n - s,
        {
            if !co[s] {
                let mut found = false;
                let mut x: usize = 0;
                while x < alpha && !found
                    invariant
                        nfa.wf(),
                        n == nfa.nstates,
                        alpha == nfa.alpha,
                        tl == nfa.trans@.len(),
                        co@.len() == n,
                        s < n,
                        x <= alpha,
                    decreases alpha - x,
                {
                    proof {
                        crate::dfa::lemma_index(s as nat, x as nat, n as nat, alpha as nat);
                    }
                    let row = &nfa.trans[s * alpha + x];
                    let mut y: usize = 0;
                    while y < row.len() && !found
                        invariant
                            nfa.wf(),
                            n == nfa.nstates,
                            co@.len() == n,
                            s * alpha + x < nfa.trans@.len(),
                            row@ == nfa.trans@[s * alpha + x]@,
                            y <= row@.len(),
                        decreases row@.len() - y,
                    {
                        if co[row[y] as usize] {
                            found = true;
                        }
                        y = y + 1;
                    }
                    x = x + 1;
                }
                if found {
                    proof {
                        lemma_ntrue(co@, s as int);
                    }
                    co.set(s, true);
                    ch = true;
                }
            }
            s = s + 1;
        }
        proof {
            lemma_ntrue_bound(co@);
        }
        if !ch {
            break;
        }
    }
    let mut reach: Vec<bool> = Vec::new();
    let mut stack: Vec<usize> = Vec::new();
    let mut i: usize = 0;
    while i < n
        invariant
            i <= n,
            reach@.len() == i,
            nfa.wf(),
            n == nfa.nstates,
        decreases n - i,
    {
        reach.push(false);
        i = i + 1;
    }
    let mut j: usize = 0;
    while j < nfa.init.len()
        invariant
            nfa.wf(),
            n == nfa.nstates,
            reach@.len() == n,
            j <= nfa.init@.len(),
            stack@.len() <= ntrue(reach@),
            forall|z: int| 0 <= z < stack@.len() ==> (#[trigger] stack@[z]) < n,
        decreases nfa.init@.len() - j,
    {
        let s0 = nfa.init[j] as usize;
        if !reach[s0] {
            proof {
                lemma_ntrue(reach@, s0 as int);
            }
            reach.set(s0, true);
            stack.push(s0);
        }
        j = j + 1;
    }
    let ghost mut popped: nat = 0;
    while stack.len() > 0
        invariant
            nfa.wf(),
            n == nfa.nstates,
            alpha == nfa.alpha,
            tl == nfa.trans@.len(),
            reach@.len() == n,
            stack@.len() + popped <= ntrue(reach@),
            forall|z: int| 0 <= z < stack@.len() ==> (#[trigger] stack@[z]) < n,
        decreases n - popped,
    {
        proof {
            lemma_ntrue_bound(reach@);
        }
        let s0 = stack.pop().unwrap();
        proof {
            popped = popped + 1;
        }
        let mut x: usize = 0;
        while x < alpha
            invariant
                nfa.wf(),
                n == nfa.nstates,
                alpha == nfa.alpha,
                tl == nfa.trans@.len(),
                reach@.len() == n,
                s0 < n,
                stack@.len() + popped <= ntrue(reach@),
                forall|z: int| 0 <= z < stack@.len() ==> (#[trigger] stack@[z]) < n,
                x <= alpha,
            decreases alpha - x,
        {
            proof {
                crate::dfa::lemma_index(s0 as nat, x as nat, n as nat, alpha as nat);
            }
            let row = &nfa.trans[s0 * alpha + x];
            let mut y: usize = 0;
            while y < row.len()
                invariant
                    nfa.wf(),
                    n == nfa.nstates,
                    reach@.len() == n,
                    s0 * alpha + x < nfa.trans@.len(),
                    row@ == nfa.trans@[s0 * alpha + x]@,
                    y <= row@.len(),
                    stack@.len() + popped <= ntrue(reach@),
                    forall|z: int| 0 <= z < stack@.len() ==> (#[trigger] stack@[z]) < n,
                decreases row@.len() - y,
            {
                let t = row[y] as usize;
                if !reach[t] {
                    proof {
                        lemma_ntrue(reach@, t as int);
                    }
                    reach.set(t, true);
                    stack.push(t);
                }
                y = y + 1;
            }
            x = x + 1;
        }
    }
    let mut s: usize = 0;
    while s < o
        invariant
            tab.wf(cap as int, nc),
            o == tab.order@.len(),
            reach@.len() == o + 1,
            co@.len() == o + 1,
            s <= o,
        decreases o - s,
    {
        let e = tab.order[s];
        if reach[s] && co[s] && (e.1 == cap || e.1 == -cap || e.2 == cap || e.2 == -cap) {
            return Err(str_to_string("Ostrowski adder: the carry cap binds"));
        }
        s = s + 1;
    }
    Ok(())
}

/// The empty word is the representation of 0, so the automata must accept it:
/// `v` with its start state made accepting, minimised (so every word that
/// leads back to the start state is accepted too).
pub fn with_empty_word(v: &Dfa) -> (r: Dfa)
    requires
        v.wf(),
    ensures
        r.wf(),
        r.same_sig(v),
        forall|w: Seq<usize>| word_over(w, v.alpha as nat) ==> #[trigger] r.accepts(w) == (v.accepts(w) || v.run_from(0, w) == 0),
{
    if v.accept[0] {
        let r = v.dup();
        proof {
            assert forall|w: Seq<usize>| word_over(w, v.alpha as nat) implies #[trigger] r.accepts(w) == (v.accepts(w) || v.run_from(0, w) == 0) by {
            }
        }
        return r;
    }
    let mut acc = v.accept.clone();
    acc.set(0, true);
    let d = Dfa {
        k: v.k,
        vars: crate::strs::copy_names(&v.vars),
        alpha: v.alpha,
        nstates: v.nstates,
        trans: v.trans.clone(),
        accept: acc,
    };
    proof {
        assert(d.trans@ =~= v.trans@);
    }
    let r = d.minimize();
    proof {
        assert forall|w: Seq<usize>| word_over(w, v.alpha as nat) implies #[trigger] r.accepts(w) == (v.accepts(w) || v.run_from(0, w) == 0) by {
            assert(d.run_from(0, w) == v.run_from(0, w));
            crate::dfa::lemma_trun(v.trans@, v.nstates as nat, v.alpha as nat, 0, w);
        }
    }
    r
}

/// The states from which some accepting state is reachable.
pub fn coreachable(a: &Dfa) -> (r: Vec<bool>)
    requires
        a.wf(),
    ensures
        r@.len() == a.nstates,
        forall|s: int| 0 <= s < a.nstates && a.accept@[s] ==> #[trigger] r@[s],
{
    let n = a.nstates;
    let mut co: Vec<bool> = a.accept.clone();
    proof {
        assert(co@ =~= a.accept@);
    }
    loop
        invariant
            a.wf(),
            n == a.nstates,
            co@.len() == n,
            forall|s: int| 0 <= s < n && a.accept@[s] ==> #[trigger] co@[s],
        decreases n - ntrue(co@),
    {
        let ghost start = ntrue(co@);
        let mut ch = false;
        let mut s: usize = 0;
        while s < n
            invariant
                a.wf(),
                n == a.nstates,
                co@.len() == n,
                s <= n,
                forall|s2: int| 0 <= s2 < n && a.accept@[s2] ==> #[trigger] co@[s2],
                ntrue(co@) >= start,
                ch ==> ntrue(co@) > start,
            decreases n - s,
        {
            if !co[s] {
                let mut found = false;
                let mut x: usize = 0;
                while x < a.alpha && !found
                    invariant
                        a.wf(),
                        n == a.nstates,
                        co@.len() == n,
                        s < n,
                        x <= a.alpha,
                    decreases a.alpha - x,
                {
                    if co[a.t(s, x)] {
                        found = true;
                    }
                    x = x + 1;
                }
                if found {
                    proof {
                        lemma_ntrue(co@, s as int);
                    }
                    co.set(s, true);
                    ch = true;
                }
            }
            s = s + 1;
        }
        proof {
            lemma_ntrue_bound(co@);
        }
        if !ch {
            break;
        }
    }
    co
}

/// `# line` and a newline for each of the first `i` lines of the header.
pub open spec fn header_text(hs: Seq<char>, ls: Seq<(int, int)>, i: nat) -> Seq<char>
    decreases i,
{
    if i == 0 {
        Seq::empty()
    } else {
        header_text(hs, ls, (i - 1) as nat) + "# "@ + hs.subrange(ls[i - 1].0, ls[i - 1].1) + seq!['\n']
    }
}

/// `0,1,..,x-1`.
pub open spec fn range_text(x: nat) -> Seq<char>
    decreases x,
{
    if x == 0 {
        Seq::empty()
    } else {
        range_text((x - 1) as nat) + (if x > 1 { seq![','] } else { Seq::empty() }) + crate::strs::dec_text((x - 1) as nat)
    }
}

/// `{0,..,d-1}` for each of the first `c` tracks, space-separated.
pub open spec fn alphabet_text(d: nat, c: nat) -> Seq<char>
    decreases c,
{
    if c == 0 {
        Seq::empty()
    } else {
        alphabet_text(d, (c - 1) as nat) + (if c > 1 { seq![' '] } else { Seq::empty() }) + seq!['{'] + range_text(d) + seq!['}']
    }
}

/// The digits of the letter `x` on the first `c` tracks, space-separated.
pub open spec fn letter_text(x: nat, d: nat, c: nat) -> Seq<char>
    decreases c,
{
    if c == 0 {
        Seq::empty()
    } else {
        letter_text(x, d, (c - 1) as nat) + (if c > 1 { seq![' '] } else { Seq::empty() })
            + crate::strs::dec_text(sdigit(x, (c - 1) as nat, d))
    }
}

/// The number of kept states before `s`: `s`'s number in the output.
pub open spec fn kept_index(co: Seq<bool>, s: nat) -> nat {
    ntrue(co.take(s as int))
}

/// The lines of the transitions of `s` on the first `x` letters that lead to kept states.
pub open spec fn edges_text(a: &Dfa, co: Seq<bool>, tracks: nat, s: nat, x: nat) -> Seq<char>
    decreases x,
{
    if x == 0 {
        Seq::empty()
    } else {
        let t = a.step(s, (x - 1) as nat);
        edges_text(a, co, tracks, s, (x - 1) as nat) + if co[t as int] {
            letter_text((x - 1) as nat, a.k as nat, tracks) + " -> "@ + crate::strs::dec_text(kept_index(co, t)) + seq!['\n']
        } else {
            Seq::empty()
        }
    }
}

/// The blocks of the kept states among the first `s`.
pub open spec fn states_text(a: &Dfa, co: Seq<bool>, tracks: nat, s: nat) -> Seq<char>
    decreases s,
{
    if s == 0 {
        Seq::empty()
    } else {
        let q = (s - 1) as nat;
        states_text(a, co, tracks, q) + if co[q as int] {
            seq!['\n'] + crate::strs::dec_text(kept_index(co, q)) + seq![' ']
                + seq![if a.accept@[q as int] { '1' } else { '0' }] + seq!['\n'] + edges_text(a, co, tracks, q, a.alpha as nat)
        } else {
            Seq::empty()
        }
    }
}

/// Walnut's text of `a`: the header as comments, the alphabet line, then the
/// states that can reach acceptance, renumbered in order.
pub open spec fn walnut_text(a: &Dfa, tracks: nat, header: Seq<char>) -> Seq<char> {
    let co = Seq::new(a.nstates as nat, |s: int| a.useful(s as nat));
    let ls = crate::text::lines_from(header, 0);
    header_text(header, ls, ls.len()) + seq!['\n'] + alphabet_text(a.k as nat, tracks) + seq!['\n']
        + states_text(a, co, tracks, a.nstates as nat)
}

/// Serialise `a` in Walnut's text format: each header line as a `#`
/// comment, an alphabet line with one `{0,..,D-1}` per track, then each state
/// that can still reach acceptance with its output and its transitions
/// (`digits -> target`, a missing transition meaning dead).
pub fn to_walnut(a: &Dfa, tracks: usize, header: &str) -> (r: String)
    requires
        a.wf(),
        spow(a.k as nat, tracks as nat) <= usize::MAX,
    ensures
        r@ == walnut_text(a, tracks as nat, header@),
{
    let d = a.k;
    let n = a.nstates;
    let co = crate::finite::useful_states(a);
    let ghost gco = Seq::new(n as nat, |s: int| a.useful(s as nat));
    proof {
        assert(co@ =~= gco);
    }
    let mut id: Vec<usize> = Vec::new();
    let mut next: usize = 0;
    let mut s: usize = 0;
    while s < n
        invariant
            s <= n,
            co@.len() == n,
            id@.len() == s,
            next == kept_index(co@, s as nat),
            next <= s,
            forall|q: int| 0 <= q < s && co@[q] ==> #[trigger] id@[q] == kept_index(co@, q as nat),
        decreases n - s,
    {
        proof {
            assert(co@.take(s + 1).drop_last() =~= co@.take(s as int));
            assert(co@.take(s + 1).last() == co@[s as int]);
        }
        if co[s] {
            id.push(next);
            next = next + 1;
        } else {
            id.push(usize::MAX);
        }
        s = s + 1;
    }
    let mut out: Vec<char> = Vec::new();
    let hs = crate::strs::str_chars(header);
    let ls = crate::text::lines(&hs);
    let ghost lsi = ls@.map_values(|p: (usize, usize)| (p.0 as int, p.1 as int));
    let mut i: usize = 0;
    while i < ls.len()
        invariant
            i <= ls@.len(),
            hs@ == header@,
            lsi == ls@.map_values(|p: (usize, usize)| (p.0 as int, p.1 as int)),
            forall|j: int| 0 <= j < ls@.len() ==> (#[trigger] ls@[j]).0 <= ls@[j].1 <= hs@.len(),
            out@ == header_text(hs@, lsi, i as nat),
        decreases ls@.len() - i,
    {
        crate::strs::push_str(&mut out, "# ");
        let ghost mid = out@;
        let mut x: usize = ls[i].0;
        while x < ls[i].1
            invariant
                ls@[i as int].0 <= x <= ls@[i as int].1 <= hs@.len(),
                i < ls@.len(),
                out@ == mid + hs@.subrange(ls@[i as int].0 as int, x as int),
            decreases ls@[i as int].1 - x,
        {
            out.push(hs[x]);
            proof {
                assert(hs@.subrange(ls@[i as int].0 as int, x + 1) =~= hs@.subrange(ls@[i as int].0 as int, x as int).push(hs@[x as int]));
            }
            x = x + 1;
        }
        out.push('\n');
        proof {
            assert(lsi[i as int] == (ls@[i as int].0 as int, ls@[i as int].1 as int));
            assert(out@ =~= header_text(hs@, lsi, (i + 1) as nat));
        }
        i = i + 1;
    }
    let ghost o1 = out@;
    out.push('\n');
    let ghost o2 = out@;
    let mut c: usize = 0;
    while c < tracks
        invariant
            c <= tracks,
            out@ == o2 + alphabet_text(d as nat, c as nat),
        decreases tracks - c,
    {
        let ghost pre = out@;
        if c > 0 {
            out.push(' ');
        }
        out.push('{');
        let ghost o3 = out@;
        let mut x: usize = 0;
        while x < d
            invariant
                x <= d,
                out@ == o3 + range_text(x as nat),
            decreases d - x,
        {
            if x > 0 {
                out.push(',');
            }
            crate::strs::push_num(&mut out, x);
            proof {
                assert(out@ =~= o3 + range_text((x + 1) as nat));
            }
            x = x + 1;
        }
        out.push('}');
        proof {
            assert(out@ =~= o2 + alphabet_text(d as nat, (c + 1) as nat));
        }
        c = c + 1;
    }
    out.push('\n');
    let ghost o4 = out@;
    let mut s: usize = 0;
    while s < n
        invariant
            a.wf(),
            d == a.k,
            n == a.nstates,
            co@.len() == n,
            id@.len() == n,
            forall|q: int| 0 <= q < n && co@[q] ==> #[trigger] id@[q] == kept_index(co@, q as nat),
            spow(d as nat, tracks as nat) <= usize::MAX,
            s <= n,
            out@ == o4 + states_text(a, co@, tracks as nat, s as nat),
        decreases n - s,
    {
        let ghost pre = out@;
        if co[s] {
            out.push('\n');
            crate::strs::push_num(&mut out, id[s]);
            out.push(' ');
            out.push(if a.accept[s] { '1' } else { '0' });
            out.push('\n');
            let ghost o5 = out@;
            let mut x: usize = 0;
            while x < a.alpha
                invariant
                    a.wf(),
                    d == a.k,
                    n == a.nstates,
                    co@.len() == n,
                    id@.len() == n,
                    forall|q: int| 0 <= q < n && co@[q] ==> #[trigger] id@[q] == kept_index(co@, q as nat),
                    spow(d as nat, tracks as nat) <= usize::MAX,
                    s < n,
                    x <= a.alpha,
                    out@ == o5 + edges_text(a, co@, tracks as nat, s as nat, x as nat),
                decreases a.alpha - x,
            {
                let ghost pe = out@;
                let t = a.t(s, x);
                if co[t] {
                    let mut c: usize = 0;
                    while c < tracks
                        invariant
                            c <= tracks,
                            d == a.k,
                            a.k >= 1,
                            spow(d as nat, tracks as nat) <= usize::MAX,
                            out@ == pe + letter_text(x as nat, d as nat, c as nat),
                        decreases tracks - c,
                    {
                        if c > 0 {
                            out.push(' ');
                        }
                        proof {
                            crate::dfa::lemma_spow_mono(d as nat, c as nat, tracks as nat);
                        }
                        crate::strs::push_num(&mut out, crate::dfa::digit(x, c, d));
                        proof {
                            assert(out@ =~= pe + letter_text(x as nat, d as nat, (c + 1) as nat));
                        }
                        c = c + 1;
                    }
                    crate::strs::push_str(&mut out, " -> ");
                    crate::strs::push_num(&mut out, id[t]);
                    out.push('\n');
                }
                proof {
                    assert(out@ =~= o5 + edges_text(a, co@, tracks as nat, s as nat, (x + 1) as nat));
                }
                x = x + 1;
            }
        }
        proof {
            assert(out@ =~= o4 + states_text(a, co@, tracks as nat, (s + 1) as nat));
        }
        s = s + 1;
    }
    proof {
        assert(lsi == crate::text::lines_from(header@, 0));
        assert(out@ =~= walnut_text(a, tracks as nat, header@));
    }
    crate::strs::string_of(out.as_slice())
}

/// Both automata of the Ostrowski system `[0; preperiod, bar(period)]`: the
/// normalised fraction, the validity automaton and the adder, each also
/// accepting the empty word (the representation of 0). The adder is built
/// with carry caps 16, 64, 256 and 1024 in turn until one suffices.
pub fn system(preperiod: &[u32], period: &[u32]) -> (r: Result<(Cf, Dfa, Dfa), String>)
    requires
        forall|i: int| 0 <= i < preperiod@.len() ==> #[trigger] preperiod@[i] < u32::MAX,
        forall|i: int| 0 <= i < period@.len() ==> #[trigger] period@[i] < u32::MAX,
    ensures
        !cf_ok(preperiod@, period@) ==> r is Err,
        r matches Ok((cf, v, a)) ==> {
            &&& cf_ok(preperiod@, period@)
            &&& cf.wf()
            &&& cf.alpha@ == seq![0u32] + norm_pre(preperiod@, period@) + norm_per(preperiod@, period@)
            &&& v.wf() && v.k == cf.dmax + 1 && v.vars@.len() == 1
            &&& a.wf() && a.k == cf.dmax + 1 && a.vars@.len() == 3
            &&& forall|w: Seq<usize>| word_over(w, v.alpha as nat) && (cf.admissible(w) || w.len() == 0) ==> #[trigger] v.accepts(w)
            &&& forall|w: Seq<usize>| word_over(w, a.alpha as nat) && (cf.sum_accepts(w) || w.len() == 0) ==> #[trigger] a.accepts(w)
        },
{
    let cf = Cf::new(preperiod, period)?;
    let v0 = match validity(&cf) {
        Some(x) => x,
        None => {
            return Err(str_to_string("Ostrowski validity automaton too large"));
        },
    };
    let v = with_empty_word(&v0);
    let mut cap: i64 = 16;
    let mut got: Option<Dfa> = None;
    while got.is_none()
        invariant
            cf.wf(),
            cap == 16 || cap == 64 || cap == 256 || cap == 1024,
            got matches Some(x) ==> x.wf() && x.k == cf.dmax + 1 && x.vars@.len() == 3
                && forall|w: Seq<usize>| word_over(w, x.alpha as nat) ==> #[trigger] x.accepts(w) == cf.sum_accepts(w),
        decreases 1024 - cap + (if got is None { 1int } else { 0int }),
    {
        match addition(&cf, cap) {
            Ok(x) => {
                got = Some(x);
            },
            Err(e) => {
                if cap < 512 {
                    cap = cap * 4;
                } else {
                    return Err(e);
                }
            },
        }
    }
    let a0 = match got {
        Some(x) => x,
        None => {
            return Err(str_to_string("Ostrowski adder: no carry cap sufficed"));
        },
    };
    let a = with_empty_word(&a0);
    proof {
        let dd = (cf.dmax + 1) as nat;
        assert(spow(dd, 0) == 1);
        assert(spow(dd, 1) == dd * spow(dd, 0));
        assert(v0.alpha == dd);
        assert forall|w: Seq<usize>| word_over(w, v.alpha as nat) && (cf.admissible(w) || w.len() == 0) implies #[trigger] v.accepts(w) by {
            if w.len() == 0 {
                assert(v0.run_from(0, w) == 0);
            }
        }
        assert forall|w: Seq<usize>| word_over(w, a.alpha as nat) && (cf.sum_accepts(w) || w.len() == 0) implies #[trigger] a.accepts(w) by {
            if w.len() == 0 {
                assert(a0.run_from(0, w) == 0);
            }
        }
    }
    Ok((cf, v, a))
}

/// The folded preperiod keeps the positivity of the stripped one.
proof fn lemma_strip_sub(s: Seq<u32>)
    ensures
        strip_zeros(s).len() > 0 ==> strip_zeros(s)[0] != 0,
        strip_zeros(s).len() <= s.len(),
        strip_zeros(s) == s.skip(s.len() - strip_zeros(s).len()),
    decreases s.len(),
{
    if s.len() > 0 && s[0] == 0 {
        lemma_strip_sub(s.drop_first());
        assert(s.drop_first().skip(s.drop_first().len() - strip_zeros(s).len()) =~= s.skip(s.len() - strip_zeros(s).len()));
    } else {
        assert(s.skip(0) =~= s);
    }
}

} // verus!
