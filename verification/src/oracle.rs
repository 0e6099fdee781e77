//! The membership oracle of the learner: the built-in predicate classes
//! evaluated directly on the sequence, never through an automaton.
//!
//! Everything rests on two longest-common-extension walks over the terms
//! `T[n]` of the sequence: forward/forward (`LCP(i, j)`, the longest common
//! prefix of the suffixes at `i` and `j`) and forward/backward (`RLCE(i, e)`,
//! how far the suffix at `i` reads the same as the prefix ending at `e` read
//! backwards). Walks stop at a hard cap; a comparison that survives the cap is
//! assumed to go on for ever, and counted.
use vstd::prelude::*;
use crate::dfao::Dfao;
use crate::learn::{Kind, decode};
use crate::ops::Ctx;
use crate::dfa::{MAX_ALPHA, spow};

verus! {

/// `T[i + t] = T[j + t]`.
pub open spec fn agree(d: &Dfao, i: nat, j: nat, t: nat) -> bool {
    d.term(i + t) == d.term(j + t)
}

/// The suffixes at `i` and `j` share their first `m` terms.
pub open spec fn same_from(d: &Dfao, i: nat, j: nat, m: nat) -> bool {
    forall|t: nat| t < m ==> #[trigger] agree(d, i, j, t)
}

/// `T[i + t] = T[e - t]`.
pub open spec fn mirror(d: &Dfao, i: nat, e: nat, t: nat) -> bool {
    t <= e && d.term(i + t) == d.term((e - t) as nat)
}

/// The `m` terms from `i` read the same as the `m` terms ending at `e`, backwards.
pub open spec fn mirrored(d: &Dfao, i: nat, e: nat, m: nat) -> bool {
    m <= e + 1 && forall|t: nat| t < m ==> #[trigger] mirror(d, i, e, t)
}

/// `r = min(LCP(i, j), c)`.
pub open spec fn lcp_is(d: &Dfao, i: nat, j: nat, c: nat, r: nat) -> bool {
    r <= c && same_from(d, i, j, r) && (r < c ==> !agree(d, i, j, r))
}

/// `r = min(RLCE(i, e), c)` for `c <= e + 1`.
pub open spec fn rlce_is(d: &Dfao, i: nat, e: nat, c: nat, r: nat) -> bool {
    r <= c && mirrored(d, i, e, r) && (r < c ==> !mirror(d, i, e, r))
}

/// `min(a, b)`.
pub open spec fn min(a: nat, b: nat) -> nat {
    if a <= b { a } else { b }
}

/// `FE(i, j, l) = (l <= LCP(i, j))`, with lengths beyond the cap assumed.
pub open spec fn fe_spec(d: &Dfao, cap: nat, i: nat, j: nat, l: nat) -> bool {
    l == 0 || i == j || same_from(d, i, j, min(l, cap))
}

/// `REV(i, j, l) = (l = 0 or l <= RLCE(i, j + l - 1))`, lengths beyond the cap assumed.
pub open spec fn rev_spec(d: &Dfao, cap: nat, i: nat, j: nat, l: nat) -> bool {
    l == 0 || (j + l - 1 <= u64::MAX && mirrored(d, i, (j + l - 1) as nat, min(l, cap)))
}

/// `PER(i, l, p) = (l <= p or l - p <= LCP(i, i + p))`, lengths beyond the cap assumed.
pub open spec fn period_spec(d: &Dfao, cap: nat, i: nat, l: nat, p: nat) -> bool {
    l <= p || (i + p <= u64::MAX && same_from(d, i, i + p, min((l - p) as nat, cap)))
}

/// `BOR(i, l, b) = (b <= l and b <= LCP(i, i + l - b))`, lengths beyond the cap assumed.
pub open spec fn border_spec(d: &Dfao, cap: nat, i: nat, l: nat, b: nat) -> bool {
    b <= l && (b == 0 || (i + (l - b) <= u64::MAX && same_from(d, i, (i + (l - b)) as nat, min(b, cap))))
}

/// Equal factors are symmetric: the factor of length `l` at `i` equals the
/// one at `j` exactly when the one at `j` equals the one at `i`.
pub proof fn law_fe_symmetric(d: &Dfao, cap: nat, i: nat, j: nat, l: nat)
    ensures
        fe_spec(d, cap, i, j, l) == fe_spec(d, cap, j, i, l),
{
    if same_from(d, i, j, min(l, cap)) {
        assert forall|t: nat| t < min(l, cap) implies #[trigger] agree(d, j, i, t) by {
            assert(agree(d, i, j, t));
        }
    }
    if same_from(d, j, i, min(l, cap)) {
        assert forall|t: nat| t < min(l, cap) implies #[trigger] agree(d, i, j, t) by {
            assert(agree(d, j, i, t));
        }
    }
}

/// Every factor equals itself, and the empty factors are all equal.
pub proof fn law_fe_reflexive(d: &Dfao, cap: nat, i: nat, j: nat, l: nat)
    ensures
        fe_spec(d, cap, i, i, l),
        fe_spec(d, cap, i, j, 0),
{
}

/// Equal factors stay equal when shortened: `FE(i, j, l)` and `m <= l`
/// give `FE(i, j, m)`.
pub proof fn law_fe_prefix_closed(d: &Dfao, cap: nat, i: nat, j: nat, l: nat, m: nat)
    requires
        fe_spec(d, cap, i, j, l),
        m <= l,
    ensures
        fe_spec(d, cap, i, j, m),
{
    if m > 0 && i != j {
        assert forall|t: nat| t < min(m, cap) implies #[trigger] agree(d, i, j, t) by {
            assert(t < min(l, cap));
        }
    }
}

/// A border of length `b` of the factor of length `l` at `i` is a period
/// `l - b` of it, and back: `BOR(i, l, b) = PER(i, l, l - b)` for
/// `0 < b <= l`.
pub proof fn law_border_is_period(d: &Dfao, cap: nat, i: nat, l: nat, b: nat)
    requires
        0 < b <= l,
    ensures
        border_spec(d, cap, i, l, b) == period_spec(d, cap, i, l, (l - b) as nat),
{
    assert((l - (l - b)) as nat == b);
}

/// The built-in class `kind` at the values `a, b, c` (in parameter order).
pub open spec fn holds(kind: Kind, d: &Dfao, cap: nat, a: nat, b: nat, c: nat) -> bool {
    match kind {
        Kind::Fe => fe_spec(d, cap, a, b, c),
        Kind::Rev => rev_spec(d, cap, a, b, c),
        Kind::Period => period_spec(d, cap, a, b, c),
        Kind::Border => border_spec(d, cap, a, b, c),
        Kind::Custom => false,
    }
}

/// Positions the walks may read: `x + m <= u64::MAX + 1`.
pub open spec fn fits(x: nat, m: nat) -> bool {
    x + m <= u64::MAX + 1
}

/// The oracle for one built-in class over the sequence `d`, with its counters.
pub struct Oracle<'a> {
    pub d: &'a Dfao,
    pub k: usize,
    pub kind: Kind,
    pub n: usize,
    /// `pos[i]` is the track of parameter `i`.
    pub pos: Vec<usize>,
    pub hardcap: u64,
    pub mqs: u64,
    pub steps: u64,
    pub assumed_inf: u64,
    pub overflow: u64,
}

impl<'a> Oracle<'a> {
    /// The sequence is a plain base-`k` sequence with at least two digits.
    pub open spec fn wf(&self) -> bool {
        &&& self.d.wf()
        &&& self.d.k >= 2
        &&& self.k == self.d.k
        &&& self.n == self.pos@.len()
        &&& self.n >= 3
        &&& forall|i: int| 0 <= i < self.pos@.len() ==> (#[trigger] self.pos@[i] as int) < self.n
    }

    /// An FE oracle over `d`; `hardcap` bounds any single walk.
    pub fn new(d: &'a Dfao, hardcap: u64) -> (r: Oracle<'a>)
        requires
            d.wf(),
            d.k >= 2,
        ensures
            r.wf(),
            r.d == d,
            r.kind is Fe,
            r.hardcap == hardcap,
            r.pos@ == seq![0usize, 1, 2],
            r.mqs == 0 && r.steps == 0 && r.assumed_inf == 0 && r.overflow == 0,
    {
        Oracle {
            d,
            k: d.k,
            kind: Kind::Fe,
            n: 3,
            pos: vec![0, 1, 2],
            hardcap,
            mqs: 0,
            steps: 0,
            assumed_inf: 0,
            overflow: 0,
        }
    }

    /// An oracle for the built-in class `kind` whose parameter `i` sits on track `pos[i]`.
    pub fn for_kind(d: &'a Dfao, hardcap: u64, kind: Kind, pos: Vec<usize>) -> (r: Oracle<'a>)
        requires
            d.wf(),
            d.k >= 2,
            pos@.len() >= 3,
            forall|i: int| 0 <= i < pos@.len() ==> (#[trigger] pos@[i] as int) < pos@.len(),
        ensures
            r.wf(),
            r.d == d,
            r.kind == kind,
            r.hardcap == hardcap,
            r.pos@ == pos@,
    {
        let n = pos.len();
        Oracle { d, k: d.k, kind, n, pos, hardcap, mqs: 0, steps: 0, assumed_inf: 0, overflow: 0 }
    }

    /// `min(LCP(i, j), cap)` by lockstep walk with early exit.
    fn walk_lcp(&mut self, i: u64, j: u64, cap: u64) -> (r: u64)
        requires
            old(self).wf(),
            fits(i as nat, cap as nat),
            fits(j as nat, cap as nat),
        ensures
            final(self).wf(),
            final(self).d == old(self).d,
            final(self).kind == old(self).kind,
            final(self).hardcap == old(self).hardcap,
            final(self).pos@ == old(self).pos@,
            lcp_is(old(self).d, i as nat, j as nat, cap as nat, r as nat),
    {
        let mut t: u64 = 0;
        while t < cap
            invariant
                self.wf(),
                self.d == old(self).d,
                self.kind == old(self).kind,
                self.hardcap == old(self).hardcap,
                self.pos@ == old(self).pos@,
                fits(i as nat, cap as nat),
                fits(j as nat, cap as nat),
                t <= cap,
                same_from(self.d, i as nat, j as nat, t as nat),
            decreases cap - t,
        {
            let a = self.d.at(i + t);
            let b = self.d.at(j + t);
            if a != b {
                self.steps = self.steps.saturating_add(t);
                assert(!agree(self.d, i as nat, j as nat, t as nat));
                return t;
            }
            assert(agree(self.d, i as nat, j as nat, t as nat));
            t = t + 1;
        }
        self.steps = self.steps.saturating_add(cap);
        cap
    }

    /// `min(LCP(i, j), cap, hardcap)`: `cap` is clamped to the hard cap.
    pub fn lcp_upto(&mut self, i: u64, j: u64, cap: u64) -> (r: u64)
        requires
            old(self).wf(),
            fits(i as nat, min(cap as nat, old(self).hardcap as nat)),
            fits(j as nat, min(cap as nat, old(self).hardcap as nat)),
        ensures
            final(self).wf(),
            final(self).d == old(self).d,
            final(self).kind == old(self).kind,
            final(self).hardcap == old(self).hardcap,
            final(self).pos@ == old(self).pos@,
            i == j ==> r == min(cap as nat, old(self).hardcap as nat),
            i != j ==> lcp_is(old(self).d, i as nat, j as nat, min(cap as nat, old(self).hardcap as nat), r as nat),
    {
        let c = if cap < self.hardcap { cap } else { self.hardcap };
        if i == j {
            return c;
        }
        self.walk_lcp(i, j, c)
    }

    /// `min(RLCE(i, e), cap, e + 1)` by walking up from `i` and down from `e`.
    fn walk_rlce(&mut self, i: u64, e: u64, cap: u64) -> (r: u64)
        requires
            old(self).wf(),
            cap <= e + 1,
            fits(i as nat, cap as nat),
        ensures
            final(self).wf(),
            final(self).d == old(self).d,
            final(self).kind == old(self).kind,
            final(self).hardcap == old(self).hardcap,
            final(self).pos@ == old(self).pos@,
            rlce_is(old(self).d, i as nat, e as nat, cap as nat, r as nat),
    {
        let mut t: u64 = 0;
        while t < cap
            invariant
                self.wf(),
                self.d == old(self).d,
                self.kind == old(self).kind,
                self.hardcap == old(self).hardcap,
                self.pos@ == old(self).pos@,
                cap <= e + 1,
                fits(i as nat, cap as nat),
                t <= cap,
                mirrored(self.d, i as nat, e as nat, t as nat),
            decreases cap - t,
        {
            let a = self.d.at(i + t);
            let b = self.d.at(e - t);
            if a != b {
                self.steps = self.steps.saturating_add(t);
                assert(!mirror(self.d, i as nat, e as nat, t as nat));
                return t;
            }
            assert(mirror(self.d, i as nat, e as nat, t as nat));
            t = t + 1;
        }
        self.steps = self.steps.saturating_add(cap);
        cap
    }

    /// `min(RLCE(i, e), cap, hardcap, e + 1)`.
    pub fn rlce_upto(&mut self, i: u64, e: u64, cap: u64) -> (r: u64)
        requires
            old(self).wf(),
            fits(i as nat, min(min(cap as nat, old(self).hardcap as nat), (e + 1) as nat)),
        ensures
            final(self).wf(),
            final(self).d == old(self).d,
            final(self).kind == old(self).kind,
            final(self).hardcap == old(self).hardcap,
            final(self).pos@ == old(self).pos@,
            rlce_is(old(self).d, i as nat, e as nat, min(min(cap as nat, old(self).hardcap as nat), (e + 1) as nat), r as nat),
    {
        let c0 = if cap < self.hardcap { cap } else { self.hardcap };
        let c = if e == u64::MAX || c0 <= e + 1 { c0 } else { e + 1 };
        if c == 0 {
            return 0;
        }
        self.walk_rlce(i, e, c)
    }

    /// `FE(i, j, l) = (l <= LCP(i, j))`.
    pub fn fe(&mut self, i: u64, j: u64, l: u64) -> (r: bool)
        requires
            old(self).wf(),
            fits(i as nat, min(l as nat, old(self).hardcap as nat)),
            fits(j as nat, min(l as nat, old(self).hardcap as nat)),
        ensures
            final(self).wf(),
            final(self).d == old(self).d,
            final(self).kind == old(self).kind,
            final(self).hardcap == old(self).hardcap,
            final(self).pos@ == old(self).pos@,
            r == fe_spec(old(self).d, old(self).hardcap as nat, i as nat, j as nat, l as nat),
    {
        if l == 0 || i == j {
            return true;
        }
        if l > self.hardcap {
            let v = self.lcp_upto(i, j, self.hardcap);
            if v < self.hardcap {
                return false;
            }
            self.assumed_inf = self.assumed_inf.saturating_add(1);
            return true;
        }
        let v = self.lcp_upto(i, j, l);
        proof {
            if v < l {
                assert(!agree(self.d, i as nat, j as nat, v as nat));
            }
        }
        v >= l
    }

    /// `REV(i, j, l) = (l = 0 or l <= RLCE(i, j + l - 1))`.
    pub fn rev(&mut self, i: u64, j: u64, l: u64) -> (r: bool)
        requires
            old(self).wf(),
            fits(i as nat, min(l as nat, old(self).hardcap as nat)),
        ensures
            final(self).wf(),
            final(self).d == old(self).d,
            final(self).kind == old(self).kind,
            final(self).hardcap == old(self).hardcap,
            final(self).pos@ == old(self).pos@,
            r == rev_spec(old(self).d, old(self).hardcap as nat, i as nat, j as nat, l as nat),
    {
        if l == 0 {
            return true;
        }
        let e = match j.checked_add(l - 1) {
            Some(e) => e,
            None => {
                return false;
            },
        };
        if l > self.hardcap {
            let v = self.rlce_upto(i, e, self.hardcap);
            proof {
                if v < self.hardcap {
                    assert(!mirror(self.d, i as nat, e as nat, v as nat));
                }
            }
            if v < self.hardcap {
                return false;
            }
            self.assumed_inf = self.assumed_inf.saturating_add(1);
            return true;
        }
        let v = self.rlce_upto(i, e, l);
        proof {
            if v < l {
                assert(!mirror(self.d, i as nat, e as nat, v as nat));
            }
        }
        v >= l
    }

    /// `PER(i, l, p) = (l <= p or l - p <= LCP(i, i + p))`.
    pub fn period(&mut self, i: u64, l: u64, p: u64) -> (r: bool)
        requires
            old(self).wf(),
            l > p ==> fits(i as nat, (min((l - p) as nat, old(self).hardcap as nat) + p) as nat),
        ensures
            final(self).wf(),
            final(self).d == old(self).d,
            final(self).kind == old(self).kind,
            final(self).hardcap == old(self).hardcap,
            final(self).pos@ == old(self).pos@,
            r == period_spec(old(self).d, old(self).hardcap as nat, i as nat, l as nat, p as nat),
    {
        if l <= p {
            return true;
        }
        let need = l - p;
        let j = match i.checked_add(p) {
            Some(j) => j,
            None => {
                return false;
            },
        };
        if need > self.hardcap {
            let v = self.lcp_upto(i, j, self.hardcap);
            proof {
                if v < self.hardcap && i != j {
                    assert(!agree(self.d, i as nat, j as nat, v as nat));
                }
            }
            if v < self.hardcap {
                return false;
            }
            self.assumed_inf = self.assumed_inf.saturating_add(1);
            return true;
        }
        let v = self.lcp_upto(i, j, need);
        proof {
            if v < need && i != j {
                assert(!agree(self.d, i as nat, j as nat, v as nat));
            }
        }
        v >= need
    }

    /// `BOR(i, l, b) = (b <= l and b <= LCP(i, i + l - b))`.
    pub fn border(&mut self, i: u64, l: u64, b: u64) -> (r: bool)
        requires
            old(self).wf(),
            b <= l ==> fits(i as nat, (min(b as nat, old(self).hardcap as nat) + (l - b)) as nat),
        ensures
            final(self).wf(),
            final(self).d == old(self).d,
            final(self).kind == old(self).kind,
            final(self).hardcap == old(self).hardcap,
            final(self).pos@ == old(self).pos@,
            r == border_spec(old(self).d, old(self).hardcap as nat, i as nat, l as nat, b as nat),
    {
        if b > l {
            return false;
        }
        if b == 0 {
            return true;
        }
        let j = match i.checked_add(l - b) {
            Some(j) => j,
            None => {
                return false;
            },
        };
        if b > self.hardcap {
            let v = self.lcp_upto(i, j, self.hardcap);
            proof {
                if v < self.hardcap && i != j {
                    assert(!agree(self.d, i as nat, j as nat, v as nat));
                }
            }
            if v < self.hardcap {
                return false;
            }
            self.assumed_inf = self.assumed_inf.saturating_add(1);
            return true;
        }
        let v = self.lcp_upto(i, j, b);
        proof {
            if v < b && i != j {
                assert(!agree(self.d, i as nat, j as nat, v as nat));
            }
        }
        v >= b
    }
}


/// The walks of class `kind` at `a, b, c` stay within the `u64` positions.
pub open spec fn in_range(kind: Kind, cap: nat, a: nat, b: nat, c: nat) -> bool {
    match kind {
        Kind::Fe => fits(a, min(c, cap)) && fits(b, min(c, cap)),
        Kind::Rev => fits(a, min(c, cap)),
        Kind::Period => b > c ==> fits(a, min((b - c) as nat, cap) + c),
        Kind::Border => c <= b ==> fits(a, (min(c, cap) + (b - c)) as nat),
        Kind::Custom => false,
    }
}

/// The value a word's track `c` spells.
pub open spec fn track_val(w: Seq<usize>, c: nat, k: nat, lsd: bool) -> int {
    crate::base::val(crate::base::track(w, c, k), k, lsd)
}

/// `in_range`, computed.
fn range_ok(kind: Kind, cap: u64, a: u64, b: u64, c: u64) -> (r: bool)
    ensures
        r == in_range(kind, cap as nat, a as nat, b as nat, c as nat),
{
    let mc = |x: u64| -> (y: u64) ensures y == min(x as nat, cap as nat) { if x < cap { x } else { cap } };
    match kind {
        Kind::Fe => (a as u128 + mc(c) as u128 <= u64::MAX as u128 + 1) && (b as u128 + mc(c) as u128 <= u64::MAX as u128 + 1),
        Kind::Rev => a as u128 + mc(c) as u128 <= u64::MAX as u128 + 1,
        Kind::Period => b <= c || a as u128 + mc(b - c) as u128 + c as u128 <= u64::MAX as u128 + 1,
        Kind::Border => c > b || a as u128 + mc(c) as u128 + (b - c) as u128 <= u64::MAX as u128 + 1,
        Kind::Custom => false,
    }
}

impl<'a> Oracle<'a> {
    /// The class at values `v` (in parameter order).
    pub fn eval(&mut self, v: &[u64]) -> (r: bool)
        requires
            old(self).wf(),
            v@.len() >= 3,
            in_range(old(self).kind, old(self).hardcap as nat, v@[0] as nat, v@[1] as nat, v@[2] as nat),
        ensures
            final(self).wf(),
            final(self).d == old(self).d,
            final(self).kind == old(self).kind,
            final(self).hardcap == old(self).hardcap,
            final(self).pos@ == old(self).pos@,
            r == holds(old(self).kind, old(self).d, old(self).hardcap as nat, v@[0] as nat, v@[1] as nat, v@[2] as nat),
    {
        self.mqs = self.mqs.saturating_add(1);
        match self.kind {
            Kind::Fe => self.fe(v[0], v[1], v[2]),
            Kind::Rev => self.rev(v[0], v[1], v[2]),
            Kind::Period => self.period(v[0], v[1], v[2]),
            Kind::Border => self.border(v[0], v[1], v[2]),
            Kind::Custom => false,
        }
    }

    /// The answer to a membership query on `w` in base `k`: every track
    /// spells a `u64`, the walks stay within the `u64` positions, and the
    /// class holds at the values of the parameters' tracks.
    pub open spec fn answer(&self, w: Seq<usize>, lsd: bool) -> bool {
        let k = self.k as nat;
        let pos = self.pos@;
        let a = track_val(w, pos[0] as nat, k, lsd);
        let b = track_val(w, pos[1] as nat, k, lsd);
        let c = track_val(w, pos[2] as nat, k, lsd);
        &&& forall|t: nat| t < self.n ==> #[trigger] track_val(w, t, k, lsd) <= u64::MAX
        &&& lsd ==> (w.len() == 0 || spow(k, (w.len() - 1) as nat) <= u64::MAX)
        &&& in_range(self.kind, self.hardcap as nat, a as nat, b as nat, c as nat)
        &&& holds(self.kind, self.d, self.hardcap as nat, a as nat, b as nat, c as nat)
    }

    /// Membership query on an `n`-track word (sorted track order): decode the
    /// values, reorder them into parameter order and evaluate. A word whose
    /// tracks do not decode, or whose values would make the walks leave the
    /// `u64` positions, is counted as an overflow and answered `false`.
    pub fn mq(&mut self, w: &[usize], cx: &Ctx) -> (r: bool)
        requires
            old(self).wf(),
            old(self).k <= MAX_ALPHA,
            spow(old(self).k as nat, old(self).n as nat) <= MAX_ALPHA,
            cx.wf(),
            cx.fits(old(self).k as nat),
        ensures
            final(self).wf(),
            final(self).d == old(self).d,
            final(self).kind == old(self).kind,
            final(self).hardcap == old(self).hardcap,
            final(self).pos@ == old(self).pos@,
            cx.ns is None ==> r == old(self).answer(w@, cx.lsd),
    {
        match decode(self.k, self.n, w, cx) {
            Some(v) => {
                let mut d: Vec<u64> = Vec::new();
                let mut i: usize = 0;
                while i < self.pos.len()
                    invariant
                        self.wf(),
                        v@.len() == self.n,
                        i <= self.pos@.len(),
                        d@.len() == i,
                        forall|x: int| 0 <= x < i ==> #[trigger] d@[x] == v@[self.pos@[x] as int],
                    decreases self.pos@.len() - i,
                {
                    d.push(v[self.pos[i]]);
                    i = i + 1;
                }
                proof {
                    let k = self.k as nat;
                    if cx.ns is None {
                        assert(d@[0] as int == track_val(w@, self.pos@[0] as nat, k, cx.lsd));
                        assert(d@[1] as int == track_val(w@, self.pos@[1] as nat, k, cx.lsd));
                        assert(d@[2] as int == track_val(w@, self.pos@[2] as nat, k, cx.lsd));
                        assert forall|t: nat| t < self.n implies #[trigger] track_val(w@, t, k, cx.lsd) <= u64::MAX by {
                            assert(crate::base::val(crate::base::track(w@, t, k), k, cx.lsd) <= u64::MAX);
                        }
                    }
                }
                if range_ok(self.kind, self.hardcap, d[0], d[1], d[2]) {
                    self.eval(d.as_slice())
                } else {
                    self.overflow = self.overflow.saturating_add(1);
                    self.mqs = self.mqs.saturating_add(1);
                    false
                }
            },
            None => {
                proof {
                    let k = self.k as nat;
                    if cx.ns is None {
                        if !(cx.lsd ==> (w@.len() == 0 || spow(k, (w@.len() - 1) as nat) <= u64::MAX)) {
                        } else {
                            let c = choose|c: nat| c < self.n && !(#[trigger] crate::base::val(crate::base::track(w@, c, k), k, cx.lsd) <= u64::MAX);
                            assert(!(track_val(w@, c, k, cx.lsd) <= u64::MAX));
                        }
                    }
                }
                self.overflow = self.overflow.saturating_add(1);
                self.mqs = self.mqs.saturating_add(1);
                false
            },
        }
    }
}
} // verus!
