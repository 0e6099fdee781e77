//! Addable numeration systems: Zeckendorf (Fibonacci), Tribonacci, Pell, ...
//!
//! A numeration system is a digit alphabet `{0, .., D-1}`, a validity DFA over
//! one track, an addition DFA over three tracks and a comparison DFA over two,
//! each in both digit orders, plus the counting table that turns valid words
//! into integers (their rank in the radix order of the validity language).
use vstd::prelude::*;
use crate::dfa::{Dfa, State, word_over, trun, lemma_trun, lemma_word_over_sub};
use crate::strs::names;

verus! {

/// Longest representation length the counting table covers.
pub const MAXLEN: usize = 96;

/// Saturation ceiling for the counting table.
pub const CNT_CAP: u64 = 4611686018427387903;

/// One loaded numeration system.
pub struct NumSys {
    pub name: String,
    pub digits: usize,
    pub valid_msd: Dfa,
    pub add_msd: Dfa,
    pub lt_msd: Dfa,
    pub valid_lsd: Dfa,
    pub add_lsd: Dfa,
    pub lt_lsd: Dfa,
    /// msd validity table: `vn` states, `vt` transitions, `vacc` accept bits.
    pub vn: usize,
    pub vt: Vec<State>,
    pub vacc: Vec<bool>,
    /// `cnt[q * (MAXLEN+1) + l]` = number of accepted words of length `l` from `q`, capped.
    pub cnt: Vec<u64>,
    /// Whether a comparison automaton was loaded (vs. derived lexicographically).
    pub lt_loaded: bool,
}

/// An automaton over `nv` tracks of base-`k` digits.
pub open spec fn tracks(d: &Dfa, k: nat, nv: nat) -> bool {
    &&& d.wf()
    &&& d.k == k
    &&& d.vars.len() == nv
}

/// `l` reads digits least significant first what `m` reads most significant
/// first: it accepts exactly the reversals of the words `m` accepts.
pub open spec fn reverses(l: &Dfa, m: &Dfa) -> bool {
    &&& l.alpha == m.alpha
    &&& forall|w: Seq<usize>| word_over(w, m.alpha as nat) ==> #[trigger] l.accepts(w) == m.accepts(w.reverse())
}

impl NumSys {
    /// The automata have the right shapes, the lsd automata are the digit
    /// reversals of the msd ones, and the value tables match validity.
    pub open spec fn wf(&self) -> bool {
        &&& self.digits >= 2
        &&& reverses(&self.valid_lsd, &self.valid_msd)
        &&& reverses(&self.add_lsd, &self.add_msd)
        &&& reverses(&self.lt_lsd, &self.lt_msd)
        &&& tracks(&self.valid_msd, self.digits as nat, 1)
        &&& tracks(&self.valid_lsd, self.digits as nat, 1)
        &&& tracks(&self.add_msd, self.digits as nat, 3)
        &&& tracks(&self.add_lsd, self.digits as nat, 3)
        &&& tracks(&self.lt_msd, self.digits as nat, 2)
        &&& tracks(&self.lt_lsd, self.digits as nat, 2)
        &&& self.vn == self.valid_msd.nstates
        &&& self.vt@ == self.valid_msd.trans@
        &&& self.vacc@ == self.valid_msd.accept@
        &&& self.cnt@.len() == self.vn * (MAXLEN + 1)
        &&& self.valid_msd.alpha == self.digits
        &&& forall|i: int| 0 <= i < self.cnt@.len() ==> #[trigger] self.cnt@[i] <= CNT_CAP
        &&& forall|q: nat| q < self.vn ==> #[trigger] self.cnt@[(q * (MAXLEN + 1)) as int] == if self.vacc@[q as int] { 1u64 } else { 0u64 }
    }

    /// The msd validity successor of `q` on digit `d`.
    pub open spec fn vstep(&self, q: nat, d: nat) -> nat {
        self.vt@[(q * self.digits + d) as int] as nat
    }

    /// The (capped) number of accepted words of length `l` from `q`.
    pub open spec fn cntv(&self, q: nat, l: nat) -> nat {
        if l > MAXLEN {
            CNT_CAP as nat
        } else {
            self.cnt@[(q * (MAXLEN + 1) + l) as int] as nat
        }
    }

    /// Words from `q` of length `rem + 1` whose first digit is below `d`, counted.
    pub open spec fn lower(&self, q: nat, d: nat, rem: nat) -> nat
        decreases d,
    {
        if d == 0 {
            0
        } else {
            self.lower(q, (d - 1) as nat, rem) + self.cntv(self.vstep(q, (d - 1) as nat), rem)
        }
    }

    /// The validity state after the first `p` digits of `w`.
    pub open spec fn vrun(&self, w: Seq<usize>, p: nat) -> nat {
        trun(self.vt@, self.digits as nat, 0, w.take(p as int))
    }

    /// The rank contributions of the first `p` digits of `w`.
    pub open spec fn rank_upto(&self, w: Seq<usize>, p: nat) -> nat
        decreases p,
    {
        if p == 0 {
            0
        } else {
            self.rank_upto(w, (p - 1) as nat) + self.lower(self.vrun(w, (p - 1) as nat), w[p - 1] as nat, (w.len() - p) as nat)
        }
    }

    /// The rank of `w` among the valid words of its length.
    pub open spec fn rank(&self, w: Seq<usize>) -> nat {
        self.rank_upto(w, w.len())
    }

    /// The value of a digit word: its rank, when it is valid and below the cap.
    pub open spec fn value_of(&self, w: Seq<usize>) -> Option<u64> {
        if word_over(w, self.digits as nat) && self.vacc@[self.vrun(w, w.len()) as int] && self.rank(w) < CNT_CAP {
            Some(self.rank(w) as u64)
        } else {
            None
        }
    }

    pub open spec fn valid_of(&self, lsd: bool) -> &Dfa {
        if lsd { &self.valid_lsd } else { &self.valid_msd }
    }

    pub open spec fn add_of(&self, lsd: bool) -> &Dfa {
        if lsd { &self.add_lsd } else { &self.add_msd }
    }

    pub open spec fn lt_of(&self, lsd: bool) -> &Dfa {
        if lsd { &self.lt_lsd } else { &self.lt_msd }
    }

    /// The validity automaton for the given digit order.
    pub fn valid(&self, lsd: bool) -> (r: &Dfa)
        ensures
            r == self.valid_of(lsd),
    {
        if lsd { &self.valid_lsd } else { &self.valid_msd }
    }

    /// The addition automaton `(x,y,z) : x+y=z` for the given digit order.
    pub fn add(&self, lsd: bool) -> (r: &Dfa)
        ensures
            r == self.add_of(lsd),
    {
        if lsd { &self.add_lsd } else { &self.add_msd }
    }

    /// The comparison automaton `(x,y) : x<y` for the given digit order.
    pub fn lt(&self, lsd: bool) -> (r: &Dfa)
        ensures
            r == self.lt_of(lsd),
    {
        if lsd { &self.lt_lsd } else { &self.lt_msd }
    }
}


impl NumSys {
    /// The (capped) count of accepted words of length `l` from `q`.
    pub fn cnt(&self, q: usize, l: usize) -> (r: u64)
        requires
            self.wf(),
            q < self.vn,
        ensures
            r == self.cntv(q as nat, l as nat),
            r <= CNT_CAP,
    {
        if l > MAXLEN {
            CNT_CAP
        } else {
            let cl = self.cnt.len();
            proof {
                crate::dfa::lemma_index(q as nat, l as nat, self.vn as nat, (MAXLEN + 1) as nat);
            }
            self.cnt[q * (MAXLEN + 1) + l]
        }
    }

    /// The msd validity successor of `q` on digit `d`.
    pub fn vt(&self, q: usize, d: usize) -> (r: usize)
        requires
            self.wf(),
            q < self.vn,
            d < self.digits,
        ensures
            r == self.vstep(q as nat, d as nat),
            r < self.vn,
    {
        proof {
            self.valid_msd.lemma_steps();
            assert(self.valid_msd.step(q as nat, d as nat) == self.vstep(q as nat, d as nat));
        }
        self.valid_msd.t(q, d)
    }

    /// Value of an msd-first digit word: its rank among the valid words of its
    /// length, or `None` if the word is not valid or its value reaches the cap.
    pub fn value(&self, w: &[usize]) -> (r: Option<u64>)
        requires
            self.wf(),
        ensures
            r == self.value_of(w@),
    {
        let len = w.len();
        let mut q: usize = 0;
        let mut v: u64 = 0;
        let mut p: usize = 0;
        proof {
            assert(w@.take(0) =~= Seq::<usize>::empty());
        }
        while p < len
            invariant
                self.wf(),
                len == w.len(),
                p <= len,
                q < self.vn,
                q == self.vrun(w@, p as nat),
                v == self.rank_upto(w@, p as nat),
                forall|i: int| 0 <= i < p ==> (#[trigger] w@[i] as nat) < self.digits,
            decreases len - p,
        {
            let d = w[p];
            if d >= self.digits {
                proof {
                    assert(!word_over(w@, self.digits as nat));
                }
                return None;
            }
            let rem = len - 1 - p;
            let mut e: usize = 0;
            let ghost base = v;
            while e < d
                invariant
                    self.wf(),
                    len == w.len(),
                    p < len,
                    rem == len - 1 - p,
                    d == w@[p as int],
                    q < self.vn,
                    q == self.vrun(w@, p as nat),
                    base == self.rank_upto(w@, p as nat),
                    d < self.digits,
                    e <= d,
                    v == base + self.lower(q as nat, e as nat, rem as nat),
                decreases d - e,
            {
                let c = self.cnt(self.vt(q, e), rem);
                match v.checked_add(c) {
                    Some(x) => {
                        v = x;
                    },
                    None => {
                        proof {
                            self.lemma_rank_overflow(w@, p as nat, e as nat);
                        }
                        return None;
                    },
                }
                e = e + 1;
            }
            proof {
                assert(w@.take(p + 1).drop_last() =~= w@.take(p as int));
                assert(w@.take(p + 1).last() == d);
                assert(self.vrun(w@, (p + 1) as nat) == self.vstep(q as nat, d as nat));
            }
            q = self.vt(q, d);
            p = p + 1;
        }
        proof {
            assert(w@.take(len as int) =~= w@);
        }
        if !self.vacc[q] {
            return None;
        }
        if v >= CNT_CAP {
            return None;
        }
        Some(v)
    }

    /// An overflowing partial rank means the value is out of range.
    proof fn lemma_rank_overflow(&self, w: Seq<usize>, p: nat, e: nat)
        requires
            self.wf(),
            p < w.len(),
            e < w[p as int],
            self.rank_upto(w, p) + self.lower(self.vrun(w, p), (e + 1) as nat, (w.len() - 1 - p) as nat) > u64::MAX,
        ensures
            self.value_of(w) is None,
    {
        let rem = (w.len() - 1 - p) as nat;
        let q = self.vrun(w, p);
        self.lemma_lower_mono(q, (e + 1) as nat, w[p as int] as nat, rem);
        assert(self.rank_upto(w, (p + 1) as nat) == self.rank_upto(w, p) + self.lower(q, w[p as int] as nat, rem));
        self.lemma_rank_mono(w, (p + 1) as nat, w.len());
    }

    proof fn lemma_lower_mono(&self, q: nat, a: nat, b: nat, rem: nat)
        requires
            a <= b,
        ensures
            self.lower(q, a, rem) <= self.lower(q, b, rem),
        decreases b,
    {
        if a < b {
            self.lemma_lower_mono(q, a, (b - 1) as nat, rem);
        }
    }

    proof fn lemma_rank_mono(&self, w: Seq<usize>, a: nat, b: nat)
        requires
            a <= b,
        ensures
            self.rank_upto(w, a) <= self.rank_upto(w, b),
        decreases b,
    {
        if a < b {
            self.lemma_rank_mono(w, a, (b - 1) as nat);
        }
    }
}

impl NumSys {
    /// `U_l`, the number of valid words of length `l` (capped).
    pub fn weight(&self, l: usize) -> (r: u64)
        requires
            self.wf(),
        ensures
            r == self.cntv(0, l as nat),
    {
        self.cnt(0, l)
    }

    /// The validity states after each prefix of `w`: `r[p]` is the state after `w[0..p]`.
    pub fn vstates(&self, w: &[usize]) -> (r: Vec<u32>)
        requires
            self.wf(),
            word_over(w@, self.digits as nat),
        ensures
            r.len() == w.len() + 1,
            forall|p: int| 0 <= p <= w.len() ==> #[trigger] r@[p] as nat == self.vrun(w@, p as nat),
    {
        let mut st: Vec<u32> = Vec::new();
        st.push(0);
        let mut q: usize = 0;
        let mut p: usize = 0;
        proof {
            assert(w@.take(0) =~= Seq::<usize>::empty());
        }
        while p < w.len()
            invariant
                self.wf(),
                word_over(w@, self.digits as nat),
                p <= w.len(),
                st.len() == p + 1,
                q < self.vn,
                q == self.vrun(w@, p as nat),
                forall|i: int| 0 <= i <= p ==> #[trigger] st@[i] as nat == self.vrun(w@, i as nat),
            decreases w.len() - p,
        {
            let d = w[p];
            proof {
                assert(w@.take(p + 1).drop_last() =~= w@.take(p as int));
                assert(w@.take(p + 1).last() == d);
                assert((d as nat) < self.digits);
            }
            q = self.vt(q, d);
            st.push(q as u32);
            p = p + 1;
        }
        st
    }

    /// The `n`-th (0-based) accepted word of length `len`, in lexicographic
    /// order; all zeros if there is none.
    fn unrank(&self, n: u64, len: usize) -> (r: Vec<usize>)
        requires
            self.wf(),
            len >= 1,
        ensures
            r.len() == len,
            word_over(r@, self.digits as nat),
            (forall|i: int| 0 <= i < r.len() ==> #[trigger] r@[i] == 0)
                || (self.rank(r@) == n && self.vacc@[self.vrun(r@, len as nat) as int]),
    {
        let mut w: Vec<usize> = Vec::new();
        let mut i: usize = 0;
        while i < len
            invariant
                i <= len,
                w.len() == i,
                forall|j: int| 0 <= j < i ==> w@[j] == 0,
            decreases len - i,
        {
            w.push(0);
            i = i + 1;
        }
        let mut nn: u64 = n;
        let mut q: usize = 0;
        let mut p: usize = 0;
        proof {
            assert(w@.take(0) =~= Seq::<usize>::empty());
            assert(self.rank_upto(w@, 0) == 0);
        }
        while p < len
            invariant
                self.wf(),
                p <= len,
                w.len() == len,
                len >= 1,
                word_over(w@, self.digits as nat),
                forall|j: int| p <= j < len ==> w@[j] == 0,
                q < self.vn,
                q == self.vrun(w@, p as nat),
                nn + self.rank_upto(w@, p as nat) == n,
                p > 0 ==> nn < self.cntv(q as nat, (len - p) as nat),
            decreases len - p,
        {
            let rem = len - 1 - p;
            let mut chosen: usize = self.digits;
            let mut e: usize = 0;
            let mut q2: usize = 0;
            let ghost start = nn;
            while e < self.digits
                invariant_except_break
                    chosen == self.digits,
                invariant
                    self.wf(),
                    q < self.vn,
                    e <= self.digits,
                    chosen <= self.digits,
                    nn + self.lower(q as nat, e as nat, rem as nat) == start,
                    chosen < self.digits ==> chosen == e && q2 == self.vstep(q as nat, e as nat) && nn < self.cntv(q2 as nat, rem as nat) && q2 < self.vn,
                ensures
                    chosen <= self.digits,
                    chosen < self.digits ==> chosen == e && q2 == self.vstep(q as nat, e as nat) && nn < self.cntv(q2 as nat, rem as nat) && q2 < self.vn
                        && nn + self.lower(q as nat, e as nat, rem as nat) == start,
                decreases self.digits - e,
            {
                let t = self.vt(q, e);
                let c = self.cnt(t, rem);
                if nn < c {
                    chosen = e;
                    q2 = t;
                    break;
                }
                nn = nn - c;
                e = e + 1;
            }
            if chosen == self.digits {
                return zero_word(len);
            }
            let ghost pre = w@;
            w.set(p, chosen);
            proof {
                assert(w@.take(p as int) =~= pre.take(p as int));
                assert(w@.take(p + 1).drop_last() =~= w@.take(p as int));
                assert(w@.take(p + 1).last() == chosen);
                self.lemma_rank_prefix(pre, w@, p as nat);
                assert(self.vrun(w@, p as nat) == q);
                assert(w@[p as int] == chosen);
                assert((w.len() - (p + 1)) as nat == rem as nat);
                assert(((p + 1) - 1) as nat == p as nat);
                assert(self.rank_upto(w@, (p + 1) as nat) == self.rank_upto(w@, p as nat) + self.lower(q as nat, chosen as nat, rem as nat));
                assert forall|j: int| 0 <= j < w.len() implies (#[trigger] w@[j] as nat) < self.digits by {
                    if j != p {
                        assert(w@[j] == pre[j]);
                    }
                }
            }
            q = q2;
            p = p + 1;
        }
        proof {
            assert(w@.take(len as int) =~= w@);
            assert(nn < self.cntv(q as nat, 0));
            assert(self.cntv(q as nat, 0) == self.cnt@[(q * (MAXLEN + 1)) as int] as nat);
        }
        w
    }

    /// The rank contributions of a prefix only depend on that prefix.
    proof fn lemma_rank_prefix(&self, a: Seq<usize>, b: Seq<usize>, p: nat)
        requires
            a.len() == b.len(),
            p <= a.len(),
            a.take(p as int) == b.take(p as int),
        ensures
            self.rank_upto(a, p) == self.rank_upto(b, p),
        decreases p,
    {
        if p > 0 {
            assert(a.take(p - 1) =~= a.take(p as int).take(p - 1));
            assert(b.take(p - 1) =~= b.take(p as int).take(p - 1));
            self.lemma_rank_prefix(a, b, (p - 1) as nat);
            assert(a[p - 1] == a.take(p as int)[p - 1]);
            assert(b[p - 1] == b.take(p as int)[p - 1]);
        }
    }

    /// The first length `l` or beyond that is past `MAXLEN` or has more than `n`
    /// accepted words.
    pub open spec fn first_over(&self, n: nat, l: nat) -> nat
        decreases MAXLEN + 1 - l,
    {
        if l > MAXLEN || self.cntv(0, l) > n {
            l
        } else {
            self.first_over(n, l + 1)
        }
    }

    /// The length of the canonical word of `n`: the shortest length with
    /// more than `n` accepted words, at least 1.
    pub open spec fn rep_len(&self, n: nat) -> nat {
        let l = self.first_over(n, 0);
        if l == 0 { 1 } else { l }
    }

    /// Canonical msd-first digit word of `n` (no leading zeros; `[0]` for `n = 0`).
    pub fn rep(&self, n: u64) -> (r: Vec<usize>)
        requires
            self.wf(),
        ensures
            1 <= r.len() <= MAXLEN + 1,
            r.len() == self.rep_len(n as nat),
            word_over(r@, self.digits as nat),
            (forall|i: int| 0 <= i < r.len() ==> #[trigger] r@[i] == 0)
                || (self.rank(r@) == n && self.vacc@[self.vrun(r@, r.len() as nat) as int]),
    {
        let mut len: usize = 0;
        while len <= MAXLEN && self.cnt(0, len) <= n
            invariant
                self.wf(),
                len <= MAXLEN + 1,
                self.first_over(n as nat, 0) == self.first_over(n as nat, len as nat),
            decreases MAXLEN + 1 - len,
        {
            len = len + 1;
        }
        if len == 0 {
            len = 1;
        }
        self.unrank(n, len)
    }

    /// Number of digits in the canonical representation of `n`.
    pub fn replen(&self, n: u64) -> (r: usize)
        requires
            self.wf(),
        ensures
            r >= 1,
            r == self.rep_len(n as nat),
    {
        self.rep(n).len()
    }

    /// A one-track automaton over `x` accepting exactly the valid representations.
    pub fn valid_for(&self, x: &str, lsd: bool) -> (r: Dfa)
        requires
            self.wf(),
        ensures
            r.wf(),
            names(r.vars@) == seq![x@],
            r.k == self.digits,
            r.nstates == self.valid_of(lsd).nstates,
            r.trans@ == self.valid_of(lsd).trans@,
            r.accept@ == self.valid_of(lsd).accept@,
            forall|w: Seq<usize>| word_over(w, r.alpha as nat) ==> #[trigger] r.accepts(w) == self.valid_of(lsd).accepts(w),
    {
        let v = self.valid(lsd);
        let vars: Vec<String> = vec![crate::strs::str_to_string(x)];
        let r = Dfa { k: v.k, vars, alpha: v.alpha, nstates: v.nstates, trans: v.trans.clone(), accept: v.accept.clone() };
        proof {
            assert(r.trans@ =~= v.trans@);
            assert(r.accept@ =~= v.accept@);
            assert(names(r.vars@) =~= seq![x@]);
        }
        r
    }
}

/// `len` zero digits.
pub fn zero_word(len: usize) -> (r: Vec<usize>)
    ensures
        r.len() == len,
        forall|i: int| 0 <= i < len ==> #[trigger] r@[i] == 0,
{
    let mut w: Vec<usize> = Vec::new();
    let mut i: usize = 0;
    while i < len
        invariant
            i <= len,
            w.len() == i,
            forall|j: int| 0 <= j < i ==> w@[j] == 0,
        decreases len - i,
    {
        w.push(0);
        i = i + 1;
    }
    w
}

impl NumSys {
    /// Digit `e` after validity state `q` leaves some valid completion of length `rem`.
    pub open spec fn live(&self, q: nat, e: nat, rem: nat) -> bool {
        e < self.digits && self.cntv(self.vstep(q, e), rem) > 0
    }

    /// In-place successor of a fixed-width valid word: at the rightmost
    /// position `p` where some larger digit still leaves a valid completion,
    /// put the smallest such digit and refill the tail greedily with the
    /// smallest live digits. `vst[i]` is the validity state after `w[0..i]`
    /// and is kept so. Returns `p`, or `None` if `w` is the largest word of
    /// its width (then nothing changes).
    pub fn succ(&self, w: &mut Vec<usize>, vst: &mut Vec<u32>) -> (r: Option<usize>)
        requires
            self.wf(),
            word_over(old(w)@, self.digits as nat),
            old(vst)@.len() == old(w)@.len() + 1,
            forall|i: int| 0 <= i <= old(w)@.len() ==> #[trigger] old(vst)@[i] as nat == self.vrun(old(w)@, i as nat),
        ensures
            final(w)@.len() == old(w)@.len(),
            final(vst)@.len() == old(vst)@.len(),
            word_over(final(w)@, self.digits as nat),
            r is None ==> final(w)@ == old(w)@ && final(vst)@ == old(vst)@,
            r is None ==> forall|p: int, e: nat| 0 <= p < old(w)@.len() && old(w)@[p] < e ==>
                !#[trigger] self.live(self.vrun(old(w)@, p as nat), e, (old(w)@.len() - 1 - p) as nat),
            r matches Some(p) ==> {
                &&& p < old(w)@.len()
                &&& final(w)@.take(p as int) == old(w)@.take(p as int)
                &&& old(w)@[p as int] < final(w)@[p as int]
                &&& self.live(self.vrun(old(w)@, p as nat), final(w)@[p as int] as nat, (old(w)@.len() - 1 - p) as nat)
                &&& forall|e: nat| old(w)@[p as int] < e < final(w)@[p as int] ==>
                    !#[trigger] self.live(self.vrun(old(w)@, p as nat), e, (old(w)@.len() - 1 - p) as nat)
                &&& forall|p2: int, e: nat| p < p2 < old(w)@.len() && old(w)@[p2] < e ==>
                    !#[trigger] self.live(self.vrun(old(w)@, p2 as nat), e, (old(w)@.len() - 1 - p2) as nat)
                &&& forall|i: int| 0 <= i <= p + 1 ==> #[trigger] final(vst)@[i] as nat == self.vrun(final(w)@, i as nat)
            },
    {
        let width = w.len();
        let ghost w0 = w@;
        let mut p = width;
        while p > 0
            invariant
                self.wf(),
                w@ == w0,
                w0 == old(w)@,
                vst@ == old(vst)@,
                width == w0.len(),
                vst@.len() == width + 1,
                word_over(w0, self.digits as nat),
                forall|i: int| 0 <= i <= width ==> #[trigger] vst@[i] as nat == self.vrun(w0, i as nat),
                p <= width,
                forall|p2: int, e: nat| p <= p2 < width && w0[p2] < e ==>
                    !#[trigger] self.live(self.vrun(w0, p2 as nat), e, (width - 1 - p2) as nat),
            decreases p,
        {
            p = p - 1;
            proof {
                crate::dfa::lemma_trun(self.vt@, self.vn as nat, self.digits as nat, 0, w0.take(p as int));
                self.valid_msd.lemma_steps();
            }
            let q = vst[p] as usize;
            let mut e = w[p] + 1;
            while e < self.digits
                invariant
                    self.wf(),
                    w@ == w0,
                    w0 == old(w)@,
                    vst@ == old(vst)@,
                    width == w0.len(),
                    vst@.len() == width + 1,
                    word_over(w0, self.digits as nat),
                    forall|i: int| 0 <= i <= width ==> #[trigger] vst@[i] as nat == self.vrun(w0, i as nat),
                    p < width,
                    q < self.vn,
                    q == self.vrun(w0, p as nat),
                    w0[p as int] < e,
                    forall|e2: nat| w0[p as int] < e2 < e ==> !#[trigger] self.live(q as nat, e2, (width - 1 - p) as nat),
                    forall|p2: int, e2: nat| p < p2 < width && w0[p2] < e2 ==>
                        !#[trigger] self.live(self.vrun(w0, p2 as nat), e2, (width - 1 - p2) as nat),
                decreases self.digits - e,
            {
                let q2 = self.vt(q, e);
                if self.cnt(q2, width - 1 - p) != 0 {
                    w.set(p, e);
                    vst.set(p + 1, q2 as u32);
                    let ghost wp = w@;
                    let ghost vp = vst@;
                    proof {
                        assert(wp.take(p as int) =~= w0.take(p as int));
                        assert(wp.take(p + 1).drop_last() =~= w0.take(p as int));
                        assert forall|i: int| 0 <= i <= p + 1 implies #[trigger] vp[i] as nat == self.vrun(wp, i as nat) by {
                            if i <= p {
                                assert(wp.take(i) =~= w0.take(i));
                            }
                        }
                    }
                    let mut qq = q2;
                    let mut r = p + 1;
                    while r < width
                        invariant
                            self.wf(),
                            width == w@.len(),
                            vst@.len() == width + 1,
                            p < r <= width,
                            qq < self.vn,
                            word_over(w@, self.digits as nat),
                            w@.take(p + 1) == wp.take(p + 1),
                            forall|i: int| 0 <= i <= p + 1 ==> #[trigger] vst@[i] == vp[i],
                        decreases width - r,
                    {
                        let rem = width - 1 - r;
                        let mut e2: usize = 0;
                        let mut done = false;
                        while e2 < self.digits && !done
                            invariant
                                self.wf(),
                                width == w@.len(),
                                vst@.len() == width + 1,
                                p < r < width,
                                qq < self.vn,
                                word_over(w@, self.digits as nat),
                                w@.take(p + 1) == wp.take(p + 1),
                                forall|i: int| 0 <= i <= p + 1 ==> #[trigger] vst@[i] == vp[i],
                                e2 <= self.digits,
                            decreases self.digits - e2,
                        {
                            let q3 = self.vt(qq, e2);
                            if self.cnt(q3, rem) > 0 {
                                let ghost wb = w@;
                                w.set(r, e2);
                                qq = q3;
                                vst.set(r + 1, q3 as u32);
                                done = true;
                                proof {
                                    assert(w@.take(p + 1) =~= wb.take(p + 1));
                                }
                            }
                            e2 = e2 + 1;
                        }
                        r = r + 1;
                    }
                    proof {
                        assert forall|i: int| 0 <= i <= p + 1 implies #[trigger] vst@[i] as nat == self.vrun(w@, i as nat) by {
                            assert(w@.take(i) =~= wp.take(i)) by {
                                assert(w@.take(p + 1).take(i) =~= w@.take(i));
                                assert(wp.take(p + 1).take(i) =~= wp.take(i));
                            }
                        }
                        assert(w@.take(p as int) =~= w@.take(p + 1).take(p as int));
                        assert(w0.take(p as int) =~= wp.take(p + 1).take(p as int));
                        assert(w@[p as int] == wp.take(p + 1)[p as int]);
                    }
                    return Some(p);
                }
                e = e + 1;
            }
        }
        None
    }
}
} // verus!
