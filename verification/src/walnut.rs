//! Walnut's automaton text format: an alphabet line, then states with their
//! outputs, each followed by its transitions.
use vstd::prelude::*;
use crate::dfa::{Dfa, State, MAX_ALPHA, spow, table_ok, tstep, trun, word_over, lemma_index, lemma_tstep, lemma_trun};
use crate::strs::{names, str_to_string, str_chars};
use crate::text::{find_char, find_pair, trim, parse_usize, parse_i64, lines};
use crate::logic::{is_ws, char_ws};
use crate::numsys::NumSys;

verus! {

/// A parsed automaton: `ntracks` input tracks over the digits `0..digits`,
/// `nstates` states with integer outputs, and a partial transition function
/// given as `(state, letter, target)` entries, a later entry overriding an
/// earlier one. `start` is the state declared first.
pub struct Parsed {
    pub ntracks: usize,
    pub digits: usize,
    pub nstates: usize,
    pub out: Vec<i64>,
    pub trans: Vec<(usize, usize, usize)>,
    pub ns_tokens: Vec<String>,
    pub start: usize,
}

/// The target of the last entry for `(q, s)`, if any.
pub open spec fn entry(trans: Seq<(usize, usize, usize)>, q: nat, s: nat) -> Option<nat>
    decreases trans.len(),
{
    if trans.len() == 0 {
        None
    } else if trans.last().0 as nat == q && trans.last().1 as nat == s {
        Some(trans.last().2 as nat)
    } else {
        entry(trans.drop_last(), q, s)
    }
}

impl Parsed {
    /// The alphabet fits, every state and letter of an entry is in range,
    /// and the outputs cover the states.
    pub open spec fn wf(&self) -> bool {
        &&& self.digits >= 1
        &&& self.ntracks >= 1
        &&& spow(self.digits as nat, self.ntracks as nat) <= MAX_ALPHA
        &&& 1 <= self.nstates
        &&& self.nstates < u32::MAX
        &&& (self.nstates + 1) * spow(self.digits as nat, self.ntracks as nat) <= usize::MAX
        &&& self.out@.len() == self.nstates
        &&& self.start < self.nstates
        &&& forall|i: int| 0 <= i < self.trans@.len() ==> (#[trigger] self.trans@[i]).0 < self.nstates
            && self.trans@[i].1 < spow(self.digits as nat, self.ntracks as nat) && self.trans@[i].2 < self.nstates
    }

    /// The state after reading `w` from `q` in the file's numbering, `None`
    /// once a missing transition is taken.
    pub open spec fn run(&self, q: nat, w: Seq<usize>) -> Option<nat>
        decreases w.len(),
    {
        if w.len() == 0 {
            Some(q)
        } else {
            match self.run(q, w.drop_last()) {
                Some(p) => entry(self.trans@, p, w.last() as nat),
                None => None,
            }
        }
    }

    /// `w` leads from the start state to a state with a nonzero output.
    pub open spec fn accepts(&self, w: Seq<usize>) -> bool {
        match self.run(self.start as nat, w) {
            Some(p) => self.out@[p as int] != 0,
            None => false,
        }
    }

    /// Exchange `start` and `0`, so that the start state becomes state 0.
    pub open spec fn relab(&self, q: nat) -> nat {
        if q == self.start {
            0
        } else if q == 0 {
            self.start as nat
        } else {
            q
        }
    }

    fn relab_exec(&self, q: usize) -> (r: usize)
        ensures
            r == self.relab(q as nat),
    {
        if q == self.start {
            0
        } else if q == 0 {
            self.start
        } else {
            q
        }
    }

    /// The table in the relabelled numbering with a dead state `nstates`
    /// added for the missing transitions.
    fn dense(&self, alpha: usize) -> (r: Vec<State>)
        requires
            self.wf(),
            alpha == spow(self.digits as nat, self.ntracks as nat),
        ensures
            table_ok(r@, (self.nstates + 1) as nat, alpha as nat),
            forall|q: nat, s: nat| q < self.nstates && s < alpha ==> #[trigger] tstep(r@, alpha as nat, self.relab(q), s)
                == match entry(self.trans@, q, s) {
                    Some(t) => self.relab(t),
                    None => self.nstates as nat,
                },
            forall|s: nat| s < alpha ==> #[trigger] tstep(r@, alpha as nat, self.nstates as nat, s) == self.nstates,
    {
        let n = self.nstates + 1;
        let dead = self.nstates as u32;
        proof {
            crate::dfa::lemma_spow_pos(self.digits as nat, self.ntracks as nat);
        }
        let size = n * alpha;
        let mut t: Vec<State> = Vec::new();
        let mut i: usize = 0;
        while i < size
            invariant
                size == n * alpha,
                i <= size,
                t@.len() == i,
                dead == self.nstates,
                forall|x: int| 0 <= x < i ==> #[trigger] t@[x] == dead,
            decreases size - i,
        {
            t.push(dead);
            i = i + 1;
        }
        let ghost tr = self.trans@;
        proof {
            assert(tr.take(0) =~= Seq::<(usize, usize, usize)>::empty());
            assert forall|q: nat, s: nat| q < self.nstates && s < alpha implies #[trigger] tstep(t@, alpha as nat, self.relab(q), s)
                == match entry(tr.take(0), q, s) {
                    Some(x) => self.relab(x),
                    None => self.nstates as nat,
                } by {
                lemma_index(self.relab(q), s, n as nat, alpha as nat);
            }
            assert forall|s: nat| s < alpha implies #[trigger] tstep(t@, alpha as nat, self.nstates as nat, s) == self.nstates by {
                lemma_index(self.nstates as nat, s, n as nat, alpha as nat);
            }
        }
        let mut j: usize = 0;
        while j < self.trans.len()
            invariant
                self.wf(),
                alpha == spow(self.digits as nat, self.ntracks as nat),
                alpha >= 1,
                n == self.nstates + 1,
                dead == self.nstates,
                tr == self.trans@,
                j <= tr.len(),
                t@.len() == n * alpha,
                forall|x: int| 0 <= x < t@.len() ==> (#[trigger] t@[x] as int) < n,
                forall|q: nat, s: nat| q < self.nstates && s < alpha ==> #[trigger] tstep(t@, alpha as nat, self.relab(q), s)
                    == match entry(tr.take(j as int), q, s) {
                        Some(x) => self.relab(x),
                        None => self.nstates as nat,
                    },
                forall|s: nat| s < alpha ==> #[trigger] tstep(t@, alpha as nat, self.nstates as nat, s) == self.nstates,
            decreases tr.len() - j,
        {
            let (q, s, d) = self.trans[j];
            proof {
                assert(self.trans@[j as int].0 < self.nstates);
                assert(self.trans@[j as int].1 < alpha);
                assert(self.trans@[j as int].2 < self.nstates);
            }
            let rq = self.relab_exec(q);
            let rd = self.relab_exec(d);
            proof {
                lemma_index(rq as nat, s as nat, n as nat, alpha as nat);
            }
            let ghost pre = t@;
            t.set(rq * alpha + s, rd as u32);
            proof {
                assert(tr.take(j + 1).drop_last() =~= tr.take(j as int));
                assert(tr.take(j + 1).last() == tr[j as int]);
                assert forall|q2: nat, s2: nat| q2 < self.nstates && s2 < alpha implies #[trigger] tstep(t@, alpha as nat, self.relab(q2), s2)
                    == match entry(tr.take(j + 1), q2, s2) {
                        Some(x) => self.relab(x),
                        None => self.nstates as nat,
                    } by {
                    lemma_index(self.relab(q2), s2, n as nat, alpha as nat);
                    if q2 == q as nat && s2 == s as nat {
                    } else {
                        if self.relab(q2) * alpha + s2 == rq * alpha + s {
                            crate::product::lemma_pair_unique(self.relab(q2), s2, rq as nat, s as nat, alpha as nat);
                            assert(self.relab(q2) == self.relab(q as nat));
                        }
                        assert(tstep(t@, alpha as nat, self.relab(q2), s2) == tstep(pre, alpha as nat, self.relab(q2), s2));
                    }
                }
                assert forall|s2: nat| s2 < alpha implies #[trigger] tstep(t@, alpha as nat, self.nstates as nat, s2) == self.nstates by {
                    lemma_index(self.nstates as nat, s2, n as nat, alpha as nat);
                    if self.nstates * alpha + s2 == rq * alpha + s {
                        crate::product::lemma_pair_unique(self.nstates as nat, s2, rq as nat, s as nat, alpha as nat);
                    }
                    assert(tstep(t@, alpha as nat, self.nstates as nat, s2) == tstep(pre, alpha as nat, self.nstates as nat, s2));
                }
            }
            j = j + 1;
        }
        proof {
            assert(tr.take(tr.len() as int) =~= tr);
        }
        t
    }

    /// The relabelled table runs like the file's automaton.
    proof fn lemma_dense_run(&self, t: Seq<State>, alpha: nat, w: Seq<usize>)
        requires
            self.wf(),
            alpha == spow(self.digits as nat, self.ntracks as nat),
            table_ok(t, (self.nstates + 1) as nat, alpha),
            forall|q: nat, s: nat| q < self.nstates && s < alpha ==> #[trigger] tstep(t, alpha, self.relab(q), s)
                == match entry(self.trans@, q, s) {
                    Some(x) => self.relab(x),
                    None => self.nstates as nat,
                },
            forall|s: nat| s < alpha ==> #[trigger] tstep(t, alpha, self.nstates as nat, s) == self.nstates,
            word_over(w, alpha),
        ensures
            trun(t, alpha, 0, w) == match self.run(self.start as nat, w) {
                Some(p) => self.relab(p),
                None => self.nstates as nat,
            },
            self.run(self.start as nat, w) matches Some(p) ==> p < self.nstates,
        decreases w.len(),
    {
        if w.len() > 0 {
            crate::dfa::lemma_word_over_sub(w, alpha);
            self.lemma_dense_run(t, alpha, w.drop_last());
            match self.run(self.start as nat, w.drop_last()) {
                Some(p) => {
                    lemma_entry_bound(self.trans@, self.nstates as nat, spow(self.digits as nat, self.ntracks as nat), p, w.last() as nat);
                },
                None => {},
            }
        }
    }

    /// The automaton over the variables `vars` (one per track): a missing
    /// transition goes to a dead state, and the accepting states are those
    /// with a nonzero output.
    pub fn to_dfa(&self, vars: &Vec<String>) -> (r: Result<Dfa, String>)
        requires
            self.wf(),
        ensures
            r is Err <==> (vars.len() != self.ntracks || !crate::dfa::distinct(names(vars@))),
            r matches Ok(d) ==> d.wf() && d.k == self.digits && d.vars@ == vars@
                && forall|w: Seq<usize>| word_over(w, d.alpha as nat) ==> #[trigger] d.accepts(w) == self.accepts(w),
    {
        if vars.len() != self.ntracks {
            return Err(str_to_string("wrong number of track names"));
        }
        if !crate::strs::all_distinct(vars) {
            return Err(str_to_string("repeated track name"));
        }
        let alpha = crate::dfa::pow(self.digits, self.ntracks);
        let t = self.dense(alpha);
        let n = self.nstates + 1;
        let mut accept: Vec<bool> = Vec::new();
        let mut q: usize = 0;
        while q < n
            invariant
                self.wf(),
                n == self.nstates + 1,
                q <= n,
                accept@.len() == q,
                forall|x: int| 0 <= x < q ==> #[trigger] accept@[x] == (x < self.nstates && self.out@[self.relab(x as nat) as int] != 0),
            decreases n - q,
        {
            if q < self.nstates {
                let o = self.out[self.relab_exec(q)];
                accept.push(o != 0);
            } else {
                accept.push(false);
            }
            q = q + 1;
        }
        let d = Dfa::new(self.digits, crate::strs::copy_names(vars), n, t, accept);
        let m = d.minimize();
        proof {
            assert forall|w: Seq<usize>| word_over(w, m.alpha as nat) implies #[trigger] m.accepts(w) == self.accepts(w) by {
                assert(m.accepts(w) == d.accepts(w));
                self.lemma_dense_run(d.trans@, alpha as nat, w);
                match self.run(self.start as nat, w) {
                    Some(p) => {
                        assert(self.relab(self.relab(p)) == p);
                    },
                    None => {},
                }
            }
        }
        Ok(m)
    }

    /// `(states, transitions, outputs)` of a one-track automaton with output,
    /// in the relabelled numbering with a dead state added; outputs must fit
    /// a byte.
    pub fn to_dfao_tables(&self) -> (r: Result<(usize, Vec<State>, Vec<u8>), String>)
        requires
            self.wf(),
        ensures
            r matches Ok((n, t, o)) ==> self.ntracks == 1 && n == self.nstates + 1 && table_ok(t@, n as nat, self.digits as nat)
                && o@.len() == n && o@[self.nstates as int] == 0
                && forall|q: nat| q < self.nstates ==> #[trigger] o@[self.relab(q) as int] as int == self.out@[q as int],
            r is Err ==> self.ntracks != 1 || exists|q: int| 0 <= q < self.nstates && !(0 <= #[trigger] self.out@[q] <= 255),
    {
        if self.ntracks != 1 {
            return Err(str_to_string("a DFAO must have exactly one input track"));
        }
        proof {
            assert(spow(self.digits as nat, 1) == self.digits * spow(self.digits as nat, 0));
            assert(spow(self.digits as nat, 0) == 1);
            assert(self.ntracks as nat == 1);
            let d0 = spow(self.digits as nat, 0);
            let d1 = spow(self.digits as nat, 1);
            assert(d1 == self.digits) by (nonlinear_arith)
                requires
                    d0 == 1,
                    d1 == self.digits * d0,
            ;
            assert(spow(self.digits as nat, self.ntracks as nat) == self.digits);
        }
        let t = self.dense(self.digits);
        let n = self.nstates + 1;
        let mut out: Vec<u8> = Vec::new();
        let mut q: usize = 0;
        while q < n
            invariant
                self.wf(),
                n == self.nstates + 1,
                q <= n,
                out@.len() == q,
                forall|x: int| 0 <= x < q && x < self.nstates ==> #[trigger] out@[x] as int == self.out@[self.relab(x as nat) as int],
                q > self.nstates ==> out@[self.nstates as int] == 0,
            decreases n - q,
        {
            if q < self.nstates {
                let o = self.out[self.relab_exec(q)];
                if o < 0 || o > 255 {
                    return Err(str_to_string("output out of range"));
                }
                out.push(o as u8);
            } else {
                out.push(0);
            }
            q = q + 1;
        }
        proof {
            assert forall|p: nat| p < self.nstates implies #[trigger] out@[self.relab(p) as int] as int == self.out@[p as int] by {
                assert(self.relab(self.relab(p)) == p);
            }
        }
        Ok((n, t, out))
    }
}

/// The target of an entry is a state.
proof fn lemma_entry_bound(trans: Seq<(usize, usize, usize)>, n: nat, alpha: nat, q: nat, s: nat)
    requires
        forall|i: int| 0 <= i < trans.len() ==> (#[trigger] trans[i]).0 < n && trans[i].1 < alpha && trans[i].2 < n,
    ensures
        entry(trans, q, s) matches Some(t) ==> t < n,
    decreases trans.len(),
{
    if trans.len() > 0 {
        lemma_entry_bound(trans.drop_last(), n, alpha, q, s);
        assert(trans.last() == trans[trans.len() - 1]);
    }
}

/// The end of the run of non-blank characters of `cs[i..en)` that starts at `i`.
pub open spec fn run_end(cs: Seq<char>, i: int, en: int) -> int
    decreases en - i,
{
    if i < en && !crate::logic::is_ws(cs[i]) { run_end(cs, i + 1, en) } else { i }
}

/// A run ends within its range.
pub proof fn lemma_run_end(cs: Seq<char>, i: int, en: int)
    requires
        i <= en,
    ensures
        i <= run_end(cs, i, en) <= en,
    decreases en - i,
{
    if i < en && !crate::logic::is_ws(cs[i]) {
        lemma_run_end(cs, i + 1, en);
    }
}

/// The maximal runs of non-blank characters of `cs[i..en)`, as index pairs.
pub open spec fn runs(cs: Seq<char>, i: int, en: int) -> Seq<(int, int)>
    decreases en - i,
{
    if i >= en {
        Seq::empty()
    } else if crate::logic::is_ws(cs[i]) {
        runs(cs, i + 1, en)
    } else {
        let j = run_end(cs, i + 1, en);
        if j <= i || j > en { Seq::empty() } else { seq![(i, j)] + runs(cs, j, en) }
    }
}

/// Index pairs taken as integers.
pub open spec fn int_pairs(v: Seq<(usize, usize)>) -> Seq<(int, int)> {
    v.map_values(|p: (usize, usize)| (p.0 as int, p.1 as int))
}

/// The white-space separated tokens of `cs[st..en)`.
pub fn tokens(cs: &Vec<char>, st: usize, en: usize) -> (r: Vec<(usize, usize)>)
    requires
        st <= en <= cs.len(),
    ensures
        forall|i: int| 0 <= i < r@.len() ==> st <= (#[trigger] r@[i]).0 < r@[i].1 <= en,
        int_pairs(r@) == runs(cs@, st as int, en as int),
{
    let mut out: Vec<(usize, usize)> = Vec::new();
    let mut i: usize = st;
    while i < en
        invariant
            st <= i <= en <= cs.len(),
            forall|j: int| 0 <= j < out@.len() ==> st <= (#[trigger] out@[j]).0 < out@[j].1 <= en,
            runs(cs@, st as int, en as int) == int_pairs(out@) + runs(cs@, i as int, en as int),
        decreases en - i,
    {
        if char_ws(cs[i]) {
            i = i + 1;
        } else {
            let a = i;
            i = i + 1;
            while i < en && !char_ws(cs[i])
                invariant
                    a < i <= en <= cs.len(),
                    run_end(cs@, a as int + 1, en as int) == run_end(cs@, i as int, en as int),
                decreases en - i,
            {
                i = i + 1;
            }
            proof {
                assert(run_end(cs@, i as int, en as int) == i);
                lemma_run_end(cs@, a as int + 1, en as int);
                assert(int_pairs(out@.push((a, i))) =~= int_pairs(out@) + seq![(a as int, i as int)]);
            }
            out.push((a, i));
        }
    }
    out
}

/// The alphabet line: per track either an explicit set `{0, .., D-1}` or
/// the name of a numeration system, whose digit count must then be given.
fn parse_alphabet(cs: &Vec<char>, st: usize, en: usize, expect: Option<usize>) -> (r: Result<(Vec<usize>, Vec<String>), String>)
    requires
        st <= en <= cs.len(),
    ensures
        r matches Ok((sizes, _)) ==> sizes@.len() >= 1,
{
    let mut sizes: Vec<usize> = Vec::new();
    let mut nms: Vec<String> = Vec::new();
    let mut i: usize = st;
    while i < en
        invariant
            st <= i <= en <= cs.len(),
        decreases en - i,
    {
        if char_ws(cs[i]) {
            i = i + 1;
        } else if cs[i] == '{' {
            let close = match find_char(cs, i, en, '}') {
                Some(c) => c,
                None => {
                    return Err(str_to_string("unterminated { in alphabet"));
                },
            };
            let mut vals: Vec<i64> = Vec::new();
            let mut p = i + 1;
            while p <= close
                invariant
                    i + 1 <= p <= close + 1,
                    close < en,
                    en <= cs.len(),
                decreases close + 1 - p,
            {
                let e = match find_char(cs, p, close, ',') {
                    Some(x) => x,
                    None => close,
                };
                let (ta, tb) = trim(cs, p, e);
                if ta < tb {
                    match parse_i64(cs, ta, tb) {
                        Some(v) => vals.push(v),
                        None => {
                            return Err(str_to_string("bad alphabet element"));
                        },
                    }
                }
                p = e + 1;
            }
            let m = vals.len();
            if m == 0 {
                return Err(str_to_string("empty alphabet"));
            }
            let mut seen: Vec<bool> = Vec::new();
            let mut j: usize = 0;
            while j < m
                invariant
                    j <= m,
                    seen@.len() == j,
                decreases m - j,
            {
                seen.push(false);
                j = j + 1;
            }
            let mut j: usize = 0;
            while j < m
                invariant
                    j <= m,
                    m == vals.len(),
                    seen@.len() == m,
                decreases m - j,
            {
                let v = vals[j];
                if v < 0 || v as u64 >= m as u64 || seen[v as usize] {
                    return Err(str_to_string("alphabet must be {0,..,D-1}"));
                }
                seen.set(v as usize, true);
                j = j + 1;
            }
            sizes.push(m);
            i = close + 1;
        } else {
            let a = i;
            while i < en && !char_ws(cs[i])
                invariant
                    a <= i <= en <= cs.len(),
                decreases en - i,
            {
                i = i + 1;
            }
            let d = match expect {
                Some(d) => d,
                None => {
                    return Err(str_to_string("alphabet token names a number system; give an explicit digit count"));
                },
            };
            nms.push(crate::strs::string_of(slice_of(cs, a, i).as_slice()));
            sizes.push(d);
        }
    }
    if sizes.len() == 0 {
        return Err(str_to_string("empty alphabet line"));
    }
    Ok((sizes, nms))
}

/// `cs[a..b)` as a vector.
pub(crate) fn slice_of(cs: &Vec<char>, a: usize, b: usize) -> (r: Vec<char>)
    requires
        a <= b <= cs.len(),
    ensures
        r@ == cs@.subrange(a as int, b as int),
{
    let mut r: Vec<char> = Vec::new();
    let mut i: usize = a;
    while i < b
        invariant
            a <= i <= b <= cs.len(),
            r@ == cs@.subrange(a as int, i as int),
        decreases b - i,
    {
        r.push(cs[i]);
        i = i + 1;
        proof {
            assert(r@ =~= cs@.subrange(a as int, i as int));
        }
    }
    r
}

/// Parse Walnut's automaton text format. `expect_digits` gives the digit
/// count when the alphabet line names a numeration system instead of an
/// explicit set.
pub fn parse_walnut(text: &str, expect_digits: Option<usize>) -> (r: Result<Parsed, String>)
    ensures
        r matches Ok(p) ==> p.wf(),
{
    let cs = str_chars(text);
    let ls = lines(&cs);
    // the lines with their comments cut off, skipping blank ones
    let mut body: Vec<(usize, usize)> = Vec::new();
    let mut li: usize = 0;
    while li < ls.len()
        invariant
            li <= ls.len(),
            forall|i: int| 0 <= i < ls@.len() ==> (#[trigger] ls@[i]).0 <= ls@[i].1 <= cs.len(),
            forall|i: int| 0 <= i < body@.len() ==> (#[trigger] body@[i]).0 <= body@[i].1 <= cs.len(),
        decreases ls.len() - li,
    {
        let (a, b) = ls[li];
        let e = match find_char(&cs, a, b, '#') {
            Some(x) => x,
            None => b,
        };
        if !crate::text::all_ws(&cs, a, e) {
            body.push((a, e));
        }
        li = li + 1;
    }
    if body.len() == 0 {
        return Err(str_to_string("empty automaton file"));
    }
    let (sizes, ns_tokens) = parse_alphabet(&cs, body[0].0, body[0].1, expect_digits)?;
    let digits = sizes[0];
    let mut i: usize = 0;
    while i < sizes.len()
        invariant
            i <= sizes.len(),
        decreases sizes.len() - i,
    {
        if sizes[i] != digits {
            return Err(str_to_string("all tracks must share one digit alphabet"));
        }
        i = i + 1;
    }
    if digits == 0 {
        return Err(str_to_string("empty digit alphabet"));
    }
    let ntracks = sizes.len();
    let alpha = match crate::ops::pow_capped(digits, ntracks) {
        Some(a) => a,
        None => {
            return Err(str_to_string("alphabet too large"));
        },
    };
    let mut outs: Vec<(usize, i64)> = Vec::new();
    let mut trans: Vec<(usize, usize, usize)> = Vec::new();
    let mut cur: Option<usize> = None;
    let mut start: Option<usize> = None;
    let mut maxstate: usize = 0;
    let mut bi: usize = 1;
    while bi < body.len()
        invariant
            1 <= bi <= body.len(),
            forall|i: int| 0 <= i < body@.len() ==> (#[trigger] body@[i]).0 <= body@[i].1 <= cs.len(),
            digits >= 1,
            ntracks >= 1,
            alpha == spow(digits as nat, ntracks as nat),
            alpha <= MAX_ALPHA,
            forall|j: int| 0 <= j < trans@.len() ==> (#[trigger] trans@[j]).0 <= maxstate && trans@[j].1 < alpha && trans@[j].2 <= maxstate,
            forall|j: int| 0 <= j < outs@.len() ==> (#[trigger] outs@[j]).0 <= maxstate,
            cur matches Some(c) ==> c <= maxstate,
            start matches Some(c) ==> c <= maxstate,
        decreases body.len() - bi,
    {
        let (a, b) = trim(&cs, body[bi].0, body[bi].1);
        bi = bi + 1;
        match find_pair(&cs, a, b, '-', '>') {
            Some(arrow) => {
                let q = match cur {
                    Some(q) => q,
                    None => {
                        return Err(str_to_string("transition before any state declaration"));
                    },
                };
                let dests = tokens(&cs, arrow + 2, b);
                if dests.len() != 1 {
                    let mut x: usize = 0;
                    while x < dests.len()
                        invariant
                            x <= dests.len(),
                            forall|i: int| 0 <= i < dests@.len() ==> arrow + 2 <= (#[trigger] dests@[i]).0 < dests@[i].1 <= b,
                            b <= cs.len(),
                        decreases dests.len() - x,
                    {
                        if parse_usize(&cs, dests[x].0, dests[x].1).is_none() {
                            return Err(str_to_string("bad destination"));
                        }
                        x = x + 1;
                    }
                    return Err(str_to_string("nondeterministic transition not supported"));
                }
                let t = match parse_usize(&cs, dests[0].0, dests[0].1) {
                    Some(t) => t,
                    None => {
                        return Err(str_to_string("bad destination"));
                    },
                };
                if t > maxstate {
                    maxstate = t;
                }
                let ins = tokens(&cs, a, arrow);
                if ins.len() != ntracks {
                    return Err(str_to_string("transition has the wrong number of inputs"));
                }
                // the letters the inputs cover, track by track
                let mut syms: Vec<usize> = Vec::new();
                syms.push(0);
                let mut mult: usize = 1;
                let mut c: usize = 0;
                proof {
                    assert(spow(digits as nat, 0) == 1);
                }
                while c < ntracks
                    invariant
                        c <= ntracks,
                        ins@.len() == ntracks,
                        forall|i: int| 0 <= i < ins@.len() ==> a <= (#[trigger] ins@[i]).0 < ins@[i].1 <= arrow,
                        arrow <= cs.len(),
                        digits >= 1,
                        alpha == spow(digits as nat, ntracks as nat),
                        alpha <= MAX_ALPHA,
                        mult == spow(digits as nat, c as nat),
                        forall|j: int| 0 <= j < syms@.len() ==> (#[trigger] syms@[j] as int) < mult,
                    decreases ntracks - c,
                {
                    let (ta, tb) = ins[c];
                    let star = tb == ta + 1 && cs[ta] == '*';
                    let mut lo: usize = 0;
                    let mut hi: usize = digits;
                    if !star {
                        let d = match parse_i64(&cs, ta, tb) {
                            Some(d) => d,
                            None => {
                                return Err(str_to_string("bad input digit"));
                            },
                        };
                        if d < 0 || d as u64 >= digits as u64 {
                            return Err(str_to_string("digit outside alphabet"));
                        }
                        lo = d as usize;
                        hi = d as usize + 1;
                    }
                    proof {
                        crate::dfa::lemma_spow_mono(digits as nat, (c + 1) as nat, ntracks as nat);
                        assert(spow(digits as nat, (c + 1) as nat) == digits * spow(digits as nat, c as nat));
                    }
                    let mut next: Vec<usize> = Vec::new();
                    let mut x: usize = 0;
                    while x < syms.len()
                        invariant
                            x <= syms.len(),
                            lo < hi <= digits,
                            mult == spow(digits as nat, c as nat),
                            digits * mult <= MAX_ALPHA,
                            forall|j: int| 0 <= j < syms@.len() ==> (#[trigger] syms@[j] as int) < mult,
                            forall|j: int| 0 <= j < next@.len() ==> (#[trigger] next@[j] as int) < digits * mult,
                        decreases syms.len() - x,
                    {
                        let mut dd: usize = lo;
                        while dd < hi
                            invariant
                                lo <= dd <= hi <= digits,
                                x < syms.len(),
                                (syms@[x as int] as int) < mult,
                                digits * mult <= MAX_ALPHA,
                                forall|j: int| 0 <= j < next@.len() ==> (#[trigger] next@[j] as int) < digits * mult,
                            decreases hi - dd,
                        {
                            proof {
                                assert(syms@[x as int] + dd * mult < digits * mult) by (nonlinear_arith)
                                    requires
                                        syms@[x as int] < mult,
                                        dd < digits,
                                ;
                            }
                            next.push(syms[x] + dd * mult);
                            dd = dd + 1;
                        }
                        x = x + 1;
                    }
                    syms = next;
                    mult = digits * mult;
                    c = c + 1;
                }
                let mut x: usize = 0;
                while x < syms.len()
                    invariant
                        x <= syms.len(),
                        q <= maxstate,
                        t <= maxstate,
                        forall|j: int| 0 <= j < syms@.len() ==> (#[trigger] syms@[j] as int) < alpha,
                        forall|j: int| 0 <= j < trans@.len() ==> (#[trigger] trans@[j]).0 <= maxstate && trans@[j].1 < alpha && trans@[j].2 <= maxstate,
                    decreases syms.len() - x,
                {
                    trans.push((q, syms[x], t));
                    x = x + 1;
                }
            },
            None => {
                let toks = tokens(&cs, a, b);
                if toks.len() != 2 {
                    return Err(str_to_string("bad state declaration"));
                }
                let q = match parse_usize(&cs, toks[0].0, toks[0].1) {
                    Some(q) => q,
                    None => {
                        return Err(str_to_string("bad state name"));
                    },
                };
                let o = match parse_i64(&cs, toks[1].0, toks[1].1) {
                    Some(o) => o,
                    None => {
                        return Err(str_to_string("bad output"));
                    },
                };
                if q > maxstate {
                    maxstate = q;
                }
                outs.push((q, o));
                if start.is_none() {
                    start = Some(q);
                }
                cur = Some(q);
            },
        }
    }
    if maxstate >= 4294967294 {
        return Err(str_to_string("too many states"));
    }
    let nstates = maxstate + 1;
    let size = match (nstates + 1).checked_mul(alpha) {
        Some(x) => x,
        None => {
            return Err(str_to_string("too many states"));
        },
    };
    let mut out: Vec<i64> = Vec::new();
    let mut q: usize = 0;
    while q < nstates
        invariant
            q <= nstates,
            out@.len() == q,
        decreases nstates - q,
    {
        out.push(0);
        q = q + 1;
    }
    let mut j: usize = 0;
    while j < outs.len()
        invariant
            j <= outs.len(),
            out@.len() == nstates,
            nstates == maxstate + 1,
            forall|x: int| 0 <= x < outs@.len() ==> (#[trigger] outs@[x]).0 <= maxstate,
        decreases outs.len() - j,
    {
        let (qq, o) = outs[j];
        out.set(qq, o);
        j = j + 1;
    }
    let st = match start {
        Some(x) => x,
        None => 0,
    };
    Ok(Parsed { ntracks, digits, nstates, out, trans, ns_tokens, start: st })
}

/// Most-significant-first lexicographic `x < y` over two tracks named
/// `\u{1}a`, `\u{1}b`: the first differing digit decides. On the valid
/// words of an ordered numeration system this is numeric comparison.
fn lex_less_than(digits: usize) -> (r: Dfa)
    requires
        2 <= digits,
        digits * digits * digits <= MAX_ALPHA,
    ensures
        r.wf(),
        r.k == digits,
        r.vars.len() == 2,
{
    proof {
        assert(digits * digits <= MAX_ALPHA) by (nonlinear_arith)
            requires
                digits >= 2,
                digits * digits * digits <= MAX_ALPHA,
        ;
        reveal_strlit("\u{1}a");
        reveal_strlit("\u{1}b");
        assert("\u{1}a"@[1] != "\u{1}b"@[1]);
    }
    crate::base::less_than_plain(digits, "\u{1}a", "\u{1}b", false)
}

/// The letter whose coordinate `c` carries `tracks[c][p]`, for the first `m` tracks.
pub open spec fn zip_letter(tracks: Seq<Vec<usize>>, p: int, k: nat, m: nat) -> nat
    decreases m,
{
    if m == 0 {
        0
    } else {
        zip_letter(tracks, p, k, (m - 1) as nat) + tracks[m - 1]@[p] as nat * spow(k, (m - 1) as nat)
    }
}

/// The word whose letters put the tracks side by side.
pub open spec fn zipped(tracks: Seq<Vec<usize>>, len: nat, k: nat) -> Seq<usize> {
    Seq::new(len, |p: int| zip_letter(tracks, p, k, tracks.len()) as usize)
}

/// Run `a` on the word putting equally long digit tracks side by side.
fn run_msd(a: &Dfa, w: &Vec<Vec<usize>>) -> (r: bool)
    requires
        a.wf(),
        w@.len() == a.vars.len(),
        w@.len() >= 1,
        forall|c: int| 0 <= c < w@.len() ==> (#[trigger] w@[c])@.len() == w@[0]@.len(),
        forall|c: int, p: int| 0 <= c < w@.len() && 0 <= p < w@[c]@.len() ==> (#[trigger] w@[c]@[p]) < a.k,
    ensures
        r == a.accepts(zipped(w@, w@[0]@.len() as nat, a.k as nat)),
{
    let len = w[0].len();
    let k = a.k;
    let ghost z = zipped(w@, len as nat, k as nat);
    let mut q: usize = 0;
    let mut p: usize = 0;
    while p < len
        invariant
            a.wf(),
            k == a.k,
            len == w@[0]@.len(),
            w@.len() == a.vars.len(),
            forall|c: int| 0 <= c < w@.len() ==> (#[trigger] w@[c])@.len() == len,
            forall|c: int, p2: int| 0 <= c < w@.len() && 0 <= p2 < w@[c]@.len() ==> (#[trigger] w@[c]@[p2]) < k,
            z == zipped(w@, len as nat, k as nat),
            p <= len,
            q < a.nstates,
            q == a.run_from(0, z.take(p as int)),
        decreases len - p,
    {
        let mut sym: usize = 0;
        let mut mult: usize = 1;
        let mut c: usize = 0;
        proof {
            assert(spow(k as nat, 0) == 1);
        }
        while c < w.len()
            invariant
                a.wf(),
                k == a.k,
                w@.len() == a.vars.len(),
                forall|c2: int| 0 <= c2 < w@.len() ==> (#[trigger] w@[c2])@.len() == len,
                forall|c2: int, p2: int| 0 <= c2 < w@.len() && 0 <= p2 < w@[c2]@.len() ==> (#[trigger] w@[c2]@[p2]) < k,
                p < len,
                c <= w.len(),
                mult == spow(k as nat, c as nat),
                sym == zip_letter(w@, p as int, k as nat, c as nat),
                sym < mult,
            decreases w.len() - c,
        {
            let d = w[c][p];
            proof {
                crate::dfa::lemma_spow_mono(k as nat, (c + 1) as nat, a.vars.len() as nat);
                assert(spow(k as nat, (c + 1) as nat) == k * spow(k as nat, c as nat));
                assert(sym + d * mult < k * mult) by (nonlinear_arith)
                    requires
                        sym < mult,
                        d < k,
                ;
            }
            sym = sym + d * mult;
            mult = mult * k;
            c = c + 1;
        }
        proof {
            assert(z[p as int] == sym);
            assert(z.take(p + 1).drop_last() =~= z.take(p as int));
            assert(z.take(p + 1).last() == z[p as int]);
        }
        q = a.t(q, sym);
        p = p + 1;
    }
    proof {
        assert(z.take(len as int) =~= z);
    }
    a.accept[q]
}

/// Canonical words of `vals`, each padded with leading zeros to the longest.
fn padded(ns: &NumSys, vals: &Vec<u64>) -> (r: Vec<Vec<usize>>)
    requires
        ns.wf(),
        vals@.len() >= 1,
    ensures
        r@.len() == vals@.len(),
        forall|c: int| 0 <= c < r@.len() ==> (#[trigger] r@[c])@.len() == r@[0]@.len(),
        forall|c: int, p: int| 0 <= c < r@.len() && 0 <= p < r@[c]@.len() ==> (#[trigger] r@[c]@[p]) < ns.digits,
{
    let mut reps: Vec<Vec<usize>> = Vec::new();
    let mut len: usize = 0;
    let mut i: usize = 0;
    while i < vals.len()
        invariant
            ns.wf(),
            i <= vals.len(),
            reps@.len() == i,
            len <= crate::numsys::MAXLEN + 1,
            forall|c: int| 0 <= c < i ==> (#[trigger] reps@[c])@.len() <= len && word_over(reps@[c]@, ns.digits as nat),
        decreases vals.len() - i,
    {
        let r = ns.rep(vals[i]);
        if r.len() > len {
            len = r.len();
        }
        reps.push(r);
        i = i + 1;
    }
    let mut out: Vec<Vec<usize>> = Vec::new();
    let mut c: usize = 0;
    while c < reps.len()
        invariant
            c <= reps.len(),
            out@.len() == c,
            forall|x: int| 0 <= x < reps@.len() ==> (#[trigger] reps@[x])@.len() <= len && word_over(reps@[x]@, ns.digits as nat),
            forall|x: int| 0 <= x < c ==> (#[trigger] out@[x])@.len() == len,
            forall|x: int, p: int| 0 <= x < c && 0 <= p < out@[x]@.len() ==> (#[trigger] out@[x]@[p]) < ns.digits,
            ns.digits >= 2,
        decreases reps.len() - c,
    {
        let r = &reps[c];
        let mut v: Vec<usize> = Vec::new();
        let z = len - r.len();
        let mut p: usize = 0;
        while p < len
            invariant
                p <= len,
                z == len - r@.len(),
                r@.len() <= len,
                word_over(r@, ns.digits as nat),
                ns.digits >= 2,
                v@.len() == p,
                forall|x: int| 0 <= x < p ==> (#[trigger] v@[x]) < ns.digits,
            decreases len - p,
        {
            if p < z {
                v.push(0);
            } else {
                v.push(r[p - z]);
            }
            p = p + 1;
        }
        out.push(v);
        c = c + 1;
    }
    out
}

/// `n` is the value of a word that `rep` could give for it.
pub open spec fn rank_agrees(ns: NumSys, n: u64) -> bool {
    exists|w: Seq<usize>| crate::codec::rep_like(ns, w, n) && ns.value_of(w) == Some(n)
}

impl NumSys {
    /// Refuse a numeration system whose automata disagree with each other on
    /// small numbers: every `n <= 200` must be the value of its canonical
    /// word, the adder must accept `x + y = x + y` and reject `x + y = x + y
    /// + 1`, and the comparison must agree with `<`, for `x, y <= 20`.
    pub fn self_check(&self) -> (r: Result<(), String>)
        requires
            self.wf(),
        ensures
            r is Ok ==> forall|n: u64| n <= 200 ==> #[trigger] rank_agrees(*self, n),
    {
        let mut n: u64 = 0;
        while n <= 200
            invariant
                self.wf(),
                n <= 201,
                forall|m: u64| m < n ==> #[trigger] rank_agrees(*self, m),
            decreases 201 - n,
        {
            let r = self.rep(n);
            match self.value(r.as_slice()) {
                Some(v) => {
                    if v != n {
                        return Err(str_to_string("the validity automaton and the rank ordering disagree"));
                    }
                },
                None => {
                    return Err(str_to_string("the validity automaton and the rank ordering disagree"));
                },
            }
            proof {
                assert(crate::codec::rep_like(*self, r@, n));
                assert forall|m: u64| m < n + 1 implies #[trigger] rank_agrees(*self, m) by {
                    if m == n {
                        assert(crate::codec::rep_like(*self, r@, m) && self.value_of(r@) == Some(m));
                    }
                }
            }
            n = n + 1;
        }
        let mut x: u64 = 0;
        while x <= 20
            invariant
                self.wf(),
                x <= 21,
            decreases 21 - x,
        {
            let mut y: u64 = 0;
            while y <= 20
                invariant
                    self.wf(),
                    x <= 20,
                    y <= 21,
                decreases 21 - y,
            {
                let p = padded(self, &vec![x, y, x + y]);
                if !run_msd(&self.add_msd, &p) {
                    return Err(str_to_string("addition automaton rejects a true sum"));
                }
                let q = padded(self, &vec![x, y, x + y + 1]);
                if run_msd(&self.add_msd, &q) {
                    return Err(str_to_string("addition automaton accepts a false sum"));
                }
                let c = padded(self, &vec![x, y]);
                if run_msd(&self.lt_msd, &c) != (x < y) {
                    return Err(str_to_string("comparison automaton disagrees with <"));
                }
                y = y + 1;
            }
            x = x + 1;
        }
        Ok(())
    }
}

/// Build a numeration system from its parsed validity, addition and
/// (optional) comparison automata: the empty word is made valid (it is the
/// representation of 0), the value tables are counted, the digit-reversed
/// forms derived, and the result must pass `self_check`.
pub fn build(name: &str, valid: &Parsed, add: &Parsed, lt: Option<&Parsed>) -> (r: Result<NumSys, String>)
    requires
        valid.wf(),
        add.wf(),
        lt matches Some(p) ==> p.wf(),
    ensures
        r matches Ok(ns) ==> ns.wf() && ns.digits == valid.digits && ns.name@ == name@,
        valid.ntracks != 1 || add.ntracks != 3 || add.digits != valid.digits || valid.digits < 2 ==> r is Err,
{
    if valid.ntracks != 1 {
        return Err(str_to_string("validity automaton must have 1 track"));
    }
    if add.ntracks != 3 {
        return Err(str_to_string("addition automaton must have 3 tracks"));
    }
    let digits = valid.digits;
    if add.digits != digits {
        return Err(str_to_string("addition and validity disagree on the digit alphabet"));
    }
    if digits < 2 {
        return Err(str_to_string("a numeration system needs at least the digits {0,1}"));
    }
    proof {
        assert(spow(digits as nat, 0) == 1);
        assert(spow(digits as nat, 1) == digits * spow(digits as nat, 0));
        assert(spow(digits as nat, 2) == digits * spow(digits as nat, 1));
        assert(spow(digits as nat, 3) == digits * spow(digits as nat, 2));
        assert(digits * (digits * (digits * 1)) == digits * digits * digits) by (nonlinear_arith);
    }
    let va: Vec<String> = vec![str_to_string("\u{1}a")];
    let vabc: Vec<String> = vec![str_to_string("\u{1}a"), str_to_string("\u{1}b"), str_to_string("\u{1}c")];
    let vab: Vec<String> = vec![str_to_string("\u{1}a"), str_to_string("\u{1}b")];
    let valid0 = valid.to_dfa(&va)?;
    let add_msd = add.to_dfa(&vabc)?;
    let lt_msd = match lt {
        Some(p) => {
            if p.ntracks != 2 {
                return Err(str_to_string("comparison automaton must have 2 tracks"));
            }
            if p.digits != digits {
                return Err(str_to_string("comparison and validity disagree on the digit alphabet"));
            }
            p.to_dfa(&vab)?
        },
        None => lex_less_than(digits),
    };
    let valid_msd = if valid0.accept[0] {
        valid0
    } else {
        let mut acc = valid0.accept.clone();
        acc.set(0, true);
        let d = Dfa {
            k: valid0.k,
            vars: crate::strs::copy_names(&valid0.vars),
            alpha: valid0.alpha,
            nstates: valid0.nstates,
            trans: valid0.trans.clone(),
            accept: acc,
        };
        proof {
            assert(d.trans@ =~= valid0.trans@);
        }
        d.minimize()
    };
    let vn = valid_msd.nstates;
    let vt: Vec<State> = valid_msd.trans.clone();
    let vacc: Vec<bool> = valid_msd.accept.clone();
    proof {
        assert(vt@ =~= valid_msd.trans@);
        assert(vacc@ =~= valid_msd.accept@);
        assert(valid_msd.alpha == digits);
        assert(vn * digits >= 1) by (nonlinear_arith)
            requires
                vn >= 1,
                digits >= 1,
        ;
    }
    let vtl: usize = vt.len();
    if vt[0] != 0 {
        return Err(str_to_string("validity automaton must allow leading zeros"));
    }
    let row: usize = crate::numsys::MAXLEN + 1;
    let size = match vn.checked_mul(row) {
        Some(x) => x,
        None => {
            return Err(str_to_string("validity automaton too large"));
        },
    };
    let cap = crate::numsys::CNT_CAP;
    let mut cnt: Vec<u64> = Vec::new();
    let mut i: usize = 0;
    while i < size
        invariant
            i <= size,
            size == vn * row,
            row == crate::numsys::MAXLEN + 1,
            vacc@.len() == vn,
            cnt@.len() == i,
            cap == crate::numsys::CNT_CAP,
            forall|x: int| 0 <= x < i ==> #[trigger] cnt@[x] <= cap,
            forall|q: nat| q < vn && q * row < i ==> #[trigger] cnt@[(q * row) as int] == if vacc@[q as int] { 1u64 } else { 0u64 },
        decreases size - i,
    {
        let q = i / row;
        let l = i % row;
        proof {
            vstd::arithmetic::div_mod::lemma_fundamental_div_mod(i as int, row as int);
            assert(q < vn) by (nonlinear_arith)
                requires
                    i < vn * row,
                    q == i / row,
                    row > 0,
            ;
        }
        if l == 0 {
            cnt.push(if vacc[q] { 1 } else { 0 });
        } else {
            cnt.push(0);
        }
        proof {
            assert forall|q2: nat| q2 < vn && q2 * row < i + 1 implies #[trigger] cnt@[(q2 * row) as int] == if vacc@[q2 as int] { 1u64 } else { 0u64 } by {
                if q2 * row == i {
                    vstd::arithmetic::div_mod::lemma_fundamental_div_mod_converse(i as int, row as int, q2 as int, 0);
                }
            }
        }
        i = i + 1;
    }
    let mut l: usize = 1;
    while l <= crate::numsys::MAXLEN
        invariant
            1 <= l <= crate::numsys::MAXLEN + 1,
            size == vn * row,
            row == crate::numsys::MAXLEN + 1,
            vacc@.len() == vn,
            vt@.len() == vn * digits,
            vtl == vt@.len(),
            forall|x: int| 0 <= x < vt@.len() ==> (#[trigger] vt@[x] as int) < vn,
            cnt@.len() == size,
            forall|x: int| 0 <= x < size ==> #[trigger] cnt@[x] <= cap,
            forall|q: nat| q < vn ==> #[trigger] cnt@[(q * row) as int] == if vacc@[q as int] { 1u64 } else { 0u64 },
        decreases crate::numsys::MAXLEN + 1 - l,
    {
        let mut q: usize = 0;
        while q < vn
            invariant
                1 <= l <= crate::numsys::MAXLEN,
                q <= vn,
                size == vn * row,
                row == crate::numsys::MAXLEN + 1,
                vacc@.len() == vn,
                vt@.len() == vn * digits,
                vtl == vt@.len(),
                forall|x: int| 0 <= x < vt@.len() ==> (#[trigger] vt@[x] as int) < vn,
                cnt@.len() == size,
                forall|x: int| 0 <= x < size ==> #[trigger] cnt@[x] <= cap,
                forall|q2: nat| q2 < vn ==> #[trigger] cnt@[(q2 * row) as int] == if vacc@[q2 as int] { 1u64 } else { 0u64 },
            decreases vn - q,
        {
            let mut s: u64 = 0;
            let mut d: usize = 0;
            while d < digits
                invariant
                    d <= digits,
                    q < vn,
                    1 <= l <= crate::numsys::MAXLEN,
                    size == vn * row,
                    row == crate::numsys::MAXLEN + 1,
                    vt@.len() == vn * digits,
                    vtl == vt@.len(),
                    forall|x: int| 0 <= x < vt@.len() ==> (#[trigger] vt@[x] as int) < vn,
                    cnt@.len() == size,
                decreases digits - d,
            {
                proof {
                    lemma_index(q as nat, d as nat, vn as nat, digits as nat);
                }
                let t = vt[q * digits + d] as usize;
                proof {
                    lemma_index(t as nat, (l - 1) as nat, vn as nat, row as nat);
                }
                let c = cnt[t * row + l - 1];
                s = if s > u64::MAX - c { u64::MAX } else { s + c };
                d = d + 1;
            }
            proof {
                lemma_index(q as nat, l as nat, vn as nat, row as nat);
            }
            let v = if s > cap { cap } else { s };
            let ghost pre = cnt@;
            cnt.set(q * row + l, v);
            proof {
                assert forall|q2: nat| q2 < vn implies #[trigger] cnt@[(q2 * row) as int] == if vacc@[q2 as int] { 1u64 } else { 0u64 } by {
                    if q2 * row == q * row + l {
                        crate::product::lemma_pair_unique(q2, 0, q as nat, l as nat, row as nat);
                    }
                    lemma_index(q2, 0, vn as nat, row as nat);
                    assert(cnt@[(q2 * row) as int] == pre[(q2 * row) as int]);
                }
            }
            q = q + 1;
        }
        l = l + 1;
    }
    let valid_lsd = match valid_msd.reverse_dfa() {
        Some(d) => d,
        None => {
            return Err(str_to_string("validity automaton too large to reverse"));
        },
    };
    let add_lsd = match add_msd.reverse_dfa() {
        Some(d) => d,
        None => {
            return Err(str_to_string("addition automaton too large to reverse"));
        },
    };
    let lt_lsd = match lt_msd.reverse_dfa() {
        Some(d) => d,
        None => {
            return Err(str_to_string("comparison automaton too large to reverse"));
        },
    };
    let ns = NumSys {
        name: str_to_string(name),
        digits,
        valid_msd,
        add_msd,
        lt_msd,
        valid_lsd,
        add_lsd,
        lt_lsd,
        vn,
        vt,
        vacc,
        cnt,
        lt_loaded: lt.is_some(),
    };
    ns.self_check()?;
    Ok(ns)
}
} // verus!
