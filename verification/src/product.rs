//! Lifting automata to larger variable lists, and Boolean products.
use vstd::prelude::*;
use std::collections::HashMap;
use crate::dfa::{
    Dfa, State, BoolOp, MAX_ALPHA, spow, sdigit, word_over, distinct, table_ok, tstep, trun,
    lemma_index, lemma_tstep, lemma_trun, lemma_trun_concat, lemma_word_over_sub, lemma_spow_pos, lemma_spow_mono,
    pow, digit,
};
use crate::strs::{names, first_index, lemma_first_index, strictly_sorted};

verus! {

broadcast use vstd::std_specs::hash::group_hash_axioms;

/// Position of each of `old` inside `new`.
pub open spec fn positions(old: Seq<Seq<char>>, new: Seq<Seq<char>>) -> Seq<nat> {
    old.map_values(|v: Seq<char>| first_index(new, v))
}

/// The letter over the coordinates `pos` that a letter `s` of the larger alphabet projects to.
pub open spec fn sym_proj(s: nat, pos: Seq<nat>, k: nat) -> nat
    decreases pos.len(),
{
    if pos.len() == 0 {
        0
    } else {
        sym_proj(s, pos.drop_last(), k) + sdigit(s, pos.last(), k) * spow(k, (pos.len() - 1) as nat)
    }
}

/// A word projected letter by letter.
pub open spec fn proj_word(w: Seq<usize>, pos: Seq<nat>, k: nat) -> Seq<usize> {
    w.map_values(|s: usize| sym_proj(s as nat, pos, k) as usize)
}

/// The word `w` over the variables `new`, read back over the variables `old`.
pub open spec fn lift_word(w: Seq<usize>, old: Seq<String>, new: Seq<String>, k: nat) -> Seq<usize> {
    proj_word(w, positions(names(old), names(new)), k)
}

/// The first `n` entries of `p` are `pos`, each below `m`.
pub open spec fn pos_ok(p: Seq<usize>, pos: Seq<nat>, n: nat, m: nat) -> bool {
    &&& n <= p.len()
    &&& n <= pos.len()
    &&& forall|i: int| 0 <= i < n ==> (#[trigger] p[i] as nat) == pos[i] && (p[i] as nat) < m
}

/// `a`, followed by the names of `b` not yet listed, in order.
pub open spec fn merged(a: Seq<Seq<char>>, b: Seq<Seq<char>>) -> Seq<Seq<char>>
    decreases b.len(),
{
    if b.len() == 0 {
        a
    } else {
        let m = merged(a, b.drop_last());
        if m.contains(b.last()) {
            m
        } else {
            m.push(b.last())
        }
    }
}

pub proof fn lemma_sdigit_lt(s: nat, i: nat, k: nat)
    requires
        k >= 1,
    ensures
        sdigit(s, i, k) < k,
{
    lemma_spow_pos(k, i);
}

pub proof fn lemma_sym_proj_bound(s: nat, pos: Seq<nat>, k: nat)
    requires
        k >= 1,
    ensures
        sym_proj(s, pos, k) < spow(k, pos.len()),
    decreases pos.len(),
{
    if pos.len() > 0 {
        let m = (pos.len() - 1) as nat;
        lemma_sym_proj_bound(s, pos.drop_last(), k);
        lemma_sdigit_lt(s, pos.last(), k);
        let x = sym_proj(s, pos.drop_last(), k);
        let d = sdigit(s, pos.last(), k);
        let p = spow(k, m);
        assert(x + d * p < k * p) by (nonlinear_arith)
            requires
                x < p,
                d < k,
                d >= 0,
        ;
    }
}

pub proof fn lemma_proj_word(w: Seq<usize>, pos: Seq<nat>, k: nat)
    requires
        k >= 1,
        spow(k, pos.len()) <= MAX_ALPHA,
    ensures
        word_over(proj_word(w, pos, k), spow(k, pos.len())),
        w.len() > 0 ==> proj_word(w, pos, k).drop_last() == proj_word(w.drop_last(), pos, k),
        w.len() > 0 ==> proj_word(w, pos, k).last() == sym_proj(w.last() as nat, pos, k) as usize,
        proj_word(w, pos, k).len() == w.len(),
{
    assert forall|i: int| 0 <= i < proj_word(w, pos, k).len() implies (#[trigger] proj_word(w, pos, k)[i]
        as nat) < spow(k, pos.len()) by {
        lemma_sym_proj_bound(w[i] as nat, pos, k);
    }
    if w.len() > 0 {
        assert(proj_word(w, pos, k).drop_last() =~= proj_word(w.drop_last(), pos, k));
    }
}

impl Dfa {
    /// Lift to a larger (superset) ordered variable list.
    pub fn extend_vars(&self, newvars: &Vec<String>) -> (r: Dfa)
        requires
            self.wf(),
            forall|i: int| 0 <= i < self.vars.len() ==> names(newvars@).contains(#[trigger] names(self.vars@)[i]),
            distinct(names(newvars@)),
            spow(self.k as nat, newvars.len() as nat) <= MAX_ALPHA,
            self.nstates * spow(self.k as nat, newvars.len() as nat) <= usize::MAX,
        ensures
            r.wf(),
            r.k == self.k,
            r.vars@ == newvars@,
            r.nstates == self.nstates,
            r.accept@ == self.accept@,
            forall|q: nat, x: nat| q < r.nstates && x < r.alpha ==> #[trigger] r.step(q, x)
                == self.step(q, sym_proj(x, positions(names(self.vars@), names(newvars@)), self.k as nat)),
            forall|w: Seq<usize>| word_over(w, r.alpha as nat) ==> word_over(lift_word(w, self.vars@, newvars@, self.k as nat), self.alpha as nat),
            forall|w: Seq<usize>| word_over(w, r.alpha as nat) ==> #[trigger] r.accepts(w) == self.accepts(
                lift_word(w, self.vars@, newvars@, self.k as nat),
            ),
    {
        let k = self.k;
        let nv = self.vars.len();
        let nalpha = pow(k, newvars.len());
        let ghost pos = positions(names(self.vars@), names(newvars@));
        // position of each of self.vars inside newvars
        let mut p: Vec<usize> = Vec::new();
        let mut j: usize = 0;
        while j < nv
            invariant
                self.wf(),
                nv == self.vars.len(),
                j <= nv,
                p.len() == j,
                pos == positions(names(self.vars@), names(newvars@)),
                forall|i: int| 0 <= i < self.vars.len() ==> names(newvars@).contains(#[trigger] names(self.vars@)[i]),
                pos_ok(p@, pos, j as nat, newvars.len() as nat),
            decreases nv - j,
        {
            let q = crate::strs::position(newvars, self.vars[j].as_str());
            proof {
                assert(names(newvars@).contains(names(self.vars@)[j as int]));
                lemma_first_index(names(newvars@), names(self.vars@)[j as int]);
            }
            let q = q.unwrap();
            p.push(q);
            j = j + 1;
        }
        proof {
            lemma_spow_pos(k as nat, newvars.len() as nat);
            lemma_spow_pos(k as nat, nv as nat);
        }
        let mut map: Vec<usize> = Vec::new();
        let mut s: usize = 0;
        while s < nalpha
            invariant
                self.wf(),
                k == self.k,
                nv == self.vars.len(),
                nalpha == spow(k as nat, newvars.len() as nat),
                nalpha <= MAX_ALPHA,
                s <= nalpha,
                p.len() == nv,
                pos.len() == nv,
                pos_ok(p@, pos, nv as nat, newvars.len() as nat),
                map.len() == s,
                forall|x: int| 0 <= x < s ==> map@[x] as nat == sym_proj(x as nat, pos, k as nat),
            decreases nalpha - s,
        {
            let mut old: usize = 0;
            let mut mult: usize = 1;
            let mut j: usize = 0;
                assert(pos.take(0) =~= Seq::<nat>::empty());
            while j < nv
                invariant
                    self.wf(),
                    k == self.k,
                    nv == self.vars.len(),
                    nalpha == spow(k as nat, newvars.len() as nat),
                    nalpha <= MAX_ALPHA,
                    j <= nv,
                    p.len() == nv,
                    pos.len() == nv,
                    pos_ok(p@, pos, nv as nat, newvars.len() as nat),
                    mult == spow(k as nat, j as nat),
                    old == sym_proj(s as nat, pos.take(j as int), k as nat),
                decreases nv - j,
            {
                proof {
                    lemma_spow_mono(k as nat, p@[j as int] as nat, newvars.len() as nat);
                    lemma_spow_mono(k as nat, (j + 1) as nat, nv as nat);
                    lemma_sym_proj_bound(s as nat, pos.take(j as int), k as nat);
                    assert(pos.take(j + 1).drop_last() =~= pos.take(j as int));
                }
                let dg = digit(s, p[j], k);
                assert(old + dg * mult < k * mult) by (nonlinear_arith)
                    requires
                        dg < k,
                        old < mult,
                        mult >= 1,
                ;
                assert(spow(k as nat, (j + 1) as nat) == k * mult);
                assert(mult * k == k * mult) by (nonlinear_arith);
                assert(pos.take(j + 1).last() == pos[j as int]);
                old = old + dg * mult;
                mult = mult * k;
                j = j + 1;
            }
            proof {
                assert(pos.take(nv as int) =~= pos);
            }
            map.push(old);
            s = s + 1;
        }
        let n = self.nstates;
        let alpha = self.alpha;
        let mut trans: Vec<State> = Vec::new();
        let mut st: usize = 0;
        while st < n
            invariant
                self.wf(),
                n == self.nstates,
                alpha == self.alpha,
                k == self.k,
                nv == self.vars.len(),
                nalpha == spow(k as nat, newvars.len() as nat),
                n * nalpha <= usize::MAX,
                pos.len() == nv,
                map.len() == nalpha,
                forall|x: int| 0 <= x < nalpha ==> map@[x] as nat == sym_proj(x as nat, pos, k as nat),
                st <= n,
                trans.len() == st * nalpha,
                forall|i: int| 0 <= i < trans.len() ==> (#[trigger] trans@[i] as nat) < n,
                forall|q: nat, x: nat| q < st && x < nalpha ==> #[trigger] tstep(trans@, nalpha as nat, q, x)
                    == self.step(q, sym_proj(x, pos, k as nat)),
            decreases n - st,
        {
            let mut x: usize = 0;
            while x < nalpha
                invariant
                    self.wf(),
                    n == self.nstates,
                    alpha == self.alpha,
                    k == self.k,
                    nv == self.vars.len(),
                    nalpha == spow(k as nat, newvars.len() as nat),
                    n * nalpha <= usize::MAX,
                    pos.len() == nv,
                    map.len() == nalpha,
                    forall|y: int| 0 <= y < nalpha ==> map@[y] as nat == sym_proj(y as nat, pos, k as nat),
                    st < n,
                    x <= nalpha,
                    trans.len() == st * nalpha + x,
                    forall|i: int| 0 <= i < trans.len() ==> (#[trigger] trans@[i] as nat) < n,
                    forall|q: nat, y: nat| q < st && y < nalpha ==> #[trigger] tstep(trans@, nalpha as nat, q, y)
                        == self.step(q, sym_proj(y, pos, k as nat)),
                    forall|y: nat| y < x ==> #[trigger] tstep(trans@, nalpha as nat, st as nat, y)
                        == self.step(st as nat, sym_proj(y, pos, k as nat)),
                decreases nalpha - x,
            {
                proof {
                    lemma_sym_proj_bound(x as nat, pos, k as nat);
                    lemma_index(st as nat, x as nat, n as nat, nalpha as nat);
                    lemma_index(st as nat, map@[x as int] as nat, n as nat, alpha as nat);
                    self.lemma_steps();
                }
                let ghost before = trans@;
                assert(st * alpha + map[x as int] < self.trans.len());
                let tgt = self.trans[st * alpha + map[x]];
                trans.push(tgt);
                proof {
                    assert forall|q: nat, y: nat| q < st && y < nalpha implies #[trigger] tstep(trans@, nalpha as nat, q, y)
                        == self.step(q, sym_proj(y, pos, k as nat)) by {
                        lemma_index(q, y, st as nat, nalpha as nat);
                        assert(trans@[(q * nalpha + y) as int] == before[(q * nalpha + y) as int]);
                        assert(tstep(before, nalpha as nat, q, y) == self.step(q, sym_proj(y, pos, k as nat)));
                    }
                    assert forall|y: nat| y < x + 1 implies #[trigger] tstep(trans@, nalpha as nat, st as nat, y)
                        == self.step(st as nat, sym_proj(y, pos, k as nat)) by {
                        if y < x {
                            lemma_index(st as nat, y, n as nat, nalpha as nat);
                            assert(trans@[(st * nalpha + y) as int] == before[(st * nalpha + y) as int]);
                            assert(tstep(before, nalpha as nat, st as nat, y) == self.step(st as nat, sym_proj(y, pos, k as nat)));
                        }
                    }
                    assert((st * nalpha + x) as int == before.len());
                }
                x = x + 1;
            }
            proof {
                assert((st + 1) * nalpha == st * nalpha + nalpha) by (nonlinear_arith);
            }
            st = st + 1;
        }
        let r = Dfa {
            k,
            vars: crate::strs::copy_names(newvars),
            alpha: nalpha,
            nstates: n,
            trans,
            accept: self.accept.clone(),
        };
        proof {
            assert(r.accept@ =~= self.accept@);
            assert forall|w: Seq<usize>| word_over(w, r.alpha as nat) implies word_over(
                lift_word(w, self.vars@, newvars@, self.k as nat),
                self.alpha as nat,
            ) by {
                lemma_proj_word(w, pos, k as nat);
            }
            assert forall|w: Seq<usize>| word_over(w, r.alpha as nat) implies #[trigger] r.accepts(w)
                == self.accepts(lift_word(w, self.vars@, newvars@, self.k as nat)) by {
                self.lemma_extend_run(&r, pos, w);
            }
        }
        r
    }

    /// Runs of a lifted automaton follow the runs of the unlifted automaton on projected words.
    pub proof fn lemma_extend_run(&self, r: &Dfa, pos: Seq<nat>, w: Seq<usize>)
        requires
            self.wf(),
            r.wf(),
            r.nstates == self.nstates,
            r.k == self.k,
            pos.len() == self.vars.len(),
            forall|q: nat, y: nat| q < r.nstates && y < r.alpha ==> #[trigger] tstep(r.trans@, r.alpha as nat, q, y)
                == self.step(q, sym_proj(y, pos, r.k as nat)),
            word_over(w, r.alpha as nat),
        ensures
            r.run_from(0, w) == self.run_from(0, proj_word(w, pos, r.k as nat)),
            r.run_from(0, w) < r.nstates,
        decreases w.len(),
    {
        lemma_proj_word(w, pos, r.k as nat);
        if w.len() > 0 {
            lemma_word_over_sub(w, r.alpha as nat);
            self.lemma_extend_run(r, pos, w.drop_last());
            lemma_trun(r.trans@, r.nstates as nat, r.alpha as nat, 0, w);
            let q = r.run_from(0, w.drop_last());
            assert(r.run_from(0, w) == tstep(r.trans@, r.alpha as nat, q, w.last() as nat));
            assert(tstep(r.trans@, r.alpha as nat, q, w.last() as nat) == self.step(q, sym_proj(w.last() as nat, pos, r.k as nat)));
            let pw = proj_word(w, pos, r.k as nat);
            lemma_sym_proj_bound(w.last() as nat, pos, r.k as nat);
            assert(pw.last() as nat == sym_proj(w.last() as nat, pos, r.k as nat));
            assert(pw.drop_last() == proj_word(w.drop_last(), pos, r.k as nat));
            assert(self.run_from(0, pw) == self.step(self.run_from(0, pw.drop_last()), pw.last() as nat));
        }
    }
}

pub proof fn lemma_pair_unique(a: nat, b: nat, c: nat, d: nat, n: nat)
    requires
        a * n + b == c * n + d,
        b < n,
        d < n,
    ensures
        a == c,
        b == d,
{
    assert(a == c) by (nonlinear_arith)
        requires
            a * n + b == c * n + d,
            b < n,
            d < n,
            b >= 0,
            d >= 0,
    ;
}

impl Dfa {
    /// Reachable part of the product of two automata over the same alphabet,
    /// with acceptance combined by `op`.
    pub fn product_raw(&self, other: &Dfa, op: BoolOp) -> (r: Dfa)
        requires
            self.wf(),
            other.wf(),
            self.same_sig(other),
            self.nstates * other.nstates <= u32::MAX,
        ensures
            r.wf(),
            r.same_sig(self),
            r.nstates <= self.nstates * other.nstates,
            forall|w: Seq<usize>| word_over(w, self.alpha as nat) ==> #[trigger] r.accepts(w)
                == op.eval(self.accepts(w), other.accepts(w)),
    {
        let alpha = self.alpha;
        let an = self.nstates;
        let bn = other.nstates;
        let mut order: Vec<(u32, u32)> = Vec::new();
        let mut trans: Vec<State> = Vec::new();
        let mut index: HashMap<u64, u32> = HashMap::new();
        index.insert(0, 0);
        order.push((0, 0));
        let ghost range = vstd::set_lib::set_int_range(0, (an * bn) as int);
        let ghost mut keys: Set<int> = Set::empty().insert(0int);
        proof {
            vstd::set_lib::lemma_int_range(0, (an * bn) as int);
            lemma_index(0, 0, an as nat, bn as nat);
            assert(index@.dom() =~= Set::empty().insert(0u64));
        }
        let mut i: usize = 0;
        while i < order.len()
            invariant
                self.wf(),
                other.wf(),
                self.same_sig(other),
                alpha == self.alpha,
                an == self.nstates,
                bn == other.nstates,
                an * bn <= u32::MAX,
                range == vstd::set_lib::set_int_range(0, (an * bn) as int),
                range.finite(),
                range.len() == an * bn,
                1 <= order.len(),
                order@[0] == (0u32, 0u32),
                i <= order.len(),
                keys.finite(),
                keys.subset_of(range),
                keys.len() == order.len(),
                forall|key: u64| #[trigger] index@.contains_key(key) <==> keys.contains(key as int),
                forall|id: int| 0 <= id < order.len() ==> (#[trigger] order@[id]).0 < an && order@[id].1 < bn
                    && index@.contains_key((order@[id].0 as nat * bn + order@[id].1 as nat) as u64)
                    && index@[(order@[id].0 as nat * bn + order@[id].1 as nat) as u64] == id,
                forall|key: u64| #[trigger] index@.contains_key(key) ==> (index@[key] as int) < order.len()
                    && (order@[index@[key] as int].0 as nat * bn + order@[index@[key] as int].1 as nat) == key,
                trans.len() == i * alpha,
                forall|x: int| 0 <= x < trans.len() ==> (#[trigger] trans@[x] as int) < order.len(),
                forall|id: nat, c: nat| id < i && c < alpha ==> {
                    let t = #[trigger] tstep(trans@, alpha as nat, id, c);
                    &&& t < order.len()
                    &&& order@[t as int].0 as nat == self.step(order@[id as int].0 as nat, c)
                    &&& order@[t as int].1 as nat == other.step(order@[id as int].1 as nat, c)
                },
            decreases an * bn - i,
        {
            proof {
                vstd::set_lib::lemma_len_subset(keys, range);
            }
            let (p, q) = order[i];
            let mut c: usize = 0;
            while c < alpha
                invariant
                    self.wf(),
                    other.wf(),
                    self.same_sig(other),
                    alpha == self.alpha,
                    an == self.nstates,
                    bn == other.nstates,
                    an * bn <= u32::MAX,
                    range == vstd::set_lib::set_int_range(0, (an * bn) as int),
                    range.finite(),
                    range.len() == an * bn,
                    1 <= order.len(),
                    order@[0] == (0u32, 0u32),
                    i < order.len(),
                    order@[i as int] == (p, q),
                    c <= alpha,
                    keys.finite(),
                    keys.subset_of(range),
                    keys.len() == order.len(),
                    forall|key: u64| #[trigger] index@.contains_key(key) <==> keys.contains(key as int),
                    forall|id: int| 0 <= id < order.len() ==> (#[trigger] order@[id]).0 < an && order@[id].1 < bn
                        && index@.contains_key((order@[id].0 as nat * bn + order@[id].1 as nat) as u64)
                        && index@[(order@[id].0 as nat * bn + order@[id].1 as nat) as u64] == id,
                    forall|key: u64| #[trigger] index@.contains_key(key) ==> (index@[key] as int) < order.len()
                        && (order@[index@[key] as int].0 as nat * bn + order@[index@[key] as int].1 as nat) == key,
                    trans.len() == i * alpha + c,
                    forall|x: int| 0 <= x < trans.len() ==> (#[trigger] trans@[x] as int) < order.len(),
                    forall|id: nat, d: nat| id <= i && d < alpha && (id < i || d < c) ==> {
                        let t = #[trigger] tstep(trans@, alpha as nat, id, d);
                        &&& t < order.len()
                        &&& order@[t as int].0 as nat == self.step(order@[id as int].0 as nat, d)
                        &&& order@[t as int].1 as nat == other.step(order@[id as int].1 as nat, d)
                    },
                decreases alpha - c,
            {
                proof {
                    vstd::set_lib::lemma_len_subset(keys, range);
                }
                let np = self.t(p as usize, c);
                let nq = other.t(q as usize, c);
                proof {
                    lemma_index(np as nat, nq as nat, an as nat, bn as nat);
                }
                let key: u64 = np as u64 * bn as u64 + nq as u64;
                let ghost before = trans@;
                let ghost border = order@;
                let id: u32 = match index.get(&key) {
                    Some(v) => *v,
                    None => {
                        proof {
                            // a fresh key: the set grows by one, still inside the range
                            assert(!keys.contains(key as int));
                            keys = keys.insert(key as int);
                            vstd::set_lib::lemma_len_subset(keys, range);
                        }
                        let nid = order.len() as u32;
                        index.insert(key, nid);
                        order.push((np as u32, nq as u32));
                        nid
                    }
                };
                trans.push(id);
                proof {
                    assert((i * alpha + c) as int == before.len());
                    assert forall|id2: nat, d: nat| id2 <= i && d < alpha && (id2 < i || d < c + 1) implies {
                        let t = #[trigger] tstep(trans@, alpha as nat, id2, d);
                        &&& t < order.len()
                        &&& order@[t as int].0 as nat == self.step(order@[id2 as int].0 as nat, d)
                        &&& order@[t as int].1 as nat == other.step(order@[id2 as int].1 as nat, d)
                    } by {
                        if id2 < i || d < c {
                            if id2 < i {
                                lemma_index(id2, d, i as nat, alpha as nat);
                            } else {
                                assert(id2 * alpha + d < i * alpha + c);
                            }
                            assert(trans@[(id2 * alpha + d) as int] == before[(id2 * alpha + d) as int]);
                            let t = tstep(before, alpha as nat, id2, d);
                            assert(t < border.len());
                            assert(order@[t as int] == border[t as int]);
                            assert(order@[id2 as int] == border[id2 as int]);
                        } else {
                            assert(id2 == i && d == c);
                            assert(trans@[(i * alpha + c) as int] == id);
                            assert(order@[id as int].0 as nat * bn + order@[id as int].1 as nat == np as nat * bn + nq as nat);
                            lemma_pair_unique(order@[id as int].0 as nat, order@[id as int].1 as nat, np as nat, nq as nat, bn as nat);
                        }
                    }
                }
                c = c + 1;
            }
            proof {
                assert((i + 1) * alpha == i * alpha + alpha) by (nonlinear_arith);
                vstd::set_lib::lemma_len_subset(keys, range);
            }
            i = i + 1;
        }
        proof {
            vstd::set_lib::lemma_len_subset(keys, range);
        }
        let n = order.len();
        let mut accept: Vec<bool> = Vec::new();
        let mut j: usize = 0;
        while j < n
            invariant
                self.wf(),
                other.wf(),
                n == order.len(),
                j <= n,
                accept.len() == j,
                forall|id: int| 0 <= id < order.len() ==> (#[trigger] order@[id]).0 < self.nstates && order@[id].1 < other.nstates,
                forall|id: int| 0 <= id < j ==> accept@[id] == op.eval(self.accept@[order@[id].0 as int], other.accept@[order@[id].1 as int]),
            decreases n - j,
        {
            let (p, q) = order[j];
            accept.push(op.apply(self.accept[p as usize], other.accept[q as usize]));
            j = j + 1;
        }
        let r = Dfa { k: self.k, vars: crate::strs::copy_names(&self.vars), alpha, nstates: n, trans, accept };
        proof {
            assert forall|id: nat, c: nat| id < r.nstates && c < r.alpha implies {
                let t = #[trigger] tstep(r.trans@, r.alpha as nat, id, c);
                &&& order@[t as int].0 as nat == self.step(order@[id as int].0 as nat, c)
                &&& order@[t as int].1 as nat == other.step(order@[id as int].1 as nat, c)
            } by {
                assert(id < i);
            }
            assert forall|w: Seq<usize>| word_over(w, self.alpha as nat) implies #[trigger] r.accepts(w)
                == op.eval(self.accepts(w), other.accepts(w)) by {
                self.lemma_product_run(other, &r, order@, w);
            }
        }
        r
    }

    /// The product table follows both factors.
    pub proof fn lemma_product_run(&self, other: &Dfa, r: &Dfa, order: Seq<(u32, u32)>, w: Seq<usize>)
        requires
            self.wf(),
            other.wf(),
            r.wf(),
            r.alpha == self.alpha,
            r.nstates == order.len(),
            order[0] == (0u32, 0u32),
            forall|id: nat, c: nat| id < r.nstates && c < r.alpha ==> {
                let t = #[trigger] tstep(r.trans@, r.alpha as nat, id, c);
                &&& order[t as int].0 as nat == self.step(order[id as int].0 as nat, c)
                &&& order[t as int].1 as nat == other.step(order[id as int].1 as nat, c)
            },
            word_over(w, self.alpha as nat),
        ensures
            r.run_from(0, w) < r.nstates,
            order[r.run_from(0, w) as int].0 as nat == self.run_from(0, w),
            order[r.run_from(0, w) as int].1 as nat == other.run_from(0, w),
        decreases w.len(),
    {
        lemma_trun(r.trans@, r.nstates as nat, r.alpha as nat, 0, w);
        if w.len() > 0 {
            lemma_word_over_sub(w, self.alpha as nat);
            self.lemma_product_run(other, r, order, w.drop_last());
            let id = r.run_from(0, w.drop_last());
            assert(r.run_from(0, w) == tstep(r.trans@, r.alpha as nat, id, w.last() as nat));
        }
    }
}

/// `0, 1, .., n-1`.
pub open spec fn iota(n: nat) -> Seq<nat> {
    Seq::new(n, |i: int| i as nat)
}

/// Projecting onto every coordinate in order is the identity on letters.
pub proof fn lemma_sym_proj_iota(s: nat, n: nat, k: nat)
    requires
        k >= 1,
    ensures
        sym_proj(s, iota(n), k) == s % spow(k, n),
    decreases n,
{
    lemma_spow_pos(k, n);
    if n == 0 {
        assert(s % 1 == 0) by (nonlinear_arith);
    } else {
        let m = (n - 1) as nat;
        lemma_sym_proj_iota(s, m, k);
        assert(iota(n).drop_last() =~= iota(m));
        lemma_spow_pos(k, m);
        let p = spow(k, m);
        vstd::arithmetic::div_mod::lemma_breakdown(s as int, p as int, k as int);
        assert(p * k == k * p) by (nonlinear_arith);
        let d = sdigit(s, m, k);
        assert(d == (s / p) % k);
        assert(d * p == p * d) by (nonlinear_arith);
    }
}

/// Reading a word over the same variables is the identity.
pub proof fn lemma_lift_same(w: Seq<usize>, v: Seq<String>, k: nat)
    requires
        k >= 1,
        distinct(names(v)),
        word_over(w, spow(k, v.len())),
    ensures
        lift_word(w, v, v, k) == w,
{
    let pos = positions(names(v), names(v));
    assert(pos =~= iota(v.len())) by {
        assert forall|i: int| 0 <= i < v.len() implies pos[i] == i as nat by {
            lemma_first_index(names(v), names(v)[i]);
            let f = first_index(names(v), names(v)[i]);
            if f != i as nat {
                assert(names(v)[f as int] == names(v)[i]);
            }
        }
    }
    assert forall|i: int| 0 <= i < w.len() implies lift_word(w, v, v, k)[i] == w[i] by {
        lemma_sym_proj_iota(w[i] as nat, v.len(), k);
        assert((w[i] as nat) % spow(k, v.len()) == w[i] as nat) by (nonlinear_arith)
            requires (w[i] as nat) < spow(k, v.len());
    }
    assert(lift_word(w, v, v, k) =~= w);
}

/// `k^(i+j) = k^i * k^j`.
pub proof fn lemma_spow_add(k: nat, i: nat, j: nat)
    ensures
        spow(k, i + j) == spow(k, i) * spow(k, j),
    decreases j,
{
    if j > 0 {
        lemma_spow_add(k, i, (j - 1) as nat);
        assert(spow(k, i + j) == k * spow(k, (i + j - 1) as nat));
        assert(spow(k, j) == k * spow(k, (j - 1) as nat));
        assert(k * (spow(k, i) * spow(k, (j - 1) as nat)) == spow(k, i) * (k * spow(k, (j - 1) as nat))) by (nonlinear_arith);
    } else {
        assert(spow(k, 0) == 1);
        assert(i + j == i);
    }
}

/// Digit `i` of a projected letter is digit `pos[i]` of the letter.
pub proof fn lemma_sym_proj_digit(s: nat, pos: Seq<nat>, k: nat, i: nat)
    requires
        k >= 1,
        i < pos.len(),
    ensures
        sdigit(sym_proj(s, pos, k), i, k) == sdigit(s, pos[i as int], k),
    decreases pos.len(),
{
    let m = (pos.len() - 1) as nat;
    let x = sym_proj(s, pos.drop_last(), k);
    let d = sdigit(s, pos.last(), k);
    let p = spow(k, m);
    lemma_sym_proj_bound(s, pos.drop_last(), k);
    lemma_sdigit_lt(s, pos.last(), k);
    lemma_spow_pos(k, m);
    let n = sym_proj(s, pos, k);
    assert(n == x + d * p);
    if i == m {
        vstd::arithmetic::div_mod::lemma_fundamental_div_mod_converse_div(n as int, p as int, d as int, x as int);
        assert(n / p == d);
        vstd::arithmetic::div_mod::lemma_small_mod(d, k);
    } else {
        lemma_sym_proj_digit(s, pos.drop_last(), k, i);
        let pi = spow(k, i);
        let e = (m - i - 1) as nat;
        lemma_spow_pos(k, i);
        lemma_spow_add(k, i, (m - i) as nat);
        assert(spow(k, (m - i) as nat) == k * spow(k, e));
        let q = spow(k, e);
        assert(p == pi * (k * q));
        let xq = x / pi;
        let xr = x % pi;
        vstd::arithmetic::div_mod::lemma_fundamental_div_mod(x as int, pi as int);
        assert(n == (xq + d * (k * q)) * pi + xr) by (nonlinear_arith)
            requires
                n == x + d * p,
                p == pi * (k * q),
                x == pi * xq + xr;
        vstd::arithmetic::div_mod::lemma_fundamental_div_mod_converse_div(n as int, pi as int, (xq + d * (k * q)) as int, xr as int);
        assert(n / pi == xq + d * (k * q));
        assert(xq + d * (k * q) == k * (d * q) + xq) by (nonlinear_arith);
        vstd::arithmetic::div_mod::lemma_mod_multiples_vanish((d * q) as int, xq as int, k as int);
        assert(sym_proj(s, pos.drop_last(), k) == x);
        assert(pos.drop_last()[i as int] == pos[i as int]);
    }
}

/// A letter below `k^n` is the letter of its own first `n` digits.
pub proof fn lemma_same_digits(u: nat, s: nat, n: nat, k: nat)
    requires
        k >= 1,
        u < spow(k, n),
        s < spow(k, n),
        forall|i: nat| i < n ==> #[trigger] sdigit(u, i, k) == sdigit(s, i, k),
    ensures
        u == s,
{
    lemma_sym_proj_iota(u, n, k);
    lemma_sym_proj_iota(s, n, k);
    vstd::arithmetic::div_mod::lemma_small_mod(u, spow(k, n));
    vstd::arithmetic::div_mod::lemma_small_mod(s, spow(k, n));
    lemma_sym_proj_digits_eq(u, s, n, k);
}

proof fn lemma_sym_proj_digits_eq(u: nat, s: nat, n: nat, k: nat)
    requires
        forall|i: nat| i < n ==> #[trigger] sdigit(u, i, k) == sdigit(s, i, k),
    ensures
        sym_proj(u, iota(n), k) == sym_proj(s, iota(n), k),
    decreases n,
{
    if n > 0 {
        let m = (n - 1) as nat;
        assert(iota(n).drop_last() =~= iota(m));
        lemma_sym_proj_digits_eq(u, s, m, k);
        assert(sdigit(u, m, k) == sdigit(s, m, k));
    }
}

/// Reading a word over a reordering of its variables, and that back over the
/// first order, gives the word again: reordering and reordering back
/// accepts the same words.
pub proof fn lemma_reorder_round_trip(w: Seq<usize>, v: Seq<String>, t: Seq<String>, k: nat)
    requires
        k >= 1,
        distinct(names(v)),
        distinct(names(t)),
        t.len() == v.len(),
        forall|i: int| 0 <= i < v.len() ==> names(t).contains(#[trigger] names(v)[i]),
        spow(k, v.len()) <= MAX_ALPHA,
        word_over(w, spow(k, v.len())),
    ensures
        lift_word(lift_word(w, t, v, k), v, t, k) == w,
{
    let p1 = positions(names(t), names(v));
    let p2 = positions(names(v), names(t));
    let n = v.len() as nat;
    assert forall|i: int| 0 <= i < n implies p1[p2[i] as int] == i as nat by {
        lemma_first_index(names(t), names(v)[i]);
        let j = first_index(names(t), names(v)[i]);
        assert(p2[i] == j);
        assert(names(t)[j as int] == names(v)[i]);
        lemma_first_index(names(v), names(t)[j as int]);
        let f = first_index(names(v), names(t)[j as int]);
        if f != i as nat {
            assert(names(v)[f as int] == names(v)[i]);
        }
    }
    assert forall|x: int| 0 <= x < w.len() implies lift_word(lift_word(w, t, v, k), v, t, k)[x] == w[x] by {
        let s = w[x] as nat;
        let a = sym_proj(s, p1, k);
        lemma_sym_proj_bound(s, p1, k);
        let b = sym_proj(a, p2, k);
        lemma_sym_proj_bound(a, p2, k);
        assert(lift_word(w, t, v, k)[x] == a as usize);
        assert(lift_word(lift_word(w, t, v, k), v, t, k)[x] == b as usize);
        assert forall|i: nat| i < n implies #[trigger] sdigit(b, i, k) == sdigit(s, i, k) by {
            lemma_sym_proj_digit(a, p2, k, i);
            assert(p2[i as int] < n) by {
                lemma_first_index(names(t), names(v)[i as int]);
            }
            lemma_sym_proj_digit(s, p1, k, p2[i as int]);
        }
        lemma_same_digits(b, s, n, k);
    }
    assert(lift_word(lift_word(w, t, v, k), v, t, k) =~= w);
}

/// A strictly sorted list has no repeats.
pub proof fn lemma_sorted_distinct(v: Seq<Seq<char>>)
    requires
        strictly_sorted(v),
    ensures
        distinct(v),
{
    assert forall|i: int, j: int| 0 <= i < v.len() && 0 <= j < v.len() && i != j implies v[i] != v[j] by {
        if i < j {
            assert(crate::strs::seq_lt(v[i], v[j]));
        } else {
            assert(crate::strs::seq_lt(v[j], v[i]));
        }
        crate::strs::lemma_seq_lt_irreflexive(v[i]);
    }
}

pub proof fn lemma_merged(a: Seq<Seq<char>>, b: Seq<Seq<char>>)
    requires
        distinct(a),
    ensures
        distinct(merged(a, b)),
        forall|x: Seq<char>| merged(a, b).contains(x) <==> (a.contains(x) || b.contains(x)),
        a.len() <= merged(a, b).len(),
        merged(a, b).len() <= a.len() + b.len(),
        merged(a, b).len() >= b.len() ==> true,
    decreases b.len(),
{
    if b.len() > 0 {
        lemma_merged(a, b.drop_last());
        let m = merged(a, b.drop_last());
        assert forall|x: Seq<char>| merged(a, b).contains(x) <==> (a.contains(x) || b.contains(x)) by {
            if b.contains(x) && !b.drop_last().contains(x) {
                let i = choose|i: int| 0 <= i < b.len() && b[i] == x;
                if i < b.len() - 1 {
                    assert(b.drop_last()[i] == x);
                }
                assert(x == b.last());
                if !m.contains(x) {
                    assert(m.push(x)[m.len() as int] == x);
                }
            }
            if b.drop_last().contains(x) {
                let i = choose|i: int| 0 <= i < b.drop_last().len() && b.drop_last()[i] == x;
                assert(b[i] == x);
            }
            if merged(a, b).contains(x) && !m.contains(x) {
                assert(x == b.last());
                assert(b[b.len() - 1] == x);
            }
            if m.contains(x) && !m.contains(b.last()) {
                let i = choose|i: int| 0 <= i < m.len() && m[i] == x;
                assert(m.push(b.last())[i] == x);
            }
        }
    }
}

impl Dfa {
    /// Remove unreachable states and merge Nerode-equivalent ones (Moore refinement).
    pub fn minimize(&self) -> (r: Dfa)
        requires
            self.wf(),
        ensures
            r.wf(),
            r.same_sig(self),
            r.nstates <= self.nstates,
            r.same_lang(self),
            r.minimal(),
    {
        self.minimize_ref()
    }

    /// Reference minimizer: trim, then Moore refinement.
    pub fn minimize_ref(&self) -> (r: Dfa)
        requires
            self.wf(),
        ensures
            r.wf(),
            r.same_sig(self),
            r.nstates <= self.nstates,
            r.same_lang(self),
            r.minimal(),
    {
        let t = self.trim();
        t.refine()
    }

    /// A minimal automaton has no more states than any complete automaton over the
    /// same alphabet that accepts the same words.
    pub proof fn lemma_minimal_fewest(&self, d: &Dfa)
        requires
            self.wf(),
            d.wf(),
            self.minimal(),
            d.alpha == self.alpha,
            d.same_lang(self),
        ensures
            self.nstates <= d.nstates,
    {
        let m = self.nstates as int;
        let alpha = self.alpha as nat;
        let wit = |q: int| choose|w: Seq<usize>| word_over(w, alpha) && #[trigger] self.run_from(0, w) == q as nat;
        let f = |q: int| d.run_from(0, wit(q)) as int;
        let dom = vstd::set_lib::set_int_range(0, m);
        let img = dom.map(f);
        vstd::set_lib::lemma_int_range(0, m);
        vstd::set_lib::lemma_int_range(0, d.nstates as int);
        assert forall|q: int| dom.contains(q) implies word_over(wit(q), alpha) && #[trigger] self.run_from(0, wit(q)) == q as nat by {
            assert(self.reachable(q as nat));
        }
        assert(vstd::relations::injective_on(f, dom)) by {
            assert forall|p: int, q: int| dom.contains(p) && dom.contains(q) && #[trigger] f(p) == #[trigger] f(q) implies p == q by {
                if p != q {
                    assert(self.distinguishable(p as nat, q as nat));
                    let v = choose|v: Seq<usize>| word_over(v, alpha)
                        && self.accept@[#[trigger] self.run_from(p as nat, v) as int] != self.accept@[self.run_from(q as nat, v) as int];
                    let wp = wit(p);
                    let wq = wit(q);
                    assert(self.run_from(0, wp) == p as nat);
                    assert(self.run_from(0, wq) == q as nat);
                    lemma_trun_concat(self.trans@, alpha, 0, wp, v);
                    lemma_trun_concat(self.trans@, alpha, 0, wq, v);
                    lemma_trun_concat(d.trans@, alpha, 0, wp, v);
                    lemma_trun_concat(d.trans@, alpha, 0, wq, v);
                    crate::learner::lemma_word_concat(wp, v, alpha);
                    crate::learner::lemma_word_concat(wq, v, alpha);
                    assert(self.accepts(wp + v) == d.accepts(wp + v));
                    assert(self.accepts(wq + v) == d.accepts(wq + v));
                }
            }
        }
        vstd::set_lib::lemma_map_size(dom, img, f);
        assert forall|x: int| img.contains(x) implies vstd::set_lib::set_int_range(0, d.nstates as int).contains(x) by {
            let q = choose|q: int| dom.contains(q) && f(q) == x;
            assert(self.run_from(0, wit(q)) == q as nat);
            lemma_trun(d.trans@, d.nstates as nat, alpha, 0, wit(q));
        }
        vstd::set_lib::lemma_len_subset(img, vstd::set_lib::set_int_range(0, d.nstates as int));
    }

    /// Two minimal automata over the same alphabet that accept the same words
    /// have the same number of states.
    pub proof fn lemma_minimal_same_size(&self, d: &Dfa)
        requires
            self.wf(),
            d.wf(),
            self.minimal(),
            d.minimal(),
            d.alpha == self.alpha,
            d.same_lang(self),
        ensures
            self.nstates == d.nstates,
    {
        self.lemma_minimal_fewest(d);
        assert(self.same_lang(d)) by {
            assert forall|w: Seq<usize>| word_over(w, self.alpha as nat) implies #[trigger] self.accepts(w) == d.accepts(w) by {
                assert(d.accepts(w) == self.accepts(w));
            }
        }
        d.lemma_minimal_fewest(self);
    }

    /// Boolean product over the sorted union of the two variable lists, minimised.
    pub fn product_plain(&self, other: &Dfa, op: BoolOp) -> (r: Dfa)
        requires
            self.wf(),
            other.wf(),
            self.k == other.k,
            spow(self.k as nat, merged(names(self.vars@), names(other.vars@)).len()) <= MAX_ALPHA,
            self.nstates * spow(self.k as nat, merged(names(self.vars@), names(other.vars@)).len()) <= usize::MAX,
            other.nstates * spow(self.k as nat, merged(names(self.vars@), names(other.vars@)).len()) <= usize::MAX,
            self.nstates * other.nstates <= u32::MAX,
        ensures
            r.wf(),
            r.sorted(),
            r.k == self.k,
            r.vars.len() == merged(names(self.vars@), names(other.vars@)).len(),
            forall|x: Seq<char>| names(r.vars@).contains(x) <==> (names(self.vars@).contains(x) || names(other.vars@).contains(x)),
            forall|w: Seq<usize>| word_over(w, r.alpha as nat) ==> #[trigger] r.accepts(w) == op.eval(
                self.accepts(lift_word(w, self.vars@, r.vars@, self.k as nat)),
                other.accepts(lift_word(w, other.vars@, r.vars@, self.k as nat)),
            ),
            r.minimal(),
    {
        let mut vars = crate::strs::copy_names(&self.vars);
        let mut j: usize = 0;
        while j < other.vars.len()
            invariant
                self.wf(),
                other.wf(),
                j <= other.vars.len(),
                names(vars@) == merged(names(self.vars@), names(other.vars@).take(j as int)),
            decreases other.vars.len() - j,
        {
            proof {
                assert(names(other.vars@).take(j + 1).drop_last() =~= names(other.vars@).take(j as int));
                assert(names(other.vars@).take(j + 1).last() == other.vars@[j as int]@);
            }
            if !crate::strs::vec_contains(&vars, other.vars[j].as_str()) {
                let ghost pv = vars@;
                vars.push(other.vars[j].clone());
                proof {
                    assert(names(vars@) =~= names(pv).push(other.vars@[j as int]@));
                }
            }
            j = j + 1;
        }
        proof {
            assert(names(other.vars@).take(other.vars.len() as int) =~= names(other.vars@));
            lemma_merged(names(self.vars@), names(other.vars@));
        }
        let sorted = crate::strs::sort_distinct(&vars);
        let sorted = match sorted {
            Some(v) => v,
            None => {
                proof {
                    let (i, j) = choose|i: int, j: int| 0 <= i < j < vars.len() && names(vars@)[i] == names(vars@)[j];
                    assert(false);
                }
                vars
            }
        };
        proof {
            lemma_sorted_distinct(names(sorted@));
            assert forall|i: int| 0 <= i < self.vars.len() implies names(sorted@).contains(#[trigger] names(self.vars@)[i]) by {
                assert(names(self.vars@).contains(names(self.vars@)[i]));
            }
            assert forall|i: int| 0 <= i < other.vars.len() implies names(sorted@).contains(#[trigger] names(other.vars@)[i]) by {
                assert(names(other.vars@).contains(names(other.vars@)[i]));
            }
        }
        let a = self.extend_vars(&sorted);
        let b = other.extend_vars(&sorted);
        let raw = a.product_raw(&b, op);
        let r = raw.minimize();
        proof {
            assert forall|w: Seq<usize>| word_over(w, r.alpha as nat) implies #[trigger] r.accepts(w) == op.eval(
                self.accepts(lift_word(w, self.vars@, r.vars@, self.k as nat)),
                other.accepts(lift_word(w, other.vars@, r.vars@, self.k as nat)),
            ) by {
                assert(raw.accepts(w) == r.accepts(w));
                assert(a.accepts(w) == self.accepts(lift_word(w, self.vars@, sorted@, self.k as nat)));
                assert(b.accepts(w) == other.accepts(lift_word(w, other.vars@, sorted@, self.k as nat)));
            }
        }
        r
    }
}

} // verus!
