//! Compiling parsed formulas to automata: each construct becomes an
//! automaton operation, so the automaton of a sentence is its decision.
use vstd::prelude::*;
use crate::dfa::{Dfa, MAX_ALPHA, spow, word_over};
use crate::dfao::Dfao;
use crate::logic::{Lin, lex};
use crate::ops::Ctx;
use crate::parser::{Ast, Rel, Parser, ast_wf};
use crate::strs::{names, str_to_string, str_eq};

verus! {

/// A named predicate defined earlier: its parameters and its automaton.
pub struct Def {
    pub name: String,
    pub params: Vec<String>,
    pub body: Dfa,
}

/// The predicates defined so far.
pub struct Defs {
    pub entries: Vec<Def>,
}

impl Defs {
    /// Every body is a well-formed automaton in base `k`.
    pub open spec fn wf(&self, k: nat) -> bool {
        forall|i: int| 0 <= i < self.entries@.len() ==> (#[trigger] self.entries@[i]).body.wf()
            && self.entries@[i].body.k == k
    }

    /// No predicates.
    pub fn new() -> (r: Defs)
        ensures
            r.entries@.len() == 0,
    {
        Defs { entries: Vec::new() }
    }

    /// The entries of `o` with their names, parameters and automata.
    pub open spec fn same_entries(&self, o: &Defs) -> bool {
        &&& self.entries@.len() == o.entries@.len()
        &&& forall|i: int| 0 <= i < self.entries@.len() ==> (#[trigger] self.entries@[i]).name@ == o.entries@[i].name@
            && self.entries@[i].params@ == o.entries@[i].params@
            && self.entries@[i].body.eqv(&o.entries@[i].body)
    }

    /// A copy of these predicates.
    pub fn copy(&self) -> (r: Defs)
        ensures
            r.same_entries(self),
    {
        let mut entries: Vec<Def> = Vec::new();
        let mut i: usize = 0;
        while i < self.entries.len()
            invariant
                i <= self.entries@.len(),
                entries@.len() == i,
                forall|j: int| 0 <= j < i ==> (#[trigger] entries@[j]).name@ == self.entries@[j].name@
                    && entries@[j].params@ == self.entries@[j].params@
                    && entries@[j].body.eqv(&self.entries@[j].body),
            decreases self.entries@.len() - i,
        {
            let e = &self.entries[i];
            entries.push(Def {
                name: crate::strs::str_to_string(e.name.as_str()),
                params: crate::strs::copy_names(&e.params),
                body: e.body.dup(),
            });
            i = i + 1;
        }
        Defs { entries }
    }

    /// Bind `name` to `params` and `body`: the first predicate of that name
    /// is replaced, or a new one is added at the end. The result is the
    /// index of the binding.
    pub fn insert(&mut self, name: String, params: Vec<String>, body: Dfa) -> (r: usize)
        ensures
            r <= old(self).entries@.len(),
            forall|j: int| 0 <= j < r ==> (#[trigger] old(self).entries@[j]).name@ != name@,
            r < old(self).entries@.len() ==> old(self).entries@[r as int].name@ == name@
                && final(self).entries@ == old(self).entries@.update(r as int, Def { name, params, body }),
            r == old(self).entries@.len() ==> final(self).entries@ == old(self).entries@.push(Def { name, params, body }),
    {
        match self.find(name.as_str()) {
            Some(i) => {
                self.entries.set(i, Def { name, params, body });
                i
            },
            None => {
                let n = self.entries.len();
                self.entries.push(Def { name, params, body });
                n
            },
        }
    }

    /// The index of the predicate called `name`, if defined.
    pub fn find(&self, name: &str) -> (r: Option<usize>)
        ensures
            r matches Some(i) ==> i < self.entries@.len() && self.entries@[i as int].name@ == name@
                && forall|j: int| 0 <= j < i ==> (#[trigger] self.entries@[j]).name@ != name@,
            r is None ==> forall|i: int| 0 <= i < self.entries@.len() ==> (#[trigger] self.entries@[i]).name@ != name@,
    {
        let mut i: usize = 0;
        while i < self.entries.len()
            invariant
                i <= self.entries.len(),
                forall|j: int| 0 <= j < i ==> (#[trigger] self.entries@[j]).name@ != name@,
            decreases self.entries.len() - i,
        {
            if str_eq(self.entries[i].name.as_str(), name) {
                return Some(i);
            }
            i = i + 1;
        }
        None
    }
}

/// Compiles formulas over base `k`, the automatic sequence `seq` and the
/// defined predicates `defs`, under the session `cx`.
pub struct Compiler<'a> {
    pub k: usize,
    pub seq: &'a Dfao,
    pub defs: &'a Defs,
    pub cx: &'a Ctx,
    pub fresh: usize,
}

/// The truth of `a REL b` on integers.
pub open spec fn rel_holds(r: Rel, a: int, b: int) -> bool {
    match r {
        Rel::Eq => a == b,
        Rel::Ne => a != b,
        Rel::Lt => a < b,
        Rel::Le => a <= b,
        Rel::Gt => a > b,
        Rel::Ge => a >= b,
    }
}

/// Reading a word lifted to more variables over two of the smaller list's
/// variables reads the larger word over them.
proof fn lemma_over_lift(w: Seq<usize>, rel: &Dfa, res: &Dfa, x: Seq<char>, y: Seq<char>, j: nat)
    requires
        rel.wf(),
        res.wf(),
        rel.k == res.k,
        rel.vars@.len() == 2,
        j < 2,
        names(rel.vars@).contains(x),
        names(rel.vars@).contains(y),
        forall|v: Seq<char>| names(rel.vars@).contains(v) ==> names(res.vars@).contains(v),
        word_over(w, res.alpha as nat),
    ensures
        crate::base::track(crate::base::over(crate::product::lift_word(w, rel.vars@, res.vars@, rel.k as nat), seq![x, y], rel), j, rel.k as nat)
            == crate::base::track(crate::base::over(w, seq![x, y], res), j, rel.k as nat),
{
    let k = rel.k as nat;
    let xy = seq![x, y];
    let p1 = crate::product::positions(names(rel.vars@), names(res.vars@));
    let p2 = crate::product::positions(xy, names(rel.vars@));
    let pr = crate::product::positions(xy, names(res.vars@));
    let l = crate::product::lift_word(w, rel.vars@, res.vars@, k);
    crate::strs::lemma_first_index(names(rel.vars@), xy[j as int]);
    let q = p2[j as int];
    assert(q < 2);
    assert(names(rel.vars@)[q as int] == xy[j as int]);
    crate::strs::lemma_first_index(names(res.vars@), xy[j as int]);
    assert(p1[q as int] == pr[j as int]);
    assert(spow(k, 2) == rel.alpha);
    assert forall|i: int| 0 <= i < w.len() implies crate::base::track(crate::base::over(l, xy, rel), j, k)[i]
        == crate::base::track(crate::base::over(w, xy, res), j, k)[i] by {
        let sv = w[i] as nat;
        crate::product::lemma_sym_proj_bound(sv, p1, k);
        let a = crate::product::sym_proj(sv, p1, k);
        assert(l[i] == a as usize);
        crate::product::lemma_sym_proj_bound(a, p2, k);
        crate::product::lemma_sym_proj_bound(sv, pr, k);
        assert(crate::base::over(l, xy, rel)[i] == crate::product::sym_proj(a, p2, k) as usize);
        assert(crate::base::over(w, xy, res)[i] == crate::product::sym_proj(sv, pr, k) as usize);
        crate::product::lemma_sym_proj_digit(a, p2, k, j);
        crate::product::lemma_sym_proj_digit(sv, p1, k, q);
        crate::product::lemma_sym_proj_digit(sv, pr, k, j);
    }
    assert(crate::base::track(crate::base::over(l, xy, rel), j, k) =~= crate::base::track(crate::base::over(w, xy, res), j, k));
}

/// Reading a two-variable word over `(y, x)` swaps its two tracks.
proof fn lemma_over_swap(w: Seq<usize>, x: Seq<char>, y: Seq<char>, d: &Dfa)
    requires
        d.k >= 1,
        spow(d.k as nat, 2) <= MAX_ALPHA,
    ensures
        crate::base::track(crate::base::over(w, seq![y, x], d), 0, d.k as nat)
            == crate::base::track(crate::base::over(w, seq![x, y], d), 1, d.k as nat),
        crate::base::track(crate::base::over(w, seq![y, x], d), 1, d.k as nat)
            == crate::base::track(crate::base::over(w, seq![x, y], d), 0, d.k as nat),
{
    let k = d.k as nat;
    let pxy = crate::product::positions(seq![x, y], names(d.vars@));
    let pyx = crate::product::positions(seq![y, x], names(d.vars@));
    assert(pxy[0] == pyx[1] && pxy[1] == pyx[0]);
    assert forall|i: int| 0 <= i < w.len() implies crate::base::track(crate::base::over(w, seq![y, x], d), 0, k)[i]
        == crate::base::track(crate::base::over(w, seq![x, y], d), 1, k)[i] by {
        crate::product::lemma_sym_proj_digit(w[i] as nat, pyx, k, 0);
        crate::product::lemma_sym_proj_digit(w[i] as nat, pxy, k, 1);
        crate::product::lemma_sym_proj_bound(w[i] as nat, pyx, k);
        crate::product::lemma_sym_proj_bound(w[i] as nat, pxy, k);
        assert(crate::base::over(w, seq![y, x], d)[i] == crate::product::sym_proj(w[i] as nat, pyx, k) as usize);
        assert(crate::base::over(w, seq![x, y], d)[i] == crate::product::sym_proj(w[i] as nat, pxy, k) as usize);
    }
    assert forall|i: int| 0 <= i < w.len() implies crate::base::track(crate::base::over(w, seq![y, x], d), 1, k)[i]
        == crate::base::track(crate::base::over(w, seq![x, y], d), 0, k)[i] by {
        crate::product::lemma_sym_proj_digit(w[i] as nat, pyx, k, 1);
        crate::product::lemma_sym_proj_digit(w[i] as nat, pxy, k, 0);
        crate::product::lemma_sym_proj_bound(w[i] as nat, pyx, k);
        crate::product::lemma_sym_proj_bound(w[i] as nat, pxy, k);
        assert(crate::base::over(w, seq![y, x], d)[i] == crate::product::sym_proj(w[i] as nat, pyx, k) as usize);
        assert(crate::base::over(w, seq![x, y], d)[i] == crate::product::sym_proj(w[i] as nat, pxy, k) as usize);
    }
    assert(crate::base::track(crate::base::over(w, seq![y, x], d), 0, k) =~= crate::base::track(crate::base::over(w, seq![x, y], d), 1, k));
    assert(crate::base::track(crate::base::over(w, seq![y, x], d), 1, k) =~= crate::base::track(crate::base::over(w, seq![x, y], d), 0, k));
}

/// The error for an automaton that outgrew the limits.
fn too_large() -> (r: String)
    ensures
        r@ == "automaton too large"@,
{
    str_to_string("automaton too large")
}

impl<'a> Compiler<'a> {
    /// The base fits the alphabet cap for three tracks, the sequence and the
    /// predicates are in base `k`, and the sequence is robust under padding.
    pub open spec fn wf(&self) -> bool {
        &&& 2 <= self.k
        &&& self.k * self.k * self.k <= MAX_ALPHA
        &&& self.seq.wf()
        &&& self.seq.k == self.k
        &&& self.seq.zero_stable_spec(self.cx.lsd)
        &&& self.cx.wf()
        &&& self.cx.fits(self.k as nat)
        &&& self.defs.wf(self.k as nat)
    }

    /// `c` is this compiler after some fresh names were drawn.
    pub open spec fn same_env(&self, c: &Compiler<'a>) -> bool {
        &&& c.k == self.k
        &&& c.seq == self.seq
        &&& c.defs == self.defs
        &&& c.cx == self.cx
    }

    /// A compiler with no fresh names drawn yet.
    pub fn new(k: usize, seq: &'a Dfao, defs: &'a Defs, cx: &'a Ctx) -> (r: Compiler<'a>)
        ensures
            r.k == k,
            r.seq == seq,
            r.defs == defs,
            r.cx == cx,
            r.fresh == 0,
    {
        Compiler { k, seq, defs, cx, fresh: 0 }
    }

    /// A new internal variable name `$n`; such names never come from the lexer.
    fn newvar(&mut self) -> (r: Result<String, String>)
        ensures
            old(self).same_env(final(self)),
            r is Ok ==> final(self).fresh == old(self).fresh + 1,
            r is Err <==> old(self).fresh == usize::MAX,
            r is Err ==> final(self).fresh == old(self).fresh,
            r matches Ok(x) ==> x@ == seq!['$'] + crate::strs::dec_text(final(self).fresh as nat),
    {
        if self.fresh == usize::MAX {
            return Err(str_to_string("out of fresh names"));
        }
        self.fresh = self.fresh + 1;
        let mut cs: Vec<char> = Vec::new();
        cs.push('$');
        let ds = crate::strs::decimal(self.fresh);
        let mut i: usize = 0;
        while i < ds.len()
            invariant
                i <= ds.len(),
                cs@ == seq!['$'] + ds@.take(i as int),
            decreases ds.len() - i,
        {
            cs.push(ds[i]);
            i = i + 1;
            proof {
                assert(cs@ =~= seq!['$'] + ds@.take(i as int));
            }
        }
        proof {
            assert(ds@.take(ds@.len() as int) =~= ds@);
        }
        Ok(crate::strs::string_of(cs.as_slice()))
    }

    /// The automaton of `x = v` when `x` is a single variable known to hold `v`.
    fn any_of(&self, v: &String) -> (r: Result<Dfa, String>)
        requires
            self.wf(),
        ensures
            r matches Ok(d) ==> d.wf() && d.k == self.k,
            r matches Ok(d) ==> names(d.vars@) == seq![v@] && forall|w: Seq<usize>| word_over(w, d.alpha as nat)
                ==> #[trigger] d.accepts(w) == self.cx.valid_word(w, 1, self.k as nat),
            self.cx.ns is None ==> r is Ok,
    {
        let mut vars: Vec<String> = Vec::new();
        vars.push(str_to_string(v.as_str()));
        proof {
            assert(spow(self.k as nat, 0) == 1);
            assert(spow(self.k as nat, 1) == self.k * spow(self.k as nat, 0));
            assert(self.k <= MAX_ALPHA) by (nonlinear_arith)
                requires
                    self.k >= 2,
                    self.k * self.k * self.k <= MAX_ALPHA,
            ;
            assert(crate::dfa::distinct(names(vars@)));
        }
        let ghost vs = vars@;
        match Dfa::constant(self.k, vars, true, self.cx) {
            Some(d) => {
                proof {
                    assert(names(vs) =~= seq![v@]);
                    assert(d.vars@.len() == 1);
                    assert(names(d.vars@).contains(names(d.vars@)[0]));
                    assert(names(vs).contains(names(d.vars@)[0]));
                    assert(names(d.vars@) =~= seq![v@]);
                }
                Ok(d)
            },
            None => Err(too_large()),
        }
    }

    /// Conjunction, with an error when the product is too large.
    fn and2(&self, a: &Dfa, b: &Dfa) -> (r: Result<Dfa, String>)
        requires
            self.wf(),
            a.wf(),
            b.wf(),
            a.k == self.k,
            b.k == self.k,
        ensures
            r matches Ok(d) ==> d.wf() && d.k == self.k,
            r matches Ok(d) ==> crate::ops::combines(self.cx, a, b, crate::dfa::BoolOp::And, &d),
            crate::ops::product_fits(a, b) ==> r is Ok,
    {
        match a.and(b, self.cx) {
            Some(d) => Ok(d),
            None => Err(too_large()),
        }
    }

    /// Projection of `v`, with an error when determinisation gives up.
    fn exists1(&self, a: &Dfa, v: &str) -> (r: Result<Dfa, String>)
        requires
            self.wf(),
            a.wf(),
            a.k == self.k,
        ensures
            r matches Ok(d) ==> d.wf() && d.k == self.k,
            r matches Ok(d) ==> crate::quant::projected(self.cx, a, v@, &d),
            !names(a.vars@).contains(v@) ==> r is Ok,
    {
        match a.exists_var(v, self.cx) {
            Some(d) => {
                proof {
                    if names(a.vars@).contains(v@) {
                        assert(crate::quant::projects(a, v@, self.cx.lsd, &d));
                    }
                }
                Ok(d)
            },
            None => Err(too_large()),
        }
    }

    /// Complement, with an error when the restriction is too large.
    fn not1(&self, a: &Dfa) -> (r: Result<Dfa, String>)
        requires
            self.wf(),
            a.wf(),
            a.k == self.k,
        ensures
            r matches Ok(d) ==> d.wf() && d.k == self.k,
            r matches Ok(d) ==> forall|w: Seq<usize>| word_over(w, d.alpha as nat) ==> #[trigger] d.accepts(w)
                == (!a.accepts(crate::product::lift_word(w, a.vars@, d.vars@, a.k as nat))
                && self.cx.valid_word(w, d.vars.len() as nat, a.k as nat)),
            r matches Ok(d) ==> forall|x: Seq<char>| names(d.vars@).contains(x) <==> names(a.vars@).contains(x),
            self.cx.ns is None ==> r is Ok,
    {
        match a.complement(self.cx) {
            Some(d) => Ok(d),
            None => Err(too_large()),
        }
    }

    /// `z = x + y`, also when `x` and `y` are the same variable.
    fn add_auto(&mut self, x: &str, y: &str, z: &str) -> (r: Result<Dfa, String>)
        requires
            old(self).wf(),
        ensures
            old(self).same_env(final(self)),
            r matches Ok(d) ==> d.wf() && d.k == old(self).k,
    {
        if str_eq(x, z) || str_eq(y, z) {
            return Err(str_to_string("variable clash"));
        }
        if !str_eq(x, y) {
            return match crate::base::adder(self.k, x, y, z, self.cx) {
                Some(d) => Ok(d),
                None => Err(too_large()),
            };
        }
        let u = self.newvar()?;
        if str_eq(u.as_str(), x) || str_eq(u.as_str(), z) {
            return Err(str_to_string("variable clash"));
        }
        proof {
            assert(self.k * self.k <= MAX_ALPHA) by (nonlinear_arith)
                requires
                    self.k >= 2,
                    self.k * self.k * self.k <= MAX_ALPHA,
            ;
        }
        let e = match crate::base::equal(self.k, x, u.as_str(), self.cx) {
            Some(d) => d,
            None => {
                return Err(too_large());
            },
        };
        let s = match crate::base::adder(self.k, x, u.as_str(), z, self.cx) {
            Some(d) => d,
            None => {
                return Err(too_large());
            },
        };
        let a = self.and2(&e, &s)?;
        self.exists1(&a, u.as_str())
    }

    /// An automaton binding a variable to the value of the nonnegative linear
    /// form `t`, with the variable's name and whether it is internal (to be
    /// projected away by the caller).
    fn lin_auto(&mut self, t: &Lin) -> (r: Result<(Dfa, String, bool), String>)
        requires
            old(self).wf(),
            t.wf(),
        ensures
            old(self).same_env(final(self)),
            r matches Ok((d, v, f)) ==> d.wf() && d.k == old(self).k,
            crate::logic::plain_var(t) ==> (r matches Ok((d, v, f)) ==> v@ == t.coef@[0].0@ && !f
                && names(d.vars@) == seq![v@]
                && (old(self).cx.ns is None ==> forall|w: Seq<usize>| word_over(w, d.alpha as nat) ==> #[trigger] d.accepts(w))),
    {
        if t.c < 0 {
            return Err(str_to_string("negative constant"));
        }
        match t.is_plain_var() {
            Some(v) => {
                let d = self.any_of(&v)?;
                return Ok((d, v, false));
            },
            None => {},
        }
        // the summands, each a variable (repeated by its coefficient) or a
        // fresh variable bound to the constant
        let mut parts: Vec<String> = Vec::new();
        let mut consts: Vec<Option<Dfa>> = Vec::new();
        let mut i: usize = 0;
        while i < t.coef.len()
            invariant
                self.wf(),
                old(self).same_env(self),
                parts.len() == consts.len(),
                forall|j: int| 0 <= j < consts@.len() ==> ((#[trigger] consts@[j]) matches Some(d) ==> d.wf() && d.k == self.k),
            decreases t.coef.len() - i,
        {
            let (ref v, m) = t.coef[i];
            if m < 0 {
                return Err(str_to_string("negative coefficient"));
            }
            let mut c: i64 = 0;
            while c < m
                invariant
                    parts.len() == consts.len(),
                    forall|j: int| 0 <= j < consts@.len() ==> ((#[trigger] consts@[j]) matches Some(d) ==> d.wf() && d.k == self.k),
                    c <= m,
                decreases m - c,
            {
                parts.push(str_to_string(v.as_str()));
                consts.push(None);
                c = c + 1;
            }
            i = i + 1;
        }
        if t.c > 0 || parts.len() == 0 {
            let w = self.newvar()?;
            proof {
                assert(self.k <= MAX_ALPHA) by (nonlinear_arith)
                    requires
                        self.k >= 2,
                        self.k * self.k * self.k <= MAX_ALPHA,
                ;
            }
            let a = crate::base::constant(self.k, w.as_str(), t.c as u64, self.cx)?;
            parts.push(w);
            consts.push(Some(a));
        }
        let first = str_to_string(parts[0].as_str());
        let mut acc = match &consts[0] {
            Some(a) => a.dup(),
            None => self.any_of(&first)?,
        };
        if parts.len() == 1 {
            return Ok((acc, first, consts[0].is_some()));
        }
        let mut cur = first;
        let mut cur_fresh = consts[0].is_some();
        let mut j: usize = 1;
        while j < parts.len()
            invariant
                self.wf(),
                old(self).same_env(self),
                parts.len() == consts.len(),
                forall|x: int| 0 <= x < consts@.len() ==> ((#[trigger] consts@[x]) matches Some(d) ==> d.wf() && d.k == self.k),
                acc.wf(),
                acc.k == self.k,
                1 <= j <= parts.len(),
            decreases parts.len() - j,
        {
            let next = self.newvar()?;
            let step = self.add_auto(cur.as_str(), parts[j].as_str(), next.as_str())?;
            acc = self.and2(&acc, &step)?;
            match &consts[j] {
                Some(a) => {
                    acc = self.and2(&acc, a)?;
                },
                None => {},
            }
            if cur_fresh {
                acc = self.exists1(&acc, cur.as_str())?;
            }
            if consts[j].is_some() {
                acc = self.exists1(&acc, parts[j].as_str())?;
            }
            cur = next;
            cur_fresh = true;
            j = j + 1;
        }
        Ok((acc, cur, true))
    }

    /// The automaton of `x REL y` on two distinct variables. Without a
    /// numeration system it accepts exactly the words on which the value of
    /// the `x` track and the value of the `y` track satisfy `REL`.
    fn rel_vars(&self, r: Rel, x: &str, y: &str) -> (res: Result<Dfa, String>)
        requires
            self.wf(),
            x@ != y@,
        ensures
            res matches Ok(d) ==> d.wf() && d.k == self.k && crate::base::vars_are(&d, seq![x@, y@]),
            res matches Ok(d) ==> (self.cx.ns is None ==> forall|w: Seq<usize>| word_over(w, d.alpha as nat)
                ==> #[trigger] d.accepts(w) == rel_holds(r,
                    crate::base::val(crate::base::track(crate::base::over(w, seq![x@, y@], &d), 0, self.k as nat), self.k as nat, self.cx.lsd),
                    crate::base::val(crate::base::track(crate::base::over(w, seq![x@, y@], &d), 1, self.k as nat), self.k as nat, self.cx.lsd))),
    {
        proof {
            assert(self.k * self.k <= MAX_ALPHA) by (nonlinear_arith)
                requires
                    self.k >= 2,
                    self.k * self.k * self.k <= MAX_ALPHA,
            ;
        }
        let k = self.k;
        let lsd = self.cx.lsd;
        let base = match r {
            Rel::Eq | Rel::Ne => crate::base::equal(k, x, y, self.cx),
            Rel::Lt | Rel::Ge => crate::base::less_than(k, x, y, self.cx),
            Rel::Gt | Rel::Le => crate::base::less_than(k, y, x, self.cx),
        };
        let base = match base {
            Some(b) => b,
            None => {
                return Err(too_large());
            },
        };
        let ghost xy = seq![x@, y@];
        let ghost yx = seq![y@, x@];
        proof {
            if self.cx.ns is None {
                assert forall|w: Seq<usize>| word_over(w, base.alpha as nat) implies #[trigger] base.accepts(w) == rel_holds(
                    match r { Rel::Ne => Rel::Eq, Rel::Ge => Rel::Lt, Rel::Le => Rel::Gt, _ => r },
                    crate::base::val(crate::base::track(crate::base::over(w, xy, &base), 0, k as nat), k as nat, lsd),
                    crate::base::val(crate::base::track(crate::base::over(w, xy, &base), 1, k as nat), k as nat, lsd)) by {
                    let u = crate::base::over(w, xy, &base);
                    let v = crate::base::over(w, yx, &base);
                    assert(spow(k as nat, 2) == k * spow(k as nat, 1));
                    assert(spow(k as nat, 1) == k * spow(k as nat, 0));
                    assert(spow(k as nat, 0) == 1);
                    lemma_over_swap(w, x@, y@, &base);
                    crate::base::lemma_lex_values(u, k as nat, lsd);
                    crate::base::lemma_lex_values(v, k as nat, lsd);
                }
            }
        }
        match r {
            Rel::Ne | Rel::Ge | Rel::Le => {
                match base.complement(self.cx) {
                    Some(d) => {
                        proof {
                            if self.cx.ns is None {
                                assert forall|w: Seq<usize>| word_over(w, d.alpha as nat) implies #[trigger] d.accepts(w) == rel_holds(r,
                                    crate::base::val(crate::base::track(crate::base::over(w, xy, &d), 0, k as nat), k as nat, lsd),
                                    crate::base::val(crate::base::track(crate::base::over(w, xy, &d), 1, k as nat), k as nat, lsd)) by {
                                    crate::product::lemma_lift_same(w, base.vars@, k as nat);
                                    assert(crate::base::over(w, xy, &d) == crate::base::over(w, xy, &base));
                                }
                            }
                            assert forall|v: Seq<char>| names(d.vars@).contains(v) <==> xy.contains(v) by {
                                assert(names(base.vars@).contains(v) <==> names(d.vars@).contains(v));
                                assert(xy.contains(v) <==> yx.contains(v)) by {
                                    if xy.contains(v) { assert(v == x@ || v == y@); if v == x@ { assert(yx[1] == v); } else { assert(yx[0] == v); } }
                                    if yx.contains(v) { assert(v == x@ || v == y@); if v == x@ { assert(xy[0] == v); } else { assert(xy[1] == v); } }
                                }
                            }
                        }
                        Ok(d)
                    },
                    None => Err(too_large()),
                }
            },
            _ => {
                proof {
                    assert forall|v: Seq<char>| names(base.vars@).contains(v) <==> xy.contains(v) by {
                        assert(xy.contains(v) <==> yx.contains(v)) by {
                            if xy.contains(v) { assert(v == x@ || v == y@); if v == x@ { assert(yx[1] == v); } else { assert(yx[0] == v); } }
                            if yx.contains(v) { assert(v == x@ || v == y@); if v == x@ { assert(xy[0] == v); } else { assert(xy[1] == v); } }
                        }
                    }
                }
                Ok(base)
            },
        }
    }

    /// The comparison `a REL b`, after moving every term to the side where
    /// its coefficient is positive.
    fn relation_auto(&mut self, a: &Lin, r: Rel, b: &Lin) -> (res: Result<Dfa, String>)
        requires
            old(self).wf(),
            a.wf(),
            b.wf(),
        ensures
            old(self).same_env(final(self)),
            res matches Ok(d) ==> d.wf() && d.k == old(self).k,
            res matches Ok(d) ==> ((old(self).cx.ns is None && crate::logic::plain_var(a) && crate::logic::plain_var(b)
                && a.coef@[0].0@ != b.coef@[0].0@) ==> (
                (forall|v: Seq<char>| names(d.vars@).contains(v) <==> (v == a.coef@[0].0@ || v == b.coef@[0].0@))
                && forall|w: Seq<usize>| word_over(w, d.alpha as nat) ==> #[trigger] d.accepts(w) == rel_holds(r,
                    crate::base::val(crate::base::track(crate::base::over(w, seq![a.coef@[0].0@, b.coef@[0].0@], &d), 0, old(self).k as nat),
                        old(self).k as nat, old(self).cx.lsd),
                    crate::base::val(crate::base::track(crate::base::over(w, seq![a.coef@[0].0@, b.coef@[0].0@], &d), 1, old(self).k as nat),
                        old(self).k as nat, old(self).cx.lsd)))),
    {
        let d = a.add(b, -1);
        let (p, n) = d.split();
        let ghost plain = self.cx.ns is None && crate::logic::plain_var(a) && crate::logic::plain_var(b)
            && a.coef@[0].0@ != b.coef@[0].0@;
        let ghost ax = a.coef@[0].0@;
        let ghost bx = b.coef@[0].0@;
        proof {
            if plain {
                assert(0i64.wrapping_add((-1i64).wrapping_mul(0i64)) == 0i64) by (bit_vector);
                assert(0i64.wrapping_add((-1i64).wrapping_mul(1i64)) == -1i64) by (bit_vector);
                assert(0i64.wrapping_sub(-1i64) == 1i64) by (bit_vector);
                assert forall|z: Seq<char>| #[trigger] p.at(z) == (if z == ax { Some(1i64) } else { None }) by {
                    crate::logic::lemma_plain_at(a, z);
                    crate::logic::lemma_plain_at(b, z);
                }
                assert forall|z: Seq<char>| #[trigger] n.at(z) == (if z == bx { Some(1i64) } else { None }) by {
                    crate::logic::lemma_plain_at(a, z);
                    crate::logic::lemma_plain_at(b, z);
                }
                crate::logic::lemma_plain_from_at(&p, ax);
                crate::logic::lemma_plain_from_at(&n, bx);
            }
        }
        let (ap, vp, fp) = self.lin_auto(&p)?;
        let (an, vn, fnn) = self.lin_auto(&n)?;
        if str_eq(vp.as_str(), vn.as_str()) {
            return Err(str_to_string("variable clash"));
        }
        let vps = vp.as_str();
        let vns = vn.as_str();
        let rel = self.rel_vars(r, vps, vns)?;
        let both = self.and2(&ap, &an)?;
        let mut res = self.and2(&both, &rel)?;
        if fp {
            res = self.exists1(&res, vp.as_str())?;
        }
        if fnn {
            res = self.exists1(&res, vn.as_str())?;
        }
        proof {
            if plain {
                let k = self.k as nat;
                let xy = seq![ax, bx];
                assert(vp@ == ax && vn@ == bx);
                assert forall|v: Seq<char>| names(res.vars@).contains(v) <==> (v == ax || v == bx) by {
                    if v == ax { assert(seq![vp@][0] == v); assert(xy[0] == v); }
                    if v == bx { assert(seq![vn@][0] == v); assert(xy[1] == v); }
                    if names(rel.vars@).contains(v) { assert(xy.contains(v)); }
                    if names(ap.vars@).contains(v) { assert(v == vp@); }
                    if names(an.vars@).contains(v) { assert(v == vn@); }
                }
                assert(vps@ == vp@ && vns@ == vn@);
                assert(crate::base::vars_are(&rel, seq![vp@, vn@]));
                assert(seq![vp@, vn@].contains(ax)) by { assert(seq![vp@, vn@][0] == ax); }
                assert(seq![vp@, vn@].contains(bx)) by { assert(seq![vp@, vn@][1] == bx); }
                assert(names(rel.vars@).contains(ax));
                assert(names(rel.vars@).contains(bx));
                assert forall|w: Seq<usize>| word_over(w, res.alpha as nat) implies #[trigger] res.accepts(w) == rel_holds(r,
                    crate::base::val(crate::base::track(crate::base::over(w, xy, &res), 0, k), k, self.cx.lsd),
                    crate::base::val(crate::base::track(crate::base::over(w, xy, &res), 1, k), k, self.cx.lsd)) by {
                    let lb = crate::product::lift_word(w, both.vars@, res.vars@, k);
                    let lr = crate::product::lift_word(w, rel.vars@, res.vars@, k);
                    crate::product::lemma_proj_word(w, crate::product::positions(names(both.vars@), names(res.vars@)), k);
                    crate::product::lemma_proj_word(w, crate::product::positions(names(rel.vars@), names(res.vars@)), k);
                    crate::product::lemma_proj_word(lb, crate::product::positions(names(ap.vars@), names(both.vars@)), k);
                    crate::product::lemma_proj_word(lb, crate::product::positions(names(an.vars@), names(both.vars@)), k);
                    assert(both.accepts(lb));
                    lemma_over_lift(w, &rel, &res, ax, bx, 0);
                    lemma_over_lift(w, &rel, &res, ax, bx, 1);
                }
            }
        }
        Ok(res)
    }

    /// The nonnegative part of an index term; a negative part is an error.
    fn index_part(&self, t: &Lin) -> (r: Result<Lin, String>)
        requires
            t.wf(),
        ensures
            r matches Ok(l) ==> l.wf(),
            r is Ok <==> (t.c >= 0 && forall|x: Seq<char>| #[trigger] t.at(x) matches Some(v) ==> v > 0),
            r matches Ok(l) ==> l.c == t.c && forall|x: Seq<char>| #[trigger] l.at(x) == t.at(x),
    {
        let (p, n) = t.split();
        proof {
            if n.coef@.len() > 0 {
                let x = n.coef@.last().0@;
                assert(n.at(x) is Some);
            }
            if t.c < 0 {
                let c = t.c;
                assert(0i64.wrapping_sub(c) != 0) by (bit_vector)
                    requires c < 0;
            }
        }
        if !(n.c == 0 && n.coef.len() == 0) {
            return Err(str_to_string("negative index"));
        }
        proof {
            assert forall|x: Seq<char>| #[trigger] t.at(x) matches Some(v) ==> v > 0 by {
                assert(n.at(x) is None);
            }
            assert forall|x: Seq<char>| #[trigger] p.at(x) == t.at(x) by {
                assert(n.at(x) is None);
            }
        }
        Ok(p)
    }

    /// Compile a formula to its automaton.
    pub fn compile(&mut self, a: &Ast) -> (r: Result<Dfa, String>)
        requires
            old(self).wf(),
            ast_wf(*a),
        ensures
            old(self).same_env(final(self)),
            r matches Ok(d) ==> d.wf() && d.k == old(self).k,
            r matches Ok(d) ==> (a matches Ast::Cmp(x, rel, y) ==> ((old(self).cx.ns is None
                && crate::logic::plain_var(&x) && crate::logic::plain_var(&y) && x.coef@[0].0@ != y.coef@[0].0@) ==> (
                (forall|v: Seq<char>| names(d.vars@).contains(v) <==> (v == x.coef@[0].0@ || v == y.coef@[0].0@))
                && forall|w: Seq<usize>| word_over(w, d.alpha as nat) ==> #[trigger] d.accepts(w) == rel_holds(*rel,
                    crate::base::val(crate::base::track(crate::base::over(w, seq![x.coef@[0].0@, y.coef@[0].0@], &d), 0, old(self).k as nat),
                        old(self).k as nat, old(self).cx.lsd),
                    crate::base::val(crate::base::track(crate::base::over(w, seq![x.coef@[0].0@, y.coef@[0].0@], &d), 1, old(self).k as nat),
                        old(self).k as nat, old(self).cx.lsd))))),
        decreases a,
    {
        match a {
            Ast::Bool(b) => {
                let vars: Vec<String> = Vec::new();
                proof {
                    assert(spow(self.k as nat, 0) == 1);
                    assert(crate::dfa::distinct(names(vars@)));
                }
                match Dfa::constant(self.k, vars, *b, self.cx) {
                    Some(d) => Ok(d),
                    None => Err(too_large()),
                }
            },
            Ast::Cmp(l, r, rr) => self.relation_auto(l, *r, rr),
            Ast::SeqLetter(t, r, c) => {
                let p = self.index_part(t)?;
                let (at, v, fresh) = self.lin_auto(&p)?;
                let pl = self.seq.pred_letter(v.as_str(), *c, self.cx.lsd);
                let e = match r {
                    Rel::Ne => self.not1(&pl)?,
                    _ => pl,
                };
                let mut d = self.and2(&at, &e)?;
                if fresh {
                    d = self.exists1(&d, v.as_str())?;
                }
                Ok(d)
            },
            Ast::SeqSeq(t1, r, t2) => {
                let p1 = self.index_part(t1)?;
                let p2 = self.index_part(t2)?;
                let (a1, v1, f1) = self.lin_auto(&p1)?;
                let (a2, v2, f2) = self.lin_auto(&p2)?;
                let same = str_eq(v1.as_str(), v2.as_str());
                let core = if same {
                    let mut vars: Vec<String> = Vec::new();
                    vars.push(str_to_string(v1.as_str()));
                    proof {
                        assert(spow(self.k as nat, 0) == 1);
                        assert(spow(self.k as nat, 1) == self.k * spow(self.k as nat, 0));
                        assert(self.k <= MAX_ALPHA) by (nonlinear_arith)
                            requires
                                self.k >= 2,
                                self.k * self.k * self.k <= MAX_ALPHA,
                        ;
                        assert(crate::dfa::distinct(names(vars@)));
                    }
                    match Dfa::constant(self.k, vars, matches!(r, Rel::Eq), self.cx) {
                        Some(d) => d,
                        None => {
                            return Err(too_large());
                        },
                    }
                } else {
                    let e = match self.seq.pred_eq(v1.as_str(), v2.as_str(), self.cx.lsd) {
                        Some(e) => e,
                        None => {
                            return Err(too_large());
                        },
                    };
                    match r {
                        Rel::Ne => self.not1(&e)?,
                        _ => e,
                    }
                };
                let both = self.and2(&a1, &a2)?;
                let mut d = self.and2(&both, &core)?;
                if f1 {
                    d = self.exists1(&d, v1.as_str())?;
                }
                if f2 && !same {
                    d = self.exists1(&d, v2.as_str())?;
                }
                Ok(d)
            },
            Ast::IsPow(t) => {
                let (p, n) = t.split();
                if !(n.c == 0 && n.coef.len() == 0) {
                    return Err(str_to_string("negative argument to pow"));
                }
                let (aut, v, fresh) = self.lin_auto(&p)?;
                proof {
                    assert(self.k <= MAX_ALPHA) by (nonlinear_arith)
                        requires
                            self.k >= 2,
                            self.k * self.k * self.k <= MAX_ALPHA,
                    ;
                }
                let pk = crate::base::power_of_k(self.k, v.as_str());
                let mut d = self.and2(&aut, &pk)?;
                if fresh {
                    d = self.exists1(&d, v.as_str())?;
                }
                Ok(d)
            },
            Ast::Call(name, args) => self.call(name, args),
            Ast::Not(x) => {
                let d = self.compile(x)?;
                self.not1(&d)
            },
            Ast::And(x, y) => {
                let d = self.compile(x)?;
                let e = self.compile(y)?;
                self.and2(&d, &e)
            },
            Ast::Or(x, y) => {
                let d = self.compile(x)?;
                let e = self.compile(y)?;
                match d.or(&e, self.cx) {
                    Some(z) => Ok(z),
                    None => Err(too_large()),
                }
            },
            Ast::Imp(x, y) => {
                let d = self.compile(x)?;
                let e = self.compile(y)?;
                match d.implies(&e, self.cx) {
                    Some(z) => Ok(z),
                    None => Err(too_large()),
                }
            },
            Ast::Iff(x, y) => {
                let d = self.compile(x)?;
                let e = self.compile(y)?;
                match d.iff(&e, self.cx) {
                    Some(z) => Ok(z),
                    None => Err(too_large()),
                }
            },
            Ast::Exists(vs, x) => {
                let mut d = self.compile(x)?;
                let mut i: usize = vs.len();
                while i > 0
                    invariant
                        self.wf(),
                        old(self).same_env(self),
                        i <= vs.len(),
                        d.wf(),
                        d.k == self.k,
                    decreases i,
                {
                    i = i - 1;
                    d = self.exists1(&d, vs[i].as_str())?;
                }
                Ok(d)
            },
            Ast::Forall(vs, x) => {
                let mut d = self.compile(x)?;
                let mut i: usize = vs.len();
                while i > 0
                    invariant
                        self.wf(),
                        old(self).same_env(self),
                        i <= vs.len(),
                        d.wf(),
                        d.k == self.k,
                    decreases i,
                {
                    i = i - 1;
                    d = match d.forall_var(vs[i].as_str(), self.cx) {
                        Some(z) => z,
                        None => {
                            return Err(too_large());
                        },
                    };
                }
                Ok(d)
            },
        }
    }

    /// `$name(args)`: the predicate's automaton with each parameter bound to
    /// a fresh variable equal to its argument, the fresh variables projected away.
    fn call(&mut self, name: &String, args: &Vec<Lin>) -> (r: Result<Dfa, String>)
        requires
            old(self).wf(),
            forall|i: int| 0 <= i < args@.len() ==> (#[trigger] args@[i]).wf(),
        ensures
            old(self).same_env(final(self)),
            r matches Ok(d) ==> d.wf() && d.k == old(self).k,
    {
        let idx = match self.defs.find(name.as_str()) {
            Some(i) => i,
            None => {
                return Err(str_to_string("undefined predicate"));
            },
        };
        let def = &self.defs.entries[idx];
        if def.params.len() != args.len() {
            return Err(str_to_string("wrong number of arguments"));
        }
        proof {
            assert(self.k * self.k <= MAX_ALPHA) by (nonlinear_arith)
                requires
                    self.k >= 2,
                    self.k * self.k * self.k <= MAX_ALPHA,
            ;
        }
        let mut binders: Vec<Dfa> = Vec::new();
        let mut bnames: Vec<String> = Vec::new();
        let mut bfresh: Vec<bool> = Vec::new();
        let mut fresh_names: Vec<String> = Vec::new();
        let mut i: usize = 0;
        while i < args.len()
            invariant
                self.wf(),
                self.k * self.k <= MAX_ALPHA,
                old(self).same_env(self),
                forall|j: int| 0 <= j < args@.len() ==> (#[trigger] args@[j]).wf(),
                i <= args.len(),
                fresh_names.len() == i,
                binders.len() == bnames.len(),
                binders.len() == bfresh.len(),
                forall|j: int| 0 <= j < binders@.len() ==> (#[trigger] binders@[j]).wf() && binders@[j].k == self.k,
            decreases args.len() - i,
        {
            let p = self.index_part(&args[i])?;
            let w = self.newvar()?;
            let (aut, v, was_fresh) = self.lin_auto(&p)?;
            if str_eq(w.as_str(), v.as_str()) {
                return Err(str_to_string("variable clash"));
            }
            let eqv = match crate::base::equal(self.k, w.as_str(), v.as_str(), self.cx) {
                Some(e) => e,
                None => {
                    return Err(too_large());
                },
            };
            let b = self.and2(&aut, &eqv)?;
            binders.push(b);
            bnames.push(v);
            bfresh.push(was_fresh);
            fresh_names.push(w);
            i = i + 1;
        }
        let def = &self.defs.entries[idx];
        let body = &def.body;
        let mut newnames: Vec<String> = Vec::new();
        let mut j: usize = 0;
        while j < body.vars.len()
            invariant
                j <= body.vars.len(),
                newnames.len() == j,
                fresh_names.len() == def.params.len(),
            decreases body.vars.len() - j,
        {
            match crate::strs::position(&def.params, body.vars[j].as_str()) {
                Some(pi) => newnames.push(str_to_string(fresh_names[pi].as_str())),
                None => newnames.push(str_to_string(body.vars[j].as_str())),
            }
            j = j + 1;
        }
        if !crate::strs::all_distinct(&newnames) {
            return Err(str_to_string("variable clash"));
        }
        let mut acc = body.rename(&newnames);
        let mut b: usize = 0;
        while b < binders.len()
            invariant
                self.wf(),
                old(self).same_env(self),
                binders.len() == bnames.len(),
                binders.len() == bfresh.len(),
                forall|x: int| 0 <= x < binders@.len() ==> (#[trigger] binders@[x]).wf() && binders@[x].k == self.k,
                acc.wf(),
                acc.k == self.k,
            decreases binders.len() - b,
        {
            acc = self.and2(&acc, &binders[b])?;
            if bfresh[b] {
                acc = self.exists1(&acc, bnames[b].as_str())?;
            }
            b = b + 1;
        }
        let mut f: usize = 0;
        while f < fresh_names.len()
            invariant
                self.wf(),
                old(self).same_env(self),
                acc.wf(),
                acc.k == self.k,
            decreases fresh_names.len() - f,
        {
            acc = self.exists1(&acc, fresh_names[f].as_str())?;
            f = f + 1;
        }
        Ok(acc)
    }
}

/// Lex, parse and compile a formula in one call; the automatic sequence is
/// indexed by its own name.
pub fn compile_str(k: usize, seq: &Dfao, defs: &Defs, cx: &Ctx, src: &str) -> (r: Result<Dfa, String>)
    requires
        2 <= k,
        k * k * k <= MAX_ALPHA,
        seq.wf(),
        seq.k == k,
        seq.zero_stable_spec(cx.lsd),
        cx.wf(),
        cx.fits(k as nat),
        defs.wf(k as nat),
    ensures
        r matches Ok(d) ==> d.wf() && d.k == k,
        crate::logic::lex_from(src@, 0) is None ==> r is Err,
{
    let toks = lex(src)?;
    let mut p = Parser::new(toks, seq.name.as_str());
    let ast = p.parse()?;
    let mut c = Compiler::new(k, seq, defs, cx);
    c.compile(&ast)
}
} // verus!
