//! Self-verifying predicate classes: their names, the recurrences that define
//! them, and the word encoding of argument tuples.
use vstd::prelude::*;
use crate::parser::{Ast, Parser, ast_wf};
use crate::logic::lex;
use crate::ops::Ctx;
use crate::dfa::{MAX_ALPHA, spow};
use crate::strs::{names, str_eq, str_to_string};

verus! {

/// The name the recurrence's own predicate is given inside its sentences.
pub const HOLE: &'static str = "__H";

/// Encode a tuple of values as a word (see `codec::encode_word`).
pub fn encode(k: usize, vals: &[u64], cx: &Ctx) -> (r: Vec<usize>)
    requires
        2 <= k <= MAX_ALPHA,
        spow(k as nat, vals@.len() as nat) <= MAX_ALPHA,
        cx.wf(),
        cx.fits(k as nat),
    ensures
        r@.len() >= 1,
        cx.ns is None ==> r@.len() == crate::codec::max_ndigits(vals@, k as nat),
        cx.ns is None ==> forall|c: nat| c < vals@.len() ==> #[trigger] crate::codec::digit_track(r@, c, k as nat)
            == crate::codec::placed(crate::dfao::kdigits(vals@[c as int] as nat, k as nat), r@.len(), cx.lsd),
{
    crate::codec::encode_word(k, vals, cx)
}

/// The values a word carries (see `codec::decode_word`).
pub fn decode(k: usize, n: usize, w: &[usize], cx: &Ctx) -> (r: Option<Vec<u64>>)
    requires
        2 <= k <= MAX_ALPHA,
        spow(k as nat, n as nat) <= MAX_ALPHA,
        cx.wf(),
        cx.fits(k as nat),
    ensures
        r matches Some(v) ==> v@.len() == n,
        cx.ns is None ==> (r matches Some(v) ==> forall|c: nat| c < n ==> v@[c as int] == #[trigger] crate::base::val(
            crate::base::track(w@, c, k as nat), k as nat, cx.lsd)),
        cx.ns is None ==> (r is Some <==> ((cx.lsd ==> (w@.len() == 0 || spow(k as nat, (w@.len() - 1) as nat) <= u64::MAX))
            && forall|c: nat| c < n ==> #[trigger] crate::base::val(crate::base::track(w@, c, k as nat), k as nat, cx.lsd) <= u64::MAX)),
{
    crate::codec::decode_word(k, n, w, cx)
}

/// Which self-verifying predicate class is being learned.
#[derive(Clone, Copy, Debug)]
pub enum Kind {
    Fe,
    Rev,
    Period,
    Border,
    Custom,
}

impl Kind {
    /// The class's name as written in commands.
    pub fn name(self) -> (r: &'static str)
        ensures
            self is Fe ==> r@ == "fe"@,
            self is Rev ==> r@ == "rev"@,
            self is Period ==> r@ == "period"@,
            self is Border ==> r@ == "border"@,
            self is Custom ==> r@ == "custom"@,
    {
        match self {
            Kind::Fe => "fe",
            Kind::Rev => "rev",
            Kind::Period => "period",
            Kind::Border => "border",
            Kind::Custom => "custom",
        }
    }

    /// The class named by the kind word of a `learn` command.
    pub fn parse(s: &str) -> (r: Option<Kind>)
        ensures
            r == kind_of(s@),
    {
        if str_eq(s, "fe") || str_eq(s, "FE") || str_eq(s, "eq") {
            Some(Kind::Fe)
        } else if str_eq(s, "rev") || str_eq(s, "REV") || str_eq(s, "reverse") || str_eq(s, "reversed") {
            Some(Kind::Rev)
        } else if str_eq(s, "period") || str_eq(s, "PERIOD") || str_eq(s, "per") {
            Some(Kind::Period)
        } else if str_eq(s, "border") || str_eq(s, "BORDER") || str_eq(s, "bor") {
            Some(Kind::Border)
        } else {
            None
        }
    }
}

/// The class a kind word names: `fe`, `FE` or `eq`; `rev`, `REV`, `reverse`
/// or `reversed`; `period`, `PERIOD` or `per`; `border`, `BORDER` or `bor`.
pub open spec fn kind_of(s: Seq<char>) -> Option<Kind> {
    if s == "fe"@ || s == "FE"@ || s == "eq"@ {
        Some(Kind::Fe)
    } else if s == "rev"@ || s == "REV"@ || s == "reverse"@ || s == "reversed"@ {
        Some(Kind::Rev)
    } else if s == "period"@ || s == "PERIOD"@ || s == "per"@ {
        Some(Kind::Period)
    } else if s == "border"@ || s == "BORDER"@ || s == "bor"@ {
        Some(Kind::Border)
    } else {
        None
    }
}

/// `a` with every call of `from` renamed to `to`.
/// `r` is `a` with every call of `from` made a call of `to`.
pub open spec fn renamed(a: Ast, r: Ast, from: Seq<char>, to: Seq<char>) -> bool
    decreases a,
{
    match a {
        Ast::Call(nm, args) => r matches Ast::Call(nm2, args2) && args2 == args
            && (if nm@ == from { nm2@ == to } else { nm2 == nm }),
        Ast::Not(x) => r matches Ast::Not(x2) && renamed(*x, *x2, from, to),
        Ast::And(x, y) => r matches Ast::And(x2, y2) && renamed(*x, *x2, from, to) && renamed(*y, *y2, from, to),
        Ast::Or(x, y) => r matches Ast::Or(x2, y2) && renamed(*x, *x2, from, to) && renamed(*y, *y2, from, to),
        Ast::Imp(x, y) => r matches Ast::Imp(x2, y2) && renamed(*x, *x2, from, to) && renamed(*y, *y2, from, to),
        Ast::Iff(x, y) => r matches Ast::Iff(x2, y2) && renamed(*x, *x2, from, to) && renamed(*y, *y2, from, to),
        Ast::Forall(vs, x) => r matches Ast::Forall(vs2, x2) && vs2 == vs && renamed(*x, *x2, from, to),
        Ast::Exists(vs, x) => r matches Ast::Exists(vs2, x2) && vs2 == vs && renamed(*x, *x2, from, to),
        _ => r == a,
    }
}

pub fn rename_calls(a: Ast, from: &str, to: &str) -> (r: Ast)
    requires
        ast_wf(a),
    ensures
        ast_wf(r),
        renamed(a, r, from@, to@),
    decreases a,
{
    match a {
        Ast::Call(nm, args) => {
            if str_eq(nm.as_str(), from) {
                Ast::Call(str_to_string(to), args)
            } else {
                Ast::Call(nm, args)
            }
        },
        Ast::Not(x) => Ast::Not(Box::new(rename_calls(*x, from, to))),
        Ast::And(x, y) => Ast::And(Box::new(rename_calls(*x, from, to)), Box::new(rename_calls(*y, from, to))),
        Ast::Or(x, y) => Ast::Or(Box::new(rename_calls(*x, from, to)), Box::new(rename_calls(*y, from, to))),
        Ast::Imp(x, y) => Ast::Imp(Box::new(rename_calls(*x, from, to)), Box::new(rename_calls(*y, from, to))),
        Ast::Iff(x, y) => Ast::Iff(Box::new(rename_calls(*x, from, to)), Box::new(rename_calls(*y, from, to))),
        Ast::Forall(vs, x) => Ast::Forall(vs, Box::new(rename_calls(*x, from, to))),
        Ast::Exists(vs, x) => Ast::Exists(vs, Box::new(rename_calls(*x, from, to))),
        other => other,
    }
}

/// Parse a recurrence sentence over the sequence named `word`, with the
/// predicate being learned written `$H`.
fn parse_formula(src: &str, word: &str) -> (r: Result<Ast, String>)
    ensures
        r matches Ok(a) ==> ast_wf(a),
{
    let toks = lex(src)?;
    let mut p = Parser::new(toks, word);
    let a = p.parse()?;
    Ok(rename_calls(a, "H", HOLE))
}

/// What the learner needs for one predicate: its parameters in call order and
/// sorted (the automaton's track order), each parameter's track, the
/// sentences that must hold identically, and the coordinate the induction
/// runs on.
pub struct Spec {
    pub kind: Kind,
    pub params: Vec<String>,
    pub sorted: Vec<String>,
    pub pos: Vec<usize>,
    pub sentences: Vec<(String, Ast)>,
    pub rec: usize,
    pub init: Option<Ast>,
    pub step: Option<Ast>,
}

impl Spec {
    /// The sentences are well formed and each parameter's track is a track.
    pub open spec fn wf(&self) -> bool {
        &&& self.pos@.len() == self.params@.len()
        &&& self.sorted@.len() == self.params@.len()
        &&& crate::strs::strictly_sorted(names(self.sorted@))
        &&& forall|i: int| 0 <= i < self.pos@.len() ==> (#[trigger] self.pos@[i] as int) < self.pos@.len()
        &&& forall|i: int| 0 <= i < self.sentences@.len() ==> ast_wf(#[trigger] self.sentences@[i].1)
    }
}

/// A specification from parameter names and parsed sentences.
fn mk_spec(kind: Kind, params: &[&str], rec: usize, sents: &[&str]) -> (r: Result<Spec, String>)
    ensures
        r matches Ok(s) ==> s.wf() && s.kind == kind,
        r matches Ok(s) ==> s.rec == rec && s.params@.len() == params@.len() && s.sentences@.len() == sents@.len()
            && (forall|i: int| 0 <= i < params@.len() ==> (#[trigger] s.params@[i])@ == params@[i]@)
            && s.pos@.len() == params@.len() && s.sorted@.len() == params@.len()
            && (forall|i: int| 0 <= i < s.pos@.len() ==> (#[trigger] s.pos@[i] as int) < s.sorted@.len()
                && names(s.sorted@)[s.pos@[i] as int] == params@[i]@),
{
    let mut ps: Vec<String> = Vec::new();
    let mut i: usize = 0;
    while i < params.len()
        invariant
            i <= params.len(),
            ps@.len() == i,
            forall|j: int| 0 <= j < i ==> (#[trigger] ps@[j])@ == params@[j]@,
        decreases params.len() - i,
    {
        ps.push(str_to_string(params[i]));
        i = i + 1;
    }
    let sorted = match crate::strs::sort_distinct(&ps) {
        Some(s) => s,
        None => {
            return Err(str_to_string("duplicate parameter name"));
        },
    };
    let mut pos: Vec<usize> = Vec::new();
    let mut d: usize = 0;
    while d < ps.len()
        invariant
            d <= ps.len(),
            ps@.len() == params@.len(),
            sorted@.len() == ps@.len(),
            forall|j: int| 0 <= j < ps@.len() ==> (#[trigger] ps@[j])@ == params@[j]@,
            forall|x: Seq<char>| names(sorted@).contains(x) <==> names(ps@).contains(x),
            crate::strs::strictly_sorted(names(sorted@)),
            pos@.len() == d,
            forall|j: int| 0 <= j < d ==> (#[trigger] pos@[j] as int) < sorted@.len() && names(sorted@)[pos@[j] as int] == params@[j]@,
        decreases ps.len() - d,
    {
        proof {
            assert(names(ps@)[d as int] == ps@[d as int]@);
            assert(names(ps@).contains(ps@[d as int]@));
        }
        match crate::strs::position(&sorted, ps[d].as_str()) {
            Some(p) => {
                proof {
                    crate::strs::lemma_first_index(names(sorted@), ps@[d as int]@);
                }
                pos.push(p);
            },
            None => {
                return Err(str_to_string("parameter lost in sorting"));
            },
        }
        d = d + 1;
    }
    let mut sentences: Vec<(String, Ast)> = Vec::new();
    let mut j: usize = 0;
    while j < sents.len()
        invariant
            j <= sents.len(),
            sentences@.len() == j,
            forall|x: int| 0 <= x < j ==> ast_wf(#[trigger] sentences@[x].1),
        decreases sents.len() - j,
    {
        let a = parse_formula(sents[j], "T")?;
        sentences.push((str_to_string(sents[j]), a));
        j = j + 1;
    }
    Ok(Spec { kind, params: ps, sorted, pos, sentences, rec, init: None, step: None })
}

impl Spec {
    /// The recurrence of a built-in class: equal factors (`fe`), reversed
    /// factors (`rev`), periods (`period`) and borders (`border`).
    pub fn builtin(kind: Kind) -> (r: Result<Spec, String>)
        ensures
            kind is Custom ==> r is Err,
            r matches Ok(s) ==> s.wf() && s.kind == kind,
            r matches Ok(s) ==> s.params@.len() == 3 && s.pos@.len() == 3 && s.sorted@.len() == 3,
            r matches Ok(s) ==> (kind is Fe || kind is Rev) ==> s.rec == 2 && s.sentences@.len() == 2,
            r matches Ok(s) ==> kind is Period ==> s.rec == 1 && s.sentences@.len() == 2,
            r matches Ok(s) ==> kind is Border ==> s.rec == 1 && s.sentences@.len() == 3,
    {
        match kind {
            Kind::Fe => mk_spec(Kind::Fe, &["i", "j", "l"], 2, &["$H(i,j,0)", "($H(i,j,l+1)) <=> ((T[i] = T[j]) & ($H(i+1,j+1,l)))"]),
            Kind::Rev => mk_spec(Kind::Rev, &["i", "j", "l"], 2, &["$H(i,j,0)", "($H(i,j,l+1)) <=> ((T[i] = T[j+l]) & ($H(i+1,j,l)))"]),
            Kind::Period => mk_spec(
                Kind::Period,
                &["i", "l", "p"],
                1,
                &["$H(i,0,p)", "($H(i,l+1,p)) <=> ((l+1 <= p) | ((T[i] = T[i+p]) & ($H(i+1,l,p))))"],
            ),
            Kind::Border => mk_spec(
                Kind::Border,
                &["i", "l", "b"],
                1,
                &["$H(i,l,0)", "($H(i,0,b)) <=> (b = 0)", "($H(i,l+1,b+1)) <=> ((T[i+b] = T[i+l]) & ($H(i,l,b)))"],
            ),
            Kind::Custom => Err(str_to_string("custom kind needs init:/step:")),
        }
    }
}
} // verus!
