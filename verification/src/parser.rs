//! The formula grammar: a recursive-descent parser from tokens to syntax trees.
//!
//! Precedence, loosest first: `<=>`, `=>` (right associative), `|`, `&`,
//! negation, then quantifiers and atoms.
use vstd::prelude::*;
use crate::logic::{Tok, TokV, Lin};
use crate::strs::str_to_string;

verus! {

/// A comparison between two terms.
#[derive(Clone, Copy, Debug)]
pub enum Rel {
    Eq,
    Ne,
    Lt,
    Le,
    Gt,
    Ge,
}

/// A parsed formula.
pub enum Ast {
    Cmp(Lin, Rel, Lin),
    SeqLetter(Lin, Rel, u8),
    SeqSeq(Lin, Rel, Lin),
    Not(Box<Ast>),
    And(Box<Ast>, Box<Ast>),
    Or(Box<Ast>, Box<Ast>),
    Imp(Box<Ast>, Box<Ast>),
    Iff(Box<Ast>, Box<Ast>),
    Forall(Vec<String>, Box<Ast>),
    Exists(Vec<String>, Box<Ast>),
    Bool(bool),
    Call(String, Vec<Lin>),
    IsPow(Lin),
}

/// Every linear form inside the formula is well formed.
pub open spec fn ast_wf(a: Ast) -> bool
    decreases a,
{
    match a {
        Ast::Cmp(l, _, r) => l.wf() && r.wf(),
        Ast::SeqLetter(l, _, _) => l.wf(),
        Ast::SeqSeq(l, _, r) => l.wf() && r.wf(),
        Ast::Not(x) => ast_wf(*x),
        Ast::And(x, y) => ast_wf(*x) && ast_wf(*y),
        Ast::Or(x, y) => ast_wf(*x) && ast_wf(*y),
        Ast::Imp(x, y) => ast_wf(*x) && ast_wf(*y),
        Ast::Iff(x, y) => ast_wf(*x) && ast_wf(*y),
        Ast::Forall(_, x) => ast_wf(*x),
        Ast::Exists(_, x) => ast_wf(*x),
        Ast::Bool(_) => true,
        Ast::Call(_, args) => forall|i: int| 0 <= i < args@.len() ==> (#[trigger] args@[i]).wf(),
        Ast::IsPow(l) => l.wf(),
    }
}

/// The relation a token spells, if any.
pub open spec fn rel_of(t: TokV) -> Option<Rel> {
    match t {
        TokV::Sym(s) => if s == "<="@ {
            Some(Rel::Le)
        } else if s == ">="@ {
            Some(Rel::Ge)
        } else if s == "!="@ {
            Some(Rel::Ne)
        } else if s == "~="@ {
            Some(Rel::Ne)
        } else if s == "="@ {
            Some(Rel::Eq)
        } else if s == "<"@ {
            Some(Rel::Lt)
        } else if s == ">"@ {
            Some(Rel::Gt)
        } else {
            None
        },
        _ => None,
    }
}

/// A recursive-descent parser over a token list, which knows the name of
/// the automatic sequence so that `T[...]` is read as a sequence term.
pub struct Parser {
    pub t: Vec<Tok>,
    pub i: usize,
    pub seqname: String,
}

impl Parser {
    /// The position lies within the tokens.
    pub open spec fn wf(&self) -> bool {
        self.i <= self.t.len()
    }

    /// `p` is this parser moved forward, over the same tokens.
    pub open spec fn advanced(&self, p: &Parser) -> bool {
        &&& p.t@ == self.t@
        &&& p.seqname@ == self.seqname@
        &&& self.i <= p.i <= p.t.len()
    }

    /// A parser at the start of `t`.
    pub fn new(t: Vec<Tok>, seqname: &str) -> (r: Parser)
        ensures
            r.wf(),
            r.t@ == t@,
            r.i == 0,
            r.seqname@ == seqname@,
    {
        Parser { t, i: 0, seqname: str_to_string(seqname) }
    }

    /// The token at `j` is the symbol `s`.
    fn sym_at(&self, j: usize, s: &str) -> (r: bool)
        ensures
            r == (j < self.t.len() && self.t@[j as int].view() == TokV::Sym(s@)),
    {
        if j >= self.t.len() {
            return false;
        }
        match &self.t[j] {
            Tok::Sym(x) => crate::strs::str_eq(x.as_str(), s),
            _ => false,
        }
    }

    /// The token at `j` is the identifier `s`.
    fn id_is(&self, j: usize, s: &str) -> (r: bool)
        ensures
            r == (j < self.t.len() && self.t@[j as int].view() == TokV::Id(s@)),
    {
        if j >= self.t.len() {
            return false;
        }
        match &self.t[j] {
            Tok::Id(x) => crate::strs::str_eq(x.as_str(), s),
            _ => false,
        }
    }

    /// The token at `j`, if it is an identifier.
    fn id_at(&self, j: usize) -> (r: Option<String>)
        ensures
            r matches Some(x) ==> j < self.t.len() && self.t@[j as int].view() == TokV::Id(x@),
            r is None ==> !(j < self.t.len() && self.t@[j as int] is Id),
    {
        if j >= self.t.len() {
            return None;
        }
        match &self.t[j] {
            Tok::Id(x) => Some(str_to_string(x.as_str())),
            _ => None,
        }
    }

    /// The token at `j`, if it is a number.
    fn num_at(&self, j: usize) -> (r: Option<u64>)
        ensures
            r matches Some(n) ==> j < self.t.len() && self.t@[j as int].view() == TokV::Num(n as nat),
            r is None <==> !(j < self.t.len() && self.t@[j as int] is Num),
    {
        if j >= self.t.len() {
            return None;
        }
        match &self.t[j] {
            Tok::Num(n) => Some(*n),
            _ => None,
        }
    }

    /// Consume the symbol `s` if it comes next.
    fn eat_sym(&mut self, s: &str) -> (r: bool)
        requires
            old(self).wf(),
        ensures
            old(self).advanced(final(self)),
            r ==> final(self).i == old(self).i + 1,
            !r ==> final(self).i == old(self).i,
            r == (old(self).i < old(self).t.len() && old(self).t@[old(self).i as int].view() == TokV::Sym(s@)),
    {
        if self.sym_at(self.i, s) {
            self.i = self.i + 1;
            true
        } else {
            false
        }
    }

    /// Consume the symbol `s`, or fail.
    fn expect_sym(&mut self, s: &str) -> (r: Result<(), String>)
        requires
            old(self).wf(),
        ensures
            old(self).advanced(final(self)),
            r is Ok ==> final(self).i == old(self).i + 1,
            r is Err ==> final(self).i == old(self).i,
            r is Ok <==> (old(self).i < old(self).t.len() && old(self).t@[old(self).i as int].view() == TokV::Sym(s@)),
    {
        if self.eat_sym(s) {
            Ok(())
        } else {
            Err(str_to_string("expected symbol"))
        }
    }

    /// Consume an identifier if one comes next.
    fn eat_id(&mut self) -> (r: Option<String>)
        requires
            old(self).wf(),
        ensures
            old(self).advanced(final(self)),
            r is Some ==> final(self).i == old(self).i + 1,
            r is None ==> final(self).i == old(self).i,
            r matches Some(x) ==> old(self).t@[old(self).i as int].view() == TokV::Id(x@),
            r is None <==> !(old(self).i < old(self).t.len() && old(self).t@[old(self).i as int] is Id),
    {
        match self.id_at(self.i) {
            Some(x) => {
                self.i = self.i + 1;
                Some(x)
            },
            None => None,
        }
    }

    /// Parse a whole formula; input left over is an error.
    pub fn parse(&mut self) -> (r: Result<Ast, String>)
        requires
            old(self).wf(),
        ensures
            old(self).advanced(final(self)),
            r is Ok ==> final(self).i == final(self).t.len(),
            r matches Ok(a) ==> ast_wf(a),
            old(self).i == old(self).t.len() ==> r is Err,
    {
        let a = self.p_iff()?;
        if self.i != self.t.len() {
            return Err(str_to_string("trailing input"));
        }
        Ok(a)
    }

    fn p_iff(&mut self) -> (r: Result<Ast, String>)
        requires
            old(self).wf(),
        ensures
            old(self).advanced(final(self)),
            r is Ok ==> final(self).i > old(self).i,
            r matches Ok(a) ==> ast_wf(a),
        decreases old(self).t.len() - old(self).i, 8nat,
    {
        let mut a = self.p_imp()?;
        let ghost start = old(self).i;
        while self.eat_sym("<=>")
            invariant
                self.wf(),
                self.t@ == old(self).t@,
                self.seqname@ == old(self).seqname@,
                self.i > start,
                start == old(self).i,
                ast_wf(a),
            decreases self.t.len() - self.i,
        {
            let b = self.p_imp()?;
            a = Ast::Iff(Box::new(a), Box::new(b));
        }
        Ok(a)
    }

    fn p_imp(&mut self) -> (r: Result<Ast, String>)
        requires
            old(self).wf(),
        ensures
            old(self).advanced(final(self)),
            r is Ok ==> final(self).i > old(self).i,
            r matches Ok(a) ==> ast_wf(a),
        decreases old(self).t.len() - old(self).i, 7nat,
    {
        let a = self.p_or()?;
        if self.eat_sym("=>") {
            let b = self.p_imp()?;
            return Ok(Ast::Imp(Box::new(a), Box::new(b)));
        }
        Ok(a)
    }

    fn p_or(&mut self) -> (r: Result<Ast, String>)
        requires
            old(self).wf(),
        ensures
            old(self).advanced(final(self)),
            r is Ok ==> final(self).i > old(self).i,
            r matches Ok(a) ==> ast_wf(a),
        decreases old(self).t.len() - old(self).i, 6nat,
    {
        let mut a = self.p_and()?;
        let ghost start = old(self).i;
        while self.eat_sym("|")
            invariant
                self.wf(),
                self.t@ == old(self).t@,
                self.seqname@ == old(self).seqname@,
                self.i > start,
                start == old(self).i,
                ast_wf(a),
            decreases self.t.len() - self.i,
        {
            let b = self.p_and()?;
            a = Ast::Or(Box::new(a), Box::new(b));
        }
        Ok(a)
    }

    fn p_and(&mut self) -> (r: Result<Ast, String>)
        requires
            old(self).wf(),
        ensures
            old(self).advanced(final(self)),
            r is Ok ==> final(self).i > old(self).i,
            r matches Ok(a) ==> ast_wf(a),
        decreases old(self).t.len() - old(self).i, 5nat,
    {
        let mut a = self.p_not()?;
        let ghost start = old(self).i;
        while self.eat_sym("&")
            invariant
                self.wf(),
                self.t@ == old(self).t@,
                self.seqname@ == old(self).seqname@,
                self.i > start,
                start == old(self).i,
                ast_wf(a),
            decreases self.t.len() - self.i,
        {
            let b = self.p_not()?;
            a = Ast::And(Box::new(a), Box::new(b));
        }
        Ok(a)
    }

    fn p_not(&mut self) -> (r: Result<Ast, String>)
        requires
            old(self).wf(),
        ensures
            old(self).advanced(final(self)),
            r is Ok ==> final(self).i > old(self).i,
            r matches Ok(a) ==> ast_wf(a),
        decreases old(self).t.len() - old(self).i, 4nat,
    {
        if self.eat_sym("~") || self.eat_sym("!") {
            let a = self.p_not()?;
            return Ok(Ast::Not(Box::new(a)));
        }
        self.p_primary()
    }

    fn p_primary(&mut self) -> (r: Result<Ast, String>)
        requires
            old(self).wf(),
        ensures
            old(self).advanced(final(self)),
            r is Ok ==> final(self).i > old(self).i,
            r matches Ok(a) ==> ast_wf(a),
        decreases old(self).t.len() - old(self).i, 3nat,
    {
        // "(" opens either a sub-formula or a parenthesised term; the formula
        // reading wins unless a relation symbol follows the closing bracket.
        if self.sym_at(self.i, "(") {
            let save = self.i;
            self.i = self.i + 1;
            let ok = self.p_iff();
            match ok {
                Ok(a) => {
                    if self.eat_sym(")") {
                        let j = self.i;
                        let is_rel = self.sym_at(j, "=") || self.sym_at(j, "!=") || self.sym_at(j, "~=") || self.sym_at(j, "<")
                            || self.sym_at(j, "<=") || self.sym_at(j, ">") || self.sym_at(j, ">=");
                        if !is_rel {
                            return Ok(a);
                        }
                    }
                    self.i = save;
                },
                Err(_) => {
                    self.i = save;
                },
            }
        }
        let isq = self.id_is(self.i, "A") || self.id_is(self.i, "E") || self.id_is(self.i, "forall") || self.id_is(
            self.i,
            "exists",
        );
        if isq {
            let univ = self.id_is(self.i, "A") || self.id_is(self.i, "forall");
            let save = self.i;
            self.i = self.i + 1;
            let mut vs: Vec<String> = Vec::new();
            let mut more = true;
            while more
                invariant
                    self.wf(),
                    self.t@ == old(self).t@,
                    self.seqname@ == old(self).seqname@,
                    self.i > old(self).i,
                    save == old(self).i,
                decreases self.t.len() - self.i, if more { 1nat } else { 0nat },
            {
                match self.eat_id() {
                    Some(v) => {
                        vs.push(v);
                        if !self.eat_sym(",") {
                            more = false;
                        }
                    },
                    None => {
                        more = false;
                    },
                }
            }
            if vs.len() == 0 {
                self.i = save;
            } else {
                self.eat_sym(".");
                let body = self.p_iff()?;
                if univ {
                    return Ok(Ast::Forall(vs, Box::new(body)));
                } else {
                    return Ok(Ast::Exists(vs, Box::new(body)));
                }
            }
        }
        self.p_atom()
    }

    /// The next two tokens are the sequence's name and `[`.
    fn at_seq(&self) -> (r: bool)
        ensures
            r == (self.i + 1 < self.t.len() && self.t@[self.i as int].view() == TokV::Id(self.seqname@)
                && self.t@[self.i + 1].view() == TokV::Sym("["@)),
    {
        match self.id_at(self.i) {
            Some(w) => crate::strs::str_eq(w.as_str(), self.seqname.as_str()) && self.i < usize::MAX && self.sym_at(self.i + 1, "["),
            None => false,
        }
    }

    /// `T[ term ]`.
    fn p_seqindex(&mut self) -> (r: Result<Lin, String>)
        requires
            old(self).wf(),
            old(self).i < old(self).t.len(),
        ensures
            old(self).advanced(final(self)),
            r is Ok ==> final(self).i > old(self).i,
            r matches Ok(l) ==> l.wf(),
    {
        self.i = self.i + 1;
        self.expect_sym("[")?;
        let t = self.p_lin()?;
        self.expect_sym("]")?;
        Ok(t)
    }

    /// A relation symbol.
    fn p_rel(&mut self) -> (r: Result<Rel, String>)
        requires
            old(self).wf(),
        ensures
            old(self).advanced(final(self)),
            r is Ok ==> final(self).i == old(self).i + 1,
            r is Err ==> final(self).i == old(self).i,
            match (if old(self).i < old(self).t.len() { rel_of(old(self).t@[old(self).i as int].view()) } else { None }) {
                Some(x) => r == Ok::<Rel, String>(x),
                None => r is Err,
            },
    {
        if self.eat_sym("<=") {
            Ok(Rel::Le)
        } else if self.eat_sym(">=") {
            Ok(Rel::Ge)
        } else if self.eat_sym("!=") {
            Ok(Rel::Ne)
        } else if self.eat_sym("~=") {
            Ok(Rel::Ne)
        } else if self.eat_sym("=") {
            Ok(Rel::Eq)
        } else if self.eat_sym("<") {
            Ok(Rel::Lt)
        } else if self.eat_sym(">") {
            Ok(Rel::Gt)
        } else {
            Err(str_to_string("expected relation"))
        }
    }

    fn p_atom(&mut self) -> (r: Result<Ast, String>)
        requires
            old(self).wf(),
        ensures
            old(self).advanced(final(self)),
            r is Ok ==> final(self).i > old(self).i,
            r matches Ok(a) ==> ast_wf(a),
    {
        if self.id_is(self.i, "pow") && self.i < usize::MAX && self.sym_at(self.i + 1, "(") {
            self.i = self.i + 2;
            let t = self.p_lin()?;
            self.expect_sym(")")?;
            return Ok(Ast::IsPow(t));
        }
        if self.eat_sym("$") {
            let name = match self.eat_id() {
                Some(n) => n,
                None => {
                    return Err(str_to_string("expected name after $"));
                },
            };
            let mut args: Vec<Lin> = Vec::new();
            if self.eat_sym("(") {
                let mut more = true;
                while more
                    invariant
                        self.wf(),
                        self.t@ == old(self).t@,
                        self.seqname@ == old(self).seqname@,
                        self.i > old(self).i,
                        forall|j: int| 0 <= j < args@.len() ==> (#[trigger] args@[j]).wf(),
                    decreases self.t.len() - self.i, if more { 1nat } else { 0nat },
                {
                    let l = self.p_lin()?;
                    args.push(l);
                    if !self.eat_sym(",") {
                        more = false;
                    }
                }
                self.expect_sym(")")?;
            }
            return Ok(Ast::Call(name, args));
        }
        if self.id_is(self.i, "true") {
            self.i = self.i + 1;
            return Ok(Ast::Bool(true));
        }
        if self.id_is(self.i, "false") {
            self.i = self.i + 1;
            return Ok(Ast::Bool(false));
        }
        if self.at_seq() {
            if self.i >= self.t.len() {
                return Err(str_to_string("expected term"));
            }
            let t1 = self.p_seqindex()?;
            let r = self.p_rel()?;
            if !(matches!(r, Rel::Eq) || matches!(r, Rel::Ne)) {
                return Err(str_to_string("only = and != allowed on sequence values"));
            }
            if self.at_seq() {
                if self.i >= self.t.len() {
                    return Err(str_to_string("expected term"));
                }
                let t2 = self.p_seqindex()?;
                return Ok(Ast::SeqSeq(t1, r, t2));
            }
            match self.num_at(self.i) {
                Some(n) => {
                    self.i = self.i + 1;
                    return Ok(Ast::SeqLetter(t1, r, (n % 256) as u8));
                },
                None => {
                    return Err(str_to_string("expected a letter or a sequence term on the right"));
                },
            }
        }
        let l = self.p_lin()?;
        let r = self.p_rel()?;
        if self.at_seq() {
            return Err(str_to_string("sequence term on right of arithmetic comparison"));
        }
        let rr = self.p_lin()?;
        Ok(Ast::Cmp(l, r, rr))
    }

    /// A signed sum of products.
    fn p_lin(&mut self) -> (r: Result<Lin, String>)
        requires
            old(self).wf(),
        ensures
            old(self).advanced(final(self)),
            r is Ok ==> final(self).i > old(self).i,
            r matches Ok(l) ==> l.wf(),
        decreases old(self).t.len() - old(self).i, 1nat,
    {
        let mut sign: i64 = 1;
        if self.eat_sym("-") {
            sign = -1;
        } else {
            self.eat_sym("+");
        }
        let first = self.p_prod()?;
        let mut acc = first.scale(sign);
        let mut more = true;
        while more
            invariant
                self.wf(),
                self.t@ == old(self).t@,
                self.seqname@ == old(self).seqname@,
                self.i > old(self).i,
                acc.wf(),
            decreases self.t.len() - self.i, if more { 1nat } else { 0nat },
        {
            if self.eat_sym("+") {
                let b = self.p_prod()?;
                acc = acc.add(&b, 1);
            } else if self.eat_sym("-") {
                let b = self.p_prod()?;
                acc = acc.add(&b, -1);
            } else {
                more = false;
            }
        }
        Ok(acc)
    }

    /// A number, a variable, a product of a number and a variable, or a
    /// bracketed term.
    fn p_prod(&mut self) -> (r: Result<Lin, String>)
        requires
            old(self).wf(),
        ensures
            old(self).advanced(final(self)),
            r is Ok ==> final(self).i > old(self).i,
            r matches Ok(l) ==> l.wf(),
        decreases old(self).t.len() - old(self).i, 0nat,
    {
        match self.num_at(self.i) {
            Some(n) => {
                self.i = self.i + 1;
                if self.eat_sym("*") {
                    match self.eat_id() {
                        Some(v) => {
                            return Ok(Lin::var(v.as_str()).scale(#[verifier::truncate] (n as i64)));
                        },
                        None => {
                            return Err(str_to_string("expected variable after *"));
                        },
                    }
                }
                return Ok(Lin::num(#[verifier::truncate] (n as i64)));
            },
            None => {},
        }
        match self.id_at(self.i) {
            Some(v) => {
                self.i = self.i + 1;
                if self.eat_sym("*") {
                    match self.num_at(self.i) {
                        Some(n) => {
                            self.i = self.i + 1;
                            return Ok(Lin::var(v.as_str()).scale(#[verifier::truncate] (n as i64)));
                        },
                        None => {
                            return Err(str_to_string("expected number after *"));
                        },
                    }
                }
                return Ok(Lin::var(v.as_str()));
            },
            None => {},
        }
        if self.eat_sym("(") {
            let t = self.p_lin()?;
            self.expect_sym(")")?;
            return Ok(t);
        }
        Err(str_to_string("expected term"))
    }
}
} // verus!
