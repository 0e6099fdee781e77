//! First-order logic over `<N, +, <, 0, V_k>` extended by an automatic sequence `T`:
//! tokens, linear terms, the parser and the compiler of formulas into automata.
use vstd::prelude::*;

verus! {

/// Unicode `White_Space`, the property `char::is_whitespace` tests.
pub open spec fn is_ws(c: char) -> bool {
    let x = c as u32;
    (0x9 <= x <= 0xd) || x == 0x20 || x == 0x85 || x == 0xa0 || x == 0x1680
        || (0x2000 <= x <= 0x200a) || x == 0x2028 || x == 0x2029 || x == 0x202f
        || x == 0x205f || x == 0x3000
}

/// An ASCII letter.
pub open spec fn is_alpha(c: char) -> bool {
    ('a' <= c <= 'z') || ('A' <= c <= 'Z')
}

/// An ASCII decimal digit.
pub open spec fn is_digit(c: char) -> bool {
    '0' <= c <= '9'
}

/// A character that may continue an identifier.
pub open spec fn is_ident(c: char) -> bool {
    is_alpha(c) || is_digit(c) || c == '_'
}

pub fn char_ws(c: char) -> (r: bool)
    ensures
        r == is_ws(c),
{
    let x = c as u32;
    (0x9 <= x && x <= 0xd) || x == 0x20 || x == 0x85 || x == 0xa0 || x == 0x1680
        || (0x2000 <= x && x <= 0x200a) || x == 0x2028 || x == 0x2029 || x == 0x202f
        || x == 0x205f || x == 0x3000
}

pub fn char_alpha(c: char) -> (r: bool)
    ensures
        r == is_alpha(c),
{
    ('a' <= c && c <= 'z') || ('A' <= c && c <= 'Z')
}

pub fn char_digit(c: char) -> (r: bool)
    ensures
        r == is_digit(c),
{
    '0' <= c && c <= '9'
}

pub fn char_ident(c: char) -> (r: bool)
    ensures
        r == is_ident(c),
{
    char_alpha(c) || char_digit(c) || c == '_'
}

/// A token: an identifier, a number or a symbol.
#[derive(Clone, Debug)]
pub enum Tok {
    Id(String),
    Num(u64),
    Sym(String),
}

/// A token's meaning.
pub enum TokV {
    Id(Seq<char>),
    Num(nat),
    Sym(Seq<char>),
}

impl Tok {
    pub open spec fn view(&self) -> TokV {
        match self {
            Tok::Id(s) => TokV::Id(s@),
            Tok::Num(n) => TokV::Num(*n as nat),
            Tok::Sym(s) => TokV::Sym(s@),
        }
    }
}

/// The views of a token list.
pub open spec fn toks_view(v: Seq<Tok>) -> Seq<TokV> {
    v.map_values(|t: Tok| t.view())
}

/// The symbols, longest first where one is a prefix of another.
pub open spec fn symbols() -> Seq<Seq<char>> {
    seq![
        seq!['<', '=', '>'], seq!['=', '>'], seq!['<', '='], seq!['>', '='], seq!['!', '='],
        seq!['~', '='], seq!['&'], seq!['|'], seq!['~'], seq!['!'], seq!['('], seq![')'],
        seq!['['], seq![']'], seq![','], seq!['.'], seq!['+'], seq!['-'], seq!['*'], seq!['='],
        seq!['<'], seq!['>'], seq!['$'],
    ]
}

/// `cs[i..]` starts with `p`.
pub open spec fn starts_at(cs: Seq<char>, i: nat, p: Seq<char>) -> bool {
    i + p.len() <= cs.len() && cs.subrange(i as int, (i + p.len()) as int) == p
}

/// The first symbol (in table order) that `cs[i..]` starts with.
pub open spec fn first_symbol(cs: Seq<char>, i: nat, j: nat) -> Option<Seq<char>>
    decreases symbols().len() - j,
{
    if j >= symbols().len() {
        None
    } else if starts_at(cs, i, symbols()[j as int]) {
        Some(symbols()[j as int])
    } else {
        first_symbol(cs, i, j + 1)
    }
}

/// The end of the run of characters satisfying `ident` (or `digit`) from `i`.
pub open spec fn run_end(cs: Seq<char>, i: nat, digits: bool) -> nat
    decreases cs.len() - i,
{
    if i >= cs.len() {
        i
    } else if (if digits { is_digit(cs[i as int]) } else { is_ident(cs[i as int]) }) {
        run_end(cs, i + 1, digits)
    } else {
        i
    }
}

pub proof fn lemma_run_end(cs: Seq<char>, i: nat, digits: bool)
    requires
        i <= cs.len(),
    ensures
        i <= run_end(cs, i, digits) <= cs.len(),
        forall|x: int| i <= x < run_end(cs, i, digits) ==> (if digits { is_digit(#[trigger] cs[x]) } else { is_ident(cs[x]) }),
        run_end(cs, i, digits) < cs.len() ==> !(if digits { is_digit(cs[run_end(cs, i, digits) as int]) } else { is_ident(cs[run_end(cs, i, digits) as int]) }),
    decreases cs.len() - i,
{
    if i < cs.len() {
        lemma_run_end(cs, i + 1, digits);
    }
}

/// Decimal value of a digit string.
pub open spec fn dec_value(cs: Seq<char>) -> nat
    decreases cs.len(),
{
    if cs.len() == 0 {
        0
    } else {
        dec_value(cs.drop_last()) * 10 + ((cs.last() as u32) - ('0' as u32)) as nat
    }
}

/// The tokens of `cs[i..]`, or `None` at a bad number or an unexpected character.
pub open spec fn lex_from(cs: Seq<char>, i: nat) -> Option<Seq<TokV>>
    decreases cs.len() - i,
{
    if i >= cs.len() {
        Some(Seq::empty())
    } else if is_ws(cs[i as int]) {
        lex_from(cs, i + 1)
    } else if is_alpha(cs[i as int]) || cs[i as int] == '_' {
        let j = run_end(cs, i + 1, false);
        proof {
            lemma_run_end(cs, i + 1, false);
        }
        if j <= i {
            None
        } else {
            match lex_from(cs, j) {
                Some(rest) => Some(seq![TokV::Id(cs.subrange(i as int, j as int))] + rest),
                None => None,
            }
        }
    } else if is_digit(cs[i as int]) {
        let j = run_end(cs, i + 1, true);
        proof {
            lemma_run_end(cs, i + 1, true);
        }
        if j <= i || dec_value(cs.subrange(i as int, j as int)) > u64::MAX {
            None
        } else {
            match lex_from(cs, j) {
                Some(rest) => Some(seq![TokV::Num(dec_value(cs.subrange(i as int, j as int)))] + rest),
                None => None,
            }
        }
    } else {
        match first_symbol(cs, i, 0) {
            None => None,
            Some(p) => if p.len() == 0 || i + p.len() > cs.len() {
                None
            } else {
                match lex_from(cs, i + p.len()) {
                    Some(rest) => Some(seq![TokV::Sym(p)] + rest),
                    None => None,
                }
            },
        }
    }
}

/// The message of the first failure `lex` meets from position `i` on (empty when
/// there is none).
pub open spec fn lex_err(cs: Seq<char>, i: nat) -> Seq<char>
    decreases cs.len() - i,
{
    if i >= cs.len() {
        Seq::empty()
    } else if is_ws(cs[i as int]) {
        lex_err(cs, i + 1)
    } else if is_alpha(cs[i as int]) || cs[i as int] == '_' {
        let j = run_end(cs, i + 1, false);
        proof {
            lemma_run_end(cs, i + 1, false);
        }
        if j <= i {
            Seq::empty()
        } else {
            lex_err(cs, j)
        }
    } else if is_digit(cs[i as int]) {
        let j = run_end(cs, i + 1, true);
        proof {
            lemma_run_end(cs, i + 1, true);
        }
        if j <= i {
            Seq::empty()
        } else if dec_value(cs.subrange(i as int, j as int)) > u64::MAX {
            "bad number"@
        } else {
            lex_err(cs, j)
        }
    } else {
        match first_symbol(cs, i, 0) {
            None => unexpected_msg(cs[i as int], i),
            Some(p) => if p.len() == 0 || i + p.len() > cs.len() {
                Seq::empty()
            } else {
                lex_err(cs, i + p.len())
            },
        }
    }
}

/// `unexpected character C at I`, with `C` as `Debug` prints it.
pub open spec fn unexpected_msg(c: char, i: nat) -> Seq<char> {
    "unexpected character "@ + crate::strs::char_debug_text(c) + " at "@ + crate::strs::dec_text(i)
}

/// The `j`-th symbol as a string.
fn symbol_at(j: usize) -> (r: Vec<char>)
    requires
        j < 23,
    ensures
        r@ == symbols()[j as int],
{
    let v: Vec<char> = if j == 0 { vec!['<', '=', '>'] } else if j == 1 { vec!['=', '>'] } else if j == 2 { vec!['<', '='] }
        else if j == 3 { vec!['>', '='] } else if j == 4 { vec!['!', '='] } else if j == 5 { vec!['~', '='] }
        else if j == 6 { vec!['&'] } else if j == 7 { vec!['|'] } else if j == 8 { vec!['~'] } else if j == 9 { vec!['!'] }
        else if j == 10 { vec!['('] } else if j == 11 { vec![')'] } else if j == 12 { vec!['['] } else if j == 13 { vec![']'] }
        else if j == 14 { vec![','] } else if j == 15 { vec!['.'] } else if j == 16 { vec!['+'] } else if j == 17 { vec!['-'] }
        else if j == 18 { vec!['*'] } else if j == 19 { vec!['='] } else if j == 20 { vec!['<'] } else if j == 21 { vec!['>'] }
        else { vec!['$'] };
    proof {
        assert(v@ =~= symbols()[j as int]);
    }
    v
}

/// Does `cs[i..]` start with `p`?
pub fn starts_with_at(cs: &Vec<char>, i: usize, p: &Vec<char>) -> (r: bool)
    ensures
        r == starts_at(cs@, i as nat, p@),
{
    if i > cs.len() || p.len() > cs.len() - i {
        return false;
    }
    let mut j: usize = 0;
    while j < p.len()
        invariant
            i + p.len() <= cs.len(),
            j <= p.len(),
            forall|x: int| 0 <= x < j ==> cs@[i + x] == p@[x],
        decreases p.len() - j,
    {
        if cs[i + j] != p[j] {
            return false;
        }
        j = j + 1;
    }
    assert(cs@.subrange(i as int, i + p.len()) =~= p@);
    true
}

/// Tokenize formula source into identifiers, numbers and symbols (longest
/// match on the symbol table; whitespace separates).
pub fn lex(s: &str) -> (r: Result<Vec<Tok>, String>)
    ensures
        match r {
            Ok(v) => lex_from(s@, 0) == Some(toks_view(v@)),
            Err(e) => lex_from(s@, 0) is None && e@ == lex_err(s@, 0),
        },
{
    let b = crate::strs::str_chars(s);
    let n = b.len();
    let mut i: usize = 0;
    let mut out: Vec<Tok> = Vec::new();
    while i < n
        invariant
            b@ == s@,
            n == b.len(),
            i <= n,
            lex_from(s@, 0) == match lex_from(s@, i as nat) {
                Some(rest) => Some(toks_view(out@) + rest),
                None => None::<Seq<TokV>>,
            },
            lex_err(s@, 0) == lex_err(s@, i as nat),
        decreases n - i,
    {
        let c = b[i];
        let ghost gi = i as nat;
        let ghost pout = out@;
        if char_ws(c) {
            i = i + 1;
            continue;
        }
        if char_alpha(c) || c == '_' {
            let st = i;
            i = i + 1;
            proof {
                lemma_run_end(s@, gi + 1, false);
            }
            while i < n && char_ident(b[i])
                invariant
                    b@ == s@,
                    n == b.len(),
                    st < i <= n,
                    run_end(s@, (st + 1) as nat, false) == run_end(s@, i as nat, false),
                decreases n - i,
            {
                i = i + 1;
            }
            let id = crate::strs::string_of(vstd::slice::slice_subrange(b.as_slice(), st, i));
            out.push(Tok::Id(id));
            proof {
                assert(run_end(s@, i as nat, false) == i);
                assert(toks_view(out@) =~= toks_view(pout) + seq![TokV::Id(s@.subrange(st as int, i as int))]);
            }
            continue;
        }
        if char_digit(c) {
            let st = i;
            i = i + 1;
            while i < n && char_digit(b[i])
                invariant
                    b@ == s@,
                    n == b.len(),
                    st < i <= n,
                    run_end(s@, (st + 1) as nat, true) == run_end(s@, i as nat, true),
                decreases n - i,
            {
                i = i + 1;
            }
            proof {
                assert(run_end(s@, i as nat, true) == i);
                lemma_run_end(s@, (st + 1) as nat, true);
            }
            match parse_dec(&b, st, i) {
                Some(v) => {
                    out.push(Tok::Num(v));
                    proof {
                        assert(toks_view(out@) =~= toks_view(pout) + seq![TokV::Num(v as nat)]);
                    }
                },
                None => {
                    return Err(crate::strs::str_to_string("bad number"));
                },
            }
            continue;
        }
        let mut j: usize = 0;
        let mut found = false;
        while j < 23
            invariant_except_break
                !found,
                first_symbol(s@, i as nat, 0) == first_symbol(s@, i as nat, j as nat),
            invariant
                b@ == s@,
                i < n,
                j <= 23,
            ensures
                found ==> j < 23 && starts_at(s@, i as nat, symbols()[j as int])
                    && first_symbol(s@, i as nat, 0) == Some(symbols()[j as int]),
                !found ==> first_symbol(s@, i as nat, 0) is None,
            decreases 23 - j,
        {
            let cand = symbol_at(j);
            if starts_with_at(&b, i, &cand) {
                found = true;
                break;
            }
            j = j + 1;
        }
        if !found {
            let mut msg: Vec<char> = Vec::new();
            crate::strs::push_str(&mut msg, "unexpected character ");
            let dc = crate::strs::char_debug(c);
            crate::strs::push_str(&mut msg, dc.as_str());
            crate::strs::push_str(&mut msg, " at ");
            crate::strs::push_num(&mut msg, i);
            proof {
                assert(msg@ =~= unexpected_msg(s@[i as int], i as nat));
            }
            return Err(crate::strs::string_of(msg.as_slice()));
        }
        let cand = symbol_at(j);
        let sym = crate::strs::string_of(cand.as_slice());
        out.push(Tok::Sym(sym));
        proof {
            assert(toks_view(out@) =~= toks_view(pout) + seq![TokV::Sym(symbols()[j as int])]);
        }
        i = i + cand.len();
    }
    Ok(out)
}

/// The decimal value of `b[st..en]`, when it fits a `u64`.
pub fn parse_dec(b: &Vec<char>, st: usize, en: usize) -> (r: Option<u64>)
    requires
        st <= en <= b.len(),
        forall|x: int| st <= x < en ==> is_digit(#[trigger] b@[x]),
    ensures
        match r {
            Some(v) => v as nat == dec_value(b@.subrange(st as int, en as int)),
            None => dec_value(b@.subrange(st as int, en as int)) > u64::MAX,
        },
{
    let mut v: u64 = 0;
    let mut i: usize = st;
    proof {
        assert(b@.subrange(st as int, st as int) =~= Seq::<char>::empty());
    }
    while i < en
        invariant
            st <= i <= en <= b.len(),
            forall|x: int| st <= x < en ==> is_digit(#[trigger] b@[x]),
            v as nat == dec_value(b@.subrange(st as int, i as int)),
        decreases en - i,
    {
        let d = (b[i] as u32 - '0' as u32) as u64;
        proof {
            assert(is_digit(b@[i as int]));
            assert(b@.subrange(st as int, i + 1).drop_last() =~= b@.subrange(st as int, i as int));
            assert(b@.subrange(st as int, i + 1).last() == b@[i as int]);
        }
        if v > (u64::MAX - d) / 10 {
            proof {
                assert(v * 10 + d > u64::MAX) by (nonlinear_arith)
                    requires
                        v > (u64::MAX - d) / 10,
                        d <= 9,
                ;
                lemma_dec_mono(b@.subrange(st as int, en as int), (i + 1 - st) as nat);
                assert(b@.subrange(st as int, en as int).take((i + 1 - st) as int) =~= b@.subrange(st as int, i + 1));
            }
            return None;
        }
        v = v * 10 + d;
        i = i + 1;
    }
    Some(v)
}

/// A digit string's value is at least that of any prefix.
pub proof fn lemma_dec_mono(cs: Seq<char>, p: nat)
    requires
        p <= cs.len(),
        forall|x: int| 0 <= x < cs.len() ==> is_digit(#[trigger] cs[x]),
    ensures
        dec_value(cs.take(p as int)) <= dec_value(cs),
    decreases cs.len() - p,
{
    if p < cs.len() {
        lemma_dec_mono(cs, p + 1);
        assert(cs.take((p + 1) as int).drop_last() =~= cs.take(p as int));
        assert(is_digit(cs[p as int]));
    } else {
        assert(cs.take(p as int) =~= cs);
    }
}

/// A linear form `c + sum coef[v] * v`, the variables in increasing order.
#[derive(Clone, Debug)]
pub struct Lin {
    pub c: i64,
    pub coef: Vec<(String, i64)>,
}

/// The names of a coefficient list.
pub open spec fn keys(v: Seq<(String, i64)>) -> Seq<Seq<char>> {
    v.map_values(|p: (String, i64)| p.0@)
}

/// The entries with each name taken by its characters.
pub open spec fn views(v: Seq<(String, i64)>) -> Seq<(Seq<char>, i64)> {
    v.map_values(|p: (String, i64)| (p.0@, p.1))
}

/// Two lists with the same entries, name by name, have the same keys and lookups.
pub proof fn lemma_views_same(a: Seq<(String, i64)>, b: Seq<(String, i64)>)
    requires
        views(a) == views(b),
    ensures
        keys(a) == keys(b),
        forall|x: Seq<char>| #[trigger] lookup(a, x) == lookup(b, x),
    decreases a.len(),
{
    assert(a.len() == views(a).len());
    assert(b.len() == views(b).len());
    assert(keys(a) =~= keys(b)) by {
        assert forall|i: int| 0 <= i < a.len() implies keys(a)[i] == keys(b)[i] by {
            assert(views(a)[i] == views(b)[i]);
        }
    }
    if a.len() > 0 {
        assert(views(a.drop_last()) =~= views(b.drop_last())) by {
            assert forall|i: int| 0 <= i < a.len() - 1 implies views(a.drop_last())[i] == views(b.drop_last())[i] by {
                assert(views(a)[i] == views(b)[i]);
            }
        }
        lemma_views_same(a.drop_last(), b.drop_last());
        assert(views(a)[a.len() - 1] == views(b)[b.len() - 1]);
        assert forall|x: Seq<char>| #[trigger] lookup(a, x) == lookup(b, x) by {
            assert(a.last().0@ == b.last().0@);
            assert(a.last().1 == b.last().1);
            assert(lookup(a.drop_last(), x) == lookup(b.drop_last(), x));
        }
    }
}

/// The coefficient recorded for `x`, if any.
pub open spec fn lookup(v: Seq<(String, i64)>, x: Seq<char>) -> Option<i64>
    decreases v.len(),
{
    if v.len() == 0 {
        None
    } else if v.last().0@ == x {
        Some(v.last().1)
    } else {
        lookup(v.drop_last(), x)
    }
}

impl Lin {
    /// The variables are listed once each, in increasing order.
    pub open spec fn wf(&self) -> bool {
        crate::strs::strictly_sorted(keys(self.coef@))
    }

    /// The coefficient of `x` (absent when not listed).
    pub open spec fn at(&self, x: Seq<char>) -> Option<i64> {
        lookup(self.coef@, x)
    }

    /// The linear form `0`.
    pub fn zero() -> (r: Lin)
        ensures
            r.wf(),
            r.c == 0,
            r.coef@.len() == 0,
    {
        Lin { c: 0, coef: Vec::new() }
    }

    /// The linear form for a constant `n`.
    pub fn num(n: i64) -> (r: Lin)
        ensures
            r.wf(),
            r.c == n,
            r.coef@.len() == 0,
    {
        Lin { c: n, coef: Vec::new() }
    }

    /// The linear form for a bare variable `v` (coefficient 1).
    pub fn var(v: &str) -> (r: Lin)
        ensures
            r.wf(),
            r.c == 0,
            keys(r.coef@) == seq![v@],
            r.coef@.len() == 1,
            r.coef@[0].1 == 1,
    {
        let mut coef: Vec<(String, i64)> = Vec::new();
        coef.push((crate::strs::str_to_string(v), 1));
        proof {
            assert(keys(coef@) =~= seq![v@]);
        }
        Lin { c: 0, coef }
    }

    /// Multiply every coefficient and the constant by `m` (wrapping).
    pub fn scale(&self, m: i64) -> (r: Lin)
        requires
            self.wf(),
        ensures
            r.wf(),
            r.c == self.c.wrapping_mul(m),
            keys(r.coef@) == keys(self.coef@),
            forall|i: int| 0 <= i < r.coef@.len() ==> #[trigger] r.coef@[i].1 == self.coef@[i].1.wrapping_mul(m),
    {
        let mut coef: Vec<(String, i64)> = Vec::new();
        let mut i: usize = 0;
        while i < self.coef.len()
            invariant
                i <= self.coef.len(),
                coef.len() == i,
                forall|j: int| 0 <= j < i ==> (#[trigger] coef@[j]).0@ == self.coef@[j].0@ && coef@[j].1 == self.coef@[j].1.wrapping_mul(m),
            decreases self.coef.len() - i,
        {
            let (ref k, v) = self.coef[i];
            coef.push((crate::strs::str_to_string(k.as_str()), v.wrapping_mul(m)));
            i = i + 1;
        }
        proof {
            assert(keys(coef@) =~= keys(self.coef@));
        }
        Lin { c: self.c.wrapping_mul(m), coef }
    }

    /// If this form is exactly `1*v` (no constant, no other terms), `v`.
    pub fn is_plain_var(&self) -> (r: Option<String>)
        ensures
            match r {
                Some(v) => self.c == 0 && self.coef@.len() == 1 && self.coef@[0].1 == 1 && v@ == self.coef@[0].0@,
                None => !(self.c == 0 && self.coef@.len() == 1 && self.coef@[0].1 == 1),
            },
    {
        if self.c == 0 && self.coef.len() == 1 {
            let (ref k, v) = self.coef[0];
            if v == 1 {
                return Some(crate::strs::str_to_string(k.as_str()));
            }
        }
        None
    }

    /// Split into (positive part, negated negative part): positive coefficients
    /// go to the first, the others (negated) to the second.
    pub fn split(&self) -> (r: (Lin, Lin))
        requires
            self.wf(),
        ensures
            r.0.wf(),
            r.1.wf(),
            r.0.c == (if self.c >= 0 { self.c } else { 0 }),
            r.1.c == (if self.c >= 0 { 0 } else { 0i64.wrapping_sub(self.c) }),
            forall|x: Seq<char>| #[trigger] r.0.at(x) == match self.at(x) {
                Some(v) => if v > 0 { Some(v) } else { None },
                None => None,
            },
            forall|x: Seq<char>| #[trigger] r.1.at(x) == match self.at(x) {
                Some(v) => if v > 0 { None } else { Some(0i64.wrapping_sub(v)) },
                None => None,
            },
    {
        let mut p: Vec<(String, i64)> = Vec::new();
        let mut n: Vec<(String, i64)> = Vec::new();
        let mut i: usize = 0;
        while i < self.coef.len()
            invariant
                self.wf(),
                i <= self.coef.len(),
                crate::strs::strictly_sorted(keys(p@)),
                crate::strs::strictly_sorted(keys(n@)),
                forall|j: int| 0 <= j < p.len() ==> keys(self.coef@.take(i as int)).contains(#[trigger] keys(p@)[j]),
                forall|j: int| 0 <= j < n.len() ==> keys(self.coef@.take(i as int)).contains(#[trigger] keys(n@)[j]),
                forall|x: Seq<char>| #[trigger] lookup(p@, x) == match lookup(self.coef@.take(i as int), x) {
                    Some(v) => if v > 0 { Some(v) } else { None },
                    None => None,
                },
                forall|x: Seq<char>| #[trigger] lookup(n@, x) == match lookup(self.coef@.take(i as int), x) {
                    Some(v) => if v > 0 { None } else { Some(0i64.wrapping_sub(v)) },
                    None => None,
                },
            decreases self.coef.len() - i,
        {
            let (ref k, v) = self.coef[i];
            let ghost pre = self.coef@.take(i as int);
            let ghost pp = p@;
            let ghost pn = n@;
            proof {
                assert(self.coef@.take(i + 1) =~= pre.push(self.coef@[i as int]));
                assert(self.coef@.take(i + 1).drop_last() =~= pre);
                lemma_sorted_prefix_lt(self.coef@, i as nat);
            }
            if v > 0 {
                p.push((crate::strs::str_to_string(k.as_str()), v));
                proof {
                    assert(p@.drop_last() =~= pp);
                    lemma_push_sorted(pp, p@, keys(pre), k@);
                }
            } else {
                n.push((crate::strs::str_to_string(k.as_str()), 0i64.wrapping_sub(v)));
                proof {
                    assert(n@.drop_last() =~= pn);
                    lemma_push_sorted(pn, n@, keys(pre), k@);
                }
            }
            proof {
                assert(!keys(pre).contains(k@)) by {
                    if keys(pre).contains(k@) {
                        crate::strs::lemma_seq_lt_irreflexive(k@);
                    }
                }
                assert(!keys(pp).contains(k@)) by {
                    if keys(pp).contains(k@) {
                        let y = choose|y: int| 0 <= y < keys(pp).len() && keys(pp)[y] == k@;
                    }
                }
                assert(!keys(pn).contains(k@)) by {
                    if keys(pn).contains(k@) {
                        let y = choose|y: int| 0 <= y < keys(pn).len() && keys(pn)[y] == k@;
                    }
                }
                lemma_lookup_absent(pp, k@);
                lemma_lookup_absent(pn, k@);
                assert forall|x: Seq<char>| #[trigger] lookup(p@, x) == match lookup(self.coef@.take(i + 1), x) {
                    Some(w) => if w > 0 { Some(w) } else { None },
                    None => None,
                } by {
                    if x != k@ {
                        if v > 0 {
                            assert(lookup(p@, x) == lookup(pp, x));
                        }
                        assert(lookup(self.coef@.take(i + 1), x) == lookup(pre, x));
                    }
                }
                assert forall|x: Seq<char>| #[trigger] lookup(n@, x) == match lookup(self.coef@.take(i + 1), x) {
                    Some(w) => if w > 0 { None } else { Some(0i64.wrapping_sub(w)) },
                    None => None,
                } by {
                    if x != k@ {
                        if v <= 0 {
                            assert(lookup(n@, x) == lookup(pn, x));
                        }
                        assert(lookup(self.coef@.take(i + 1), x) == lookup(pre, x));
                    }
                }
                assert forall|j: int| 0 <= j < p.len() implies keys(self.coef@.take(i + 1)).contains(#[trigger] keys(p@)[j]) by {
                    if j < pp.len() {
                        assert(keys(pp)[j] == keys(p@)[j]);
                        assert(keys(pre).contains(keys(pp)[j]));
                        let y = choose|y: int| 0 <= y < keys(pre).len() && keys(pre)[y] == keys(pp)[j];
                        assert(keys(self.coef@.take(i + 1))[y] == keys(pre)[y]);
                    } else {
                        assert(keys(self.coef@.take(i + 1))[i as int] == k@);
                    }
                }
                assert forall|j: int| 0 <= j < n.len() implies keys(self.coef@.take(i + 1)).contains(#[trigger] keys(n@)[j]) by {
                    if j < pn.len() {
                        assert(keys(pn)[j] == keys(n@)[j]);
                        assert(keys(pre).contains(keys(pn)[j]));
                        let y = choose|y: int| 0 <= y < keys(pre).len() && keys(pre)[y] == keys(pn)[j];
                        assert(keys(self.coef@.take(i + 1))[y] == keys(pre)[y]);
                    } else {
                        assert(keys(self.coef@.take(i + 1))[i as int] == k@);
                    }
                }
            }
            i = i + 1;
        }
        proof {
            assert(self.coef@.take(self.coef.len() as int) =~= self.coef@);
        }
        let pc = if self.c >= 0 { self.c } else { 0 };
        let nc = if self.c >= 0 { 0 } else { 0i64.wrapping_sub(self.c) };
        (Lin { c: pc, coef: p }, Lin { c: nc, coef: n })
    }
}

/// Every name of a sorted list's prefix is below the next entry's name.
pub proof fn lemma_sorted_prefix_lt(v: Seq<(String, i64)>, i: nat)
    requires
        crate::strs::strictly_sorted(keys(v)),
        i < v.len(),
    ensures
        forall|x: Seq<char>| keys(v.take(i as int)).contains(x) ==> crate::strs::seq_lt(x, v[i as int].0@),
{
    assert forall|x: Seq<char>| keys(v.take(i as int)).contains(x) implies crate::strs::seq_lt(x, v[i as int].0@) by {
        let y = choose|y: int| 0 <= y < keys(v.take(i as int)).len() && keys(v.take(i as int))[y] == x;
        assert(keys(v)[y] == x);
        assert(keys(v)[i as int] == v[i as int].0@);
    }
}

/// Appending a name above everything in `pre` keeps a sublist of `pre` sorted.
pub proof fn lemma_push_sorted(old: Seq<(String, i64)>, new: Seq<(String, i64)>, pre: Seq<Seq<char>>, k: Seq<char>)
    requires
        crate::strs::strictly_sorted(keys(old)),
        new.len() == old.len() + 1,
        new.drop_last() == old,
        new.last().0@ == k,
        forall|j: int| 0 <= j < old.len() ==> pre.contains(#[trigger] keys(old)[j]),
        forall|x: Seq<char>| pre.contains(x) ==> crate::strs::seq_lt(x, k),
    ensures
        crate::strs::strictly_sorted(keys(new)),
{
    assert forall|a: int, b: int| 0 <= a < b < keys(new).len() implies crate::strs::seq_lt(#[trigger] keys(new)[a], #[trigger] keys(new)[b]) by {
        if b < old.len() {
            assert(keys(new)[a] == keys(old)[a]);
            assert(keys(new)[b] == keys(old)[b]);
        } else {
            assert(keys(new)[a] == keys(old)[a]);
            assert(pre.contains(keys(old)[a]));
            assert(keys(new)[b] == k);
        }
    }
}

/// A name that is not listed has no coefficient.
pub proof fn lemma_lookup_absent(v: Seq<(String, i64)>, x: Seq<char>)
    requires
        !keys(v).contains(x),
    ensures
        lookup(v, x) is None,
    decreases v.len(),
{
    if v.len() > 0 {
        assert(keys(v)[v.len() - 1] == v.last().0@);
        assert(!keys(v.drop_last()).contains(x)) by {
            if keys(v.drop_last()).contains(x) {
                let y = choose|y: int| 0 <= y < keys(v.drop_last()).len() && keys(v.drop_last())[y] == x;
                assert(keys(v)[y] == x);
            }
        }
        lemma_lookup_absent(v.drop_last(), x);
    }
}

/// `x` appears exactly where `lookup` finds it, in a list of distinct names.
pub proof fn lemma_lookup_at(v: Seq<(String, i64)>, j: int)
    requires
        crate::strs::strictly_sorted(keys(v)),
        0 <= j < v.len(),
    ensures
        lookup(v, v[j].0@) == Some(v[j].1),
    decreases v.len(),
{
    crate::product::lemma_sorted_distinct(keys(v));
    if j < v.len() - 1 {
        assert(keys(v)[j] != keys(v)[v.len() - 1]);
        let w = v.drop_last();
        assert(crate::strs::strictly_sorted(keys(w))) by {
            assert forall|a: int, b: int| 0 <= a < b < keys(w).len() implies crate::strs::seq_lt(#[trigger] keys(w)[a], #[trigger] keys(w)[b]) by {
                assert(keys(w)[a] == keys(v)[a] && keys(w)[b] == keys(v)[b]);
            }
        }
        lemma_lookup_at(w, j);
        assert(w[j] == v[j]);
    }
}

/// Set (`Some`) or remove (`None`) the coefficient of `k`, keeping the order.
pub fn set_coef(v: &mut Vec<(String, i64)>, k: &str, val: Option<i64>)
    requires
        crate::strs::strictly_sorted(keys(old(v)@)),
    ensures
        crate::strs::strictly_sorted(keys(final(v)@)),
        forall|x: Seq<char>| #[trigger] lookup(final(v)@, x) == if x == k@ { val } else { lookup(old(v)@, x) },
        forall|x: Seq<char>| keys(final(v)@).contains(x) ==> (keys(old(v)@).contains(x) || x == k@),
{
    let mut i: usize = 0;
    while i < v.len() && crate::strs::str_lt(v[i].0.as_str(), k)
        invariant
            crate::strs::strictly_sorted(keys(v@)),
            i <= v.len(),
            forall|j: int| 0 <= j < i ==> crate::strs::seq_lt(#[trigger] keys(v@)[j], k@),
        decreases v.len() - i,
    {
        i = i + 1;
    }
    let ghost old_v = v@;
    let present = i < v.len() && crate::strs::str_eq(v[i].0.as_str(), k);
    proof {
        lemma_keys_split(old_v, i as nat, k@);
    }
    if present {
        match val {
            Some(x) => {
                let name = crate::strs::str_to_string(k);
                v.set(i, (name, x));
                proof {
                    assert(keys(v@) =~= keys(old_v).update(i as int, k@));
                    assert(keys(v@) =~= keys(old_v));
                    assert forall|y: Seq<char>| #[trigger] lookup(v@, y) == if y == k@ { val } else { lookup(old_v, y) } by {
                        lemma_lookup_at(v@, i as int);
                        if y != k@ {
                            lemma_lookup_same(old_v, v@, y);
                        }
                    }
                }
            },
            None => {
                v.remove(i);
                proof {
                    assert(keys(v@) =~= keys(old_v).remove(i as int));
                    lemma_sorted_remove(keys(old_v), i as int);
                    assert forall|y: Seq<char>| #[trigger] lookup(v@, y) == if y == k@ { val } else { lookup(old_v, y) } by {
                        if y == k@ {
                            crate::product::lemma_sorted_distinct(keys(old_v));
                            assert(!keys(v@).contains(k@)) by {
                                if keys(v@).contains(k@) {
                                    let z = choose|z: int| 0 <= z < keys(v@).len() && keys(v@)[z] == k@;
                                    if z < i {
                                        assert(keys(old_v)[z] == k@);
                                    } else {
                                        assert(keys(old_v)[z + 1] == k@);
                                    }
                                }
                            }
                            lemma_lookup_absent(v@, y);
                        } else {
                            lemma_lookup_remove(old_v, i as int, y);
                        }
                    }
                    assert forall|x: Seq<char>| keys(v@).contains(x) implies (keys(old_v).contains(x) || x == k@) by {
                        let z = choose|z: int| 0 <= z < keys(v@).len() && keys(v@)[z] == x;
                        if z < i {
                            assert(keys(old_v)[z] == x);
                        } else {
                            assert(keys(old_v)[z + 1] == x);
                        }
                    }
                }
            },
        }
    } else {
        match val {
            Some(x) => {
                let name = crate::strs::str_to_string(k);
                v.insert(i, (name, x));
                proof {
                    assert(keys(v@) =~= keys(old_v).insert(i as int, k@));
                    lemma_sorted_insert(keys(old_v), i as int, k@);
                    assert forall|y: Seq<char>| #[trigger] lookup(v@, y) == if y == k@ { val } else { lookup(old_v, y) } by {
                        if y == k@ {
                            lemma_lookup_at(v@, i as int);
                        } else {
                            lemma_lookup_insert(old_v, i as int, (name, x), y);
                        }
                    }
                    assert forall|z: Seq<char>| keys(v@).contains(z) implies (keys(old_v).contains(z) || z == k@) by {
                        let w = choose|w: int| 0 <= w < keys(v@).len() && keys(v@)[w] == z;
                        if w < i {
                            assert(keys(old_v)[w] == z);
                        } else if w > i {
                            assert(keys(old_v)[w - 1] == z);
                        }
                    }
                }
            },
            None => {
                proof {
                    assert(!keys(old_v).contains(k@));
                    lemma_lookup_absent(old_v, k@);
                }
            },
        }
    }
}

/// Where `k` would go in a sorted list: before `i` everything is smaller,
/// from `i` on nothing is, and `k` is present only at `i`.
pub proof fn lemma_keys_split(v: Seq<(String, i64)>, i: nat, k: Seq<char>)
    requires
        crate::strs::strictly_sorted(keys(v)),
        i <= v.len(),
        forall|j: int| 0 <= j < i ==> crate::strs::seq_lt(#[trigger] keys(v)[j], k),
        i < v.len() ==> !crate::strs::seq_lt(keys(v)[i as int], k),
    ensures
        keys(v).contains(k) ==> i < v.len() && keys(v)[i as int] == k,
        i < v.len() && keys(v)[i as int] != k ==> crate::strs::seq_lt(k, keys(v)[i as int]),
        forall|j: int| i < j < v.len() ==> crate::strs::seq_lt(k, #[trigger] keys(v)[j]),
{
    if i < v.len() && keys(v)[i as int] != k {
        crate::strs::lemma_seq_lt_total(keys(v)[i as int], k);
    }
    assert forall|j: int| i < j < v.len() implies crate::strs::seq_lt(k, #[trigger] keys(v)[j]) by {
        if keys(v)[i as int] == k {
            assert(crate::strs::seq_lt(keys(v)[i as int], keys(v)[j]));
        } else {
            crate::strs::lemma_seq_lt_total(keys(v)[i as int], k);
            crate::strs::lemma_seq_lt_trans(k, keys(v)[i as int], keys(v)[j]);
        }
    }
    if keys(v).contains(k) {
        let j = choose|j: int| 0 <= j < keys(v).len() && keys(v)[j] == k;
        crate::strs::lemma_seq_lt_irreflexive(k);
        if j > i as int {
            assert(crate::strs::seq_lt(k, keys(v)[j]));
        }
    }
}

/// Lookups of other names see through a change of one entry's value.
pub proof fn lemma_lookup_same(a: Seq<(String, i64)>, b: Seq<(String, i64)>, y: Seq<char>)
    requires
        keys(a) == keys(b),
        forall|j: int| 0 <= j < a.len() && #[trigger] keys(a)[j] == y ==> a[j].1 == b[j].1,
    ensures
        lookup(a, y) == lookup(b, y),
    decreases a.len(),
{
    assert(a.len() == keys(a).len() && b.len() == keys(b).len());
    if a.len() > 0 {
        assert(keys(a.drop_last()) =~= keys(a).drop_last());
        assert(keys(b.drop_last()) =~= keys(b).drop_last());
        assert(a.len() == keys(a).len());
        assert(keys(a)[a.len() - 1] == a.last().0@);
        assert(keys(b)[b.len() - 1] == b.last().0@);
        assert(a.len() == b.len()) by {
            assert(keys(a).len() == keys(b).len());
        }
        if a.last().0@ == y {
            assert(keys(a)[a.len() - 1] == y);
            assert(a[a.len() - 1].1 == b[a.len() - 1].1);
        } else {
            assert forall|j: int| 0 <= j < a.drop_last().len() && #[trigger] keys(a.drop_last())[j] == y implies a.drop_last()[j].1 == b.drop_last()[j].1 by {
                assert(keys(a)[j] == y);
            }
            lemma_lookup_same(a.drop_last(), b.drop_last(), y);
        }
    }
}

/// Removing another name's entry does not change a lookup.
pub proof fn lemma_lookup_remove(v: Seq<(String, i64)>, i: int, y: Seq<char>)
    requires
        0 <= i < v.len(),
        keys(v)[i] != y,
    ensures
        lookup(v.remove(i), y) == lookup(v, y),
    decreases v.len(),
{
    if i == v.len() - 1 {
        assert(v.remove(i) =~= v.drop_last());
        assert(keys(v)[i] == v.last().0@);
    } else {
        assert(v.remove(i).drop_last() =~= v.drop_last().remove(i));
        assert(v.remove(i).last() == v.last());
        assert(keys(v.drop_last())[i] == keys(v)[i]);
        lemma_lookup_remove(v.drop_last(), i, y);
    }
}

/// Inserting another name's entry does not change a lookup.
pub proof fn lemma_lookup_insert(v: Seq<(String, i64)>, i: int, e: (String, i64), y: Seq<char>)
    requires
        0 <= i <= v.len(),
        e.0@ != y,
    ensures
        lookup(v.insert(i, e), y) == lookup(v, y),
    decreases v.len(),
{
    if i == v.len() {
        assert(v.insert(i, e) =~= v.push(e));
        assert(v.push(e).drop_last() =~= v);
    } else {
        assert(v.insert(i, e).drop_last() =~= v.drop_last().insert(i, e));
        assert(v.insert(i, e).last() == v.last());
        lemma_lookup_insert(v.drop_last(), i, e, y);
    }
}

/// Removing an entry keeps a list sorted.
pub proof fn lemma_sorted_remove(v: Seq<Seq<char>>, i: int)
    requires
        crate::strs::strictly_sorted(v),
        0 <= i < v.len(),
    ensures
        crate::strs::strictly_sorted(v.remove(i)),
{
    let w = v.remove(i);
    assert forall|a: int, b: int| 0 <= a < b < w.len() implies crate::strs::seq_lt(#[trigger] w[a], #[trigger] w[b]) by {
        let a2 = if a < i { a } else { a + 1 };
        let b2 = if b < i { b } else { b + 1 };
        assert(w[a] == v[a2] && w[b] == v[b2]);
    }
}

/// Inserting a name at its place keeps a list sorted.
pub proof fn lemma_sorted_insert(v: Seq<Seq<char>>, i: int, k: Seq<char>)
    requires
        crate::strs::strictly_sorted(v),
        0 <= i <= v.len(),
        forall|j: int| 0 <= j < i ==> crate::strs::seq_lt(#[trigger] v[j], k),
        forall|j: int| i <= j < v.len() ==> crate::strs::seq_lt(k, #[trigger] v[j]),
    ensures
        crate::strs::strictly_sorted(v.insert(i, k)),
{
    let w = v.insert(i, k);
    assert forall|a: int, b: int| 0 <= a < b < w.len() implies crate::strs::seq_lt(#[trigger] w[a], #[trigger] w[b]) by {
        if a < i && b < i {
            assert(w[a] == v[a] && w[b] == v[b]);
        } else if a < i && b == i {
            assert(w[a] == v[a] && w[b] == k);
        } else if a < i {
            assert(w[a] == v[a] && w[b] == v[b - 1]);
        } else if a == i {
            assert(w[a] == k && w[b] == v[b - 1]);
        } else {
            assert(w[a] == v[a - 1] && w[b] == v[b - 1]);
        }
    }
}

/// The coefficient after adding `sign * ov` to `cur` (absent when it comes to 0).
pub open spec fn added(cur: Option<i64>, ov: i64, sign: i64) -> Option<i64> {
    let e = (match cur { Some(v) => v, None => 0i64 }).wrapping_add(sign.wrapping_mul(ov));
    if e == 0 { None } else { Some(e) }
}

/// The form is a single variable with coefficient 1 and no constant.
pub open spec fn plain_var(l: &Lin) -> bool {
    l.c == 0 && l.coef@.len() == 1 && l.coef@[0].1 == 1
}

/// A plain variable has coefficient 1 at its name and none elsewhere.
pub proof fn lemma_plain_at(l: &Lin, z: Seq<char>)
    requires
        plain_var(l),
    ensures
        l.at(z) == (if z == l.coef@[0].0@ { Some(1i64) } else { None }),
{
    let v = l.coef@;
    assert(v.last() == v[0]);
    assert(v.drop_last().len() == 0);
    assert(lookup(v.drop_last(), z) is None);
}

/// A listed name has a coefficient.
proof fn lemma_lookup_listed(v: Seq<(String, i64)>, i: int)
    requires
        0 <= i < v.len(),
    ensures
        lookup(v, v[i].0@) is Some,
    decreases v.len(),
{
    if v.last().0@ != v[i].0@ {
        assert(i < v.len() - 1);
        assert(v.drop_last()[i] == v[i]);
        lemma_lookup_listed(v.drop_last(), i);
    }
}

/// A well-formed form whose only coefficient is 1 at `x`, with no constant,
/// is the plain variable `x`.
pub proof fn lemma_plain_from_at(l: &Lin, x: Seq<char>)
    requires
        l.wf(),
        l.c == 0,
        forall|z: Seq<char>| #[trigger] l.at(z) == (if z == x { Some(1i64) } else { None }),
    ensures
        plain_var(l),
        l.coef@[0].0@ == x,
{
    let v = l.coef@;
    assert(l.at(x) is Some);
    if v.len() == 0 {
        assert(lookup(v, x) is None);
    }
    assert forall|i: int| 0 <= i < v.len() implies #[trigger] v[i].0@ == x by {
        lemma_lookup_listed(v, i);
        assert(l.at(v[i].0@) is Some);
    }
    crate::product::lemma_sorted_distinct(keys(v));
    if v.len() > 1 {
        assert(keys(v)[0] == keys(v)[1]);
    }
    assert(v.len() == 1);
    assert(v.last() == v[0]);
    assert(lookup(v, x) == Some(v[0].1));
}

/// The coefficient of `x` in `a + sign * b`.
pub open spec fn sum_at(a: &Lin, b: &Lin, sign: i64, x: Seq<char>) -> Option<i64> {
    match b.at(x) {
        None => a.at(x),
        Some(bv) => added(a.at(x), bv, sign),
    }
}

/// The coefficient of `k`, if listed.
pub fn find_coef(v: &Vec<(String, i64)>, k: &str) -> (r: Option<i64>)
    requires
        crate::strs::strictly_sorted(keys(v@)),
    ensures
        r == lookup(v@, k@),
{
    let mut i: usize = 0;
    while i < v.len()
        invariant
            crate::strs::strictly_sorted(keys(v@)),
            i <= v.len(),
            forall|j: int| 0 <= j < i ==> #[trigger] keys(v@)[j] != k@,
        decreases v.len() - i,
    {
        if crate::strs::str_eq(v[i].0.as_str(), k) {
            proof {
                lemma_lookup_at(v@, i as int);
            }
            return Some(v[i].1);
        }
        i = i + 1;
    }
    proof {
        assert(!keys(v@).contains(k@)) by {
            if keys(v@).contains(k@) {
                let j = choose|j: int| 0 <= j < keys(v@).len() && keys(v@)[j] == k@;
            }
        }
        lemma_lookup_absent(v@, k@);
    }
    None
}

impl Lin {
    /// `self + sign * o`; `sign = -1` gives subtraction. Zero coefficients that
    /// this produces are pruned.
    pub fn add(&self, o: &Lin, sign: i64) -> (r: Lin)
        requires
            self.wf(),
            o.wf(),
        ensures
            r.wf(),
            r.c == self.c.wrapping_add(sign.wrapping_mul(o.c)),
            forall|x: Seq<char>| #[trigger] r.at(x) == sum_at(self, o, sign, x),
    {
        let mut coef: Vec<(String, i64)> = Vec::new();
        let mut i: usize = 0;
        while i < self.coef.len()
            invariant
                i <= self.coef.len(),
                coef@.len() == i,
                forall|t: int| 0 <= t < i ==> #[trigger] coef@[t].0@ == self.coef@[t].0@ && coef@[t].1 == self.coef@[t].1,
            decreases self.coef.len() - i,
        {
            let (ref k, v) = self.coef[i];
            coef.push((crate::strs::str_to_string(k.as_str()), v));
            i = i + 1;
        }
        proof {
            assert(views(coef@) =~= views(self.coef@)) by {
                assert forall|t: int| 0 <= t < coef@.len() implies #[trigger] views(coef@)[t] == views(self.coef@)[t] by {
                    assert(coef@[t].0@ == self.coef@[t].0@);
                }
            }
            lemma_views_same(coef@, self.coef@);
        }
        proof {
            crate::product::lemma_sorted_distinct(keys(o.coef@));
        }
        let mut j: usize = 0;
        while j < o.coef.len()
            invariant
                self.wf(),
                o.wf(),
                crate::dfa::distinct(keys(o.coef@)),
                j <= o.coef.len(),
                crate::strs::strictly_sorted(keys(coef@)),
                forall|x: Seq<char>| #[trigger] lookup(coef@, x) == match lookup(o.coef@.take(j as int), x) {
                    None => self.at(x),
                    Some(bv) => added(self.at(x), bv, sign),
                },
            decreases o.coef.len() - j,
        {
            let (ref k, ov) = o.coef[j];
            let cur = find_coef(&coef, k.as_str());
            let cv: i64 = match cur { Some(v) => v, None => 0 };
            let e = cv.wrapping_add(sign.wrapping_mul(ov));
            let val: Option<i64> = if e == 0 { None } else { Some(e) };
            let ghost pre = coef@;
            proof {
                assert(o.coef@.take(j + 1) =~= o.coef@.take(j as int).push(o.coef@[j as int]));
                assert(o.coef@.take(j + 1).drop_last() =~= o.coef@.take(j as int));
                assert(!keys(o.coef@.take(j as int)).contains(k@)) by {
                    if keys(o.coef@.take(j as int)).contains(k@) {
                        let y = choose|y: int| 0 <= y < keys(o.coef@.take(j as int)).len() && keys(o.coef@.take(j as int))[y] == k@;
                        assert(keys(o.coef@)[y] == keys(o.coef@)[j as int]);
                    }
                }
                lemma_lookup_absent(o.coef@.take(j as int), k@);
                assert(cur == self.at(k@));
            }
            set_coef(&mut coef, k.as_str(), val);
            proof {
                assert forall|x: Seq<char>| #[trigger] lookup(coef@, x) == match lookup(o.coef@.take(j + 1), x) {
                    None => self.at(x),
                    Some(bv) => added(self.at(x), bv, sign),
                } by {
                    if x != k@ {
                        assert(lookup(o.coef@.take(j + 1), x) == lookup(o.coef@.take(j as int), x));
                    }
                }
            }
            j = j + 1;
        }
        proof {
            assert(o.coef@.take(o.coef.len() as int) =~= o.coef@);
        }
        Lin { c: self.c.wrapping_add(sign.wrapping_mul(o.c)), coef }
    }
}
} // verus!
