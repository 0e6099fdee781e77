//! Deterministic one-letter-per-letter transducers, all states final.
use vstd::prelude::*;
use std::collections::HashMap;
use crate::dfao::Dfao;
use crate::ops::Ctx;
use crate::dfa::{spow, MAX_ALPHA, State, table_ok};
use crate::strs::str_to_string;
use crate::text::{find_char, find_pair, trim, parse_usize, parse_i64, lines};

verus! {

broadcast use vstd::std_specs::hash::group_hash_axioms;

/// A deterministic 1-uniform transducer: in state `p` on input letter index
/// `a` it emits `sigma[p * na + a]` and moves to `tau[p * na + a]`. State 0 is
/// the initial state; `letters` is the input alphabet, ascending.
pub struct Transducer {
    pub name: String,
    pub nstates: usize,
    pub letters: Vec<i64>,
    pub tau: Vec<u32>,
    pub sigma: Vec<i64>,
}

/// The position of `v` in `letters`, if present.
pub open spec fn letter_pos(letters: Seq<i64>, v: int) -> Option<nat>
    decreases letters.len(),
{
    if letters.len() == 0 {
        None
    } else {
        match letter_pos(letters.drop_last(), v) {
            Some(i) => Some(i),
            None => if letters.last() as int == v { Some((letters.len() - 1) as nat) } else { None },
        }
    }
}

impl Transducer {
    /// At least one state and one letter, ascending letters, total in-range tables.
    pub open spec fn wf(&self) -> bool {
        &&& 1 <= self.nstates <= u32::MAX
        &&& 1 <= self.letters@.len()
        &&& forall|i: int, j: int| 0 <= i < j < self.letters@.len() ==> self.letters@[i] < self.letters@[j]
        &&& self.tau@.len() == self.nstates * self.letters@.len()
        &&& self.sigma@.len() == self.nstates * self.letters@.len()
        &&& forall|i: int| 0 <= i < self.tau@.len() ==> (#[trigger] self.tau@[i] as int) < self.nstates
    }

    /// The state after reading `x`, or `None` once a letter is outside the alphabet.
    pub open spec fn state_after(&self, x: Seq<u8>) -> Option<nat>
        decreases x.len(),
    {
        if x.len() == 0 {
            Some(0)
        } else {
            match (self.state_after(x.drop_last()), letter_pos(self.letters@, x.last() as int)) {
                (Some(p), Some(a)) => Some(self.tau@[(p * self.letters@.len() + a) as int] as nat),
                _ => None,
            }
        }
    }

    /// The output on `x`, or `None` once a letter is outside the alphabet.
    pub open spec fn output(&self, x: Seq<u8>) -> Option<Seq<i64>>
        decreases x.len(),
    {
        if x.len() == 0 {
            Some(seq![])
        } else {
            match (self.output(x.drop_last()), self.state_after(x.drop_last()), letter_pos(self.letters@, x.last() as int)) {
                (Some(ys), Some(p), Some(a)) => Some(ys.push(self.sigma@[(p * self.letters@.len() + a) as int])),
                _ => None,
            }
        }
    }

    /// The size of the input alphabet.
    pub fn na(&self) -> (r: usize)
        ensures
            r == self.letters@.len(),
    {
        self.letters.len()
    }

    /// The index of the letter `v`.
    pub fn letter_index(&self, v: i64) -> (r: Option<usize>)
        ensures
            r matches Some(i) ==> letter_pos(self.letters@, v as int) == Some(i as nat),
            r is None ==> letter_pos(self.letters@, v as int) is None,
    {
        let mut i: usize = 0;
        while i < self.letters.len()
            invariant
                i <= self.letters.len(),
                letter_pos(self.letters@.take(i as int), v as int) is None,
            decreases self.letters.len() - i,
        {
            proof {
                assert(self.letters@.take(i + 1).drop_last() =~= self.letters@.take(i as int));
            }
            if self.letters[i] == v {
                proof {
                    lemma_letter_pos_prefix(self.letters@, v as int, (i + 1) as nat);
                }
                return Some(i);
            }
            i = i + 1;
        }
        proof {
            assert(self.letters@.take(i as int) =~= self.letters@);
        }
        None
    }

    /// Run the transducer over `x`.
    pub fn apply(&self, x: &[u8]) -> (r: Option<Vec<i64>>)
        requires
            self.wf(),
        ensures
            r matches Some(y) ==> self.output(x@) == Some(y@),
            r is None ==> self.output(x@) is None,
    {
        let na = self.letters.len();
        let mut p: usize = 0;
        let mut y: Vec<i64> = Vec::new();
        let mut i: usize = 0;
        proof {
            assert(x@.take(0) =~= Seq::<u8>::empty());
        }
        while i < x.len()
            invariant
                self.wf(),
                na == self.letters@.len(),
                i <= x.len(),
                p < self.nstates,
                self.state_after(x@.take(i as int)) == Some(p as nat),
                self.output(x@.take(i as int)) == Some(y@),
            decreases x.len() - i,
        {
            let c = x[i];
            proof {
                assert(x@.take(i + 1).drop_last() =~= x@.take(i as int));
                assert(x@.take(i + 1).last() == c);
            }
            let a = match self.letter_index(c as i64) {
                Some(a) => a,
                None => {
                    proof {
                        lemma_output_none(self, x@, (i + 1) as nat);
                    }
                    return None;
                },
            };
            proof {
                lemma_letter_pos_bound(self.letters@, c as int);
                crate::dfa::lemma_index(p as nat, a as nat, self.nstates as nat, na as nat);
            }
            assert(p * na + a < self.tau.len());
            y.push(self.sigma[p * na + a]);
            p = self.tau[p * na + a] as usize;
            i = i + 1;
        }
        proof {
            assert(x@.take(x.len() as int) =~= x@);
        }
        Some(y)
    }
}

/// A letter's position lies inside the alphabet.
proof fn lemma_letter_pos_bound(letters: Seq<i64>, v: int)
    ensures
        letter_pos(letters, v) matches Some(i) ==> i < letters.len() && letters[i as int] as int == v,
    decreases letters.len(),
{
    if letters.len() > 0 {
        lemma_letter_pos_bound(letters.drop_last(), v);
    }
}

/// Finding `v` at the end of a prefix with no earlier `v`.
proof fn lemma_letter_pos_prefix(letters: Seq<i64>, v: int, n: nat)
    requires
        1 <= n <= letters.len(),
        letter_pos(letters.take(n - 1), v) is None,
        letters[n - 1] as int == v,
    ensures
        letter_pos(letters, v) == Some((n - 1) as nat),
    decreases letters.len(),
{
    assert(letters.take(n as int).drop_last() =~= letters.take(n - 1));
    if n < letters.len() {
        assert(letters.drop_last().take(n - 1) =~= letters.take(n - 1));
        assert(letters.drop_last()[n - 1] == letters[n - 1]);
        lemma_letter_pos_prefix(letters.drop_last(), v, n);
    } else {
        assert(letters.take(n - 1) =~= letters.drop_last());
    }
}

/// Once the output is undefined on a prefix, it stays undefined.
proof fn lemma_output_none(t: &Transducer, x: Seq<u8>, n: nat)
    requires
        n <= x.len(),
        t.output(x.take(n as int)) is None,
    ensures
        t.output(x) is None,
    decreases x.len() - n,
{
    if n < x.len() {
        assert(x.take((n + 1) as int).drop_last() =~= x.take(n as int));
        lemma_output_none(t, x, n + 1);
    } else {
        assert(x.take(n as int) =~= x);
    }
}

/// `s` with the letter `v` added, kept ascending and free of repeats.
fn insert_sorted(s: &mut Vec<i64>, v: i64)
    requires
        forall|i: int, j: int| 0 <= i < j < old(s)@.len() ==> old(s)@[i] < old(s)@[j],
    ensures
        forall|i: int, j: int| 0 <= i < j < final(s)@.len() ==> final(s)@[i] < final(s)@[j],
        final(s)@.contains(v),
        forall|x: i64| final(s)@.contains(x) <==> (old(s)@.contains(x) || x == v),
{
    let mut i: usize = 0;
    while i < s.len() && s[i] < v
        invariant
            i <= s.len(),
            forall|j: int| 0 <= j < i ==> s@[j] < v,
        decreases s.len() - i,
    {
        i = i + 1;
    }
    if i < s.len() && s[i] == v {
        return;
    }
    let ghost pre = s@;
    s.insert(i, v);
    proof {
        assert(s@ =~= pre.take(i as int).push(v) + pre.skip(i as int));
        assert forall|a: int, b: int| 0 <= a < b < s@.len() implies s@[a] < s@[b] by {
            if b < i {
            } else if b == i {
            } else if a < i {
                assert(pre[a] < v);
                assert(v < pre[b - 1] || v == pre[b - 1] || true);
                if i < pre.len() {
                    assert(pre[i as int] > v);
                    assert(pre[i as int] <= pre[b - 1] || i as int == b - 1);
                }
            } else if a == i {
                assert(pre[i as int] > v);
                if b - 1 > i {
                    assert(pre[i as int] < pre[b - 1]);
                }
            } else {
            }
        }
        assert(s@[i as int] == v);
        assert forall|x: i64| s@.contains(x) <==> (pre.contains(x) || x == v) by {
            if s@.contains(x) && x != v {
                let j = choose|j: int| 0 <= j < s@.len() && s@[j] == x;
                if j < i {
                    assert(pre[j] == x);
                } else {
                    assert(pre[j - 1] == x);
                }
            }
            if pre.contains(x) {
                let j = choose|j: int| 0 <= j < pre.len() && pre[j] == x;
                if j < i {
                    assert(s@[j] == x);
                } else {
                    assert(s@[j + 1] == x);
                }
            }
        }
    }
}

/// A line with its comment (after `#` or `//`) removed, trimmed.
fn strip(cs: &Vec<char>, st: usize, en: usize) -> (r: (usize, usize))
    requires
        st <= en <= cs.len(),
    ensures
        st <= r.0 <= r.1 <= en,
{
    let e1 = match find_char(cs, st, en, '#') {
        Some(p) => p,
        None => en,
    };
    let e2 = match find_pair(cs, st, e1, '/', '/') {
        Some(p) => p,
        None => e1,
    };
    trim(cs, st, e2)
}

/// The transitions of one declared state: its number and, per letter, the
/// target and output if given.
struct Row {
    q: usize,
    tau: Vec<Option<u32>>,
    sig: Vec<Option<i64>>,
}

/// Parse the transducer text format: an alphabet line `{a, b, ..}`, then per
/// state a line with its number followed by `<input> -> <state> / <output>`
/// lines (`*` as input covers every letter). States must be numbered
/// `0..n-1`; the first declared becomes state 0.
pub fn parse(name: &str, text: &str) -> (r: Result<Transducer, String>)
    ensures
        r matches Ok(t) ==> t.wf() && t.name@ == name@,
{
    let cs = crate::strs::str_chars(text);
    let ls = lines(&cs);
    let mut li: usize = 0;
    let mut alpha: Option<(usize, usize)> = None;
    while li < ls.len()
        invariant
            li <= ls.len(),
            forall|i: int| 0 <= i < ls@.len() ==> (#[trigger] ls@[i]).0 <= ls@[i].1 <= cs.len(),
            alpha matches Some(p) ==> p.0 <= p.1 <= cs.len(),
        decreases ls.len() - li,
    {
        let (a, b) = strip(&cs, ls[li].0, ls[li].1);
        li = li + 1;
        if a < b {
            alpha = Some((a, b));
            break;
        }
    }
    let (a0, b0) = match alpha {
        Some(p) => p,
        None => {
            return Err(str_to_string("empty transducer file"));
        },
    };
    let open = match find_char(&cs, a0, b0, '{') {
        Some(p) => p,
        None => {
            return Err(str_to_string("first line must be an alphabet such as {0, 1}"));
        },
    };
    let close = match find_char(&cs, a0, b0, '}') {
        Some(p) => p,
        None => {
            return Err(str_to_string("unterminated { in the alphabet line"));
        },
    };
    if find_char(&cs, close + 1, b0, '{').is_some() {
        return Err(str_to_string("a transducer takes exactly one input track"));
    }
    if close < open + 1 {
        return Err(str_to_string("unterminated { in the alphabet line"));
    }
    let mut letters: Vec<i64> = Vec::new();
    let mut p = open + 1;
    while p <= close
        invariant
            open + 1 <= p <= close + 1,
            close < cs.len(),
            forall|i: int, j: int| 0 <= i < j < letters@.len() ==> letters@[i] < letters@[j],
        decreases close + 1 - p,
    {
        let e = match find_char(&cs, p, close, ',') {
            Some(x) => x,
            None => close,
        };
        let (ta, tb) = trim(&cs, p, e);
        if ta < tb {
            match parse_i64(&cs, ta, tb) {
                Some(v) => insert_sorted(&mut letters, v),
                None => {
                    return Err(str_to_string("bad alphabet element"));
                },
            }
        }
        p = e + 1;
    }
    if letters.len() == 0 {
        return Err(str_to_string("empty input alphabet"));
    }
    let na = letters.len();
    let mut rows: Vec<Row> = Vec::new();
    while li < ls.len()
        invariant
            li <= ls.len(),
            forall|i: int| 0 <= i < ls@.len() ==> (#[trigger] ls@[i]).0 <= ls@[i].1 <= cs.len(),
            na == letters@.len(),
            forall|i: int| 0 <= i < rows@.len() ==> (#[trigger] rows@[i]).tau@.len() == na && rows@[i].sig@.len() == na,
        decreases ls.len() - li,
    {
        let (a, b) = strip(&cs, ls[li].0, ls[li].1);
        li = li + 1;
        if a == b {
            continue;
        }
        match find_pair(&cs, a, b, '-', '>') {
            Some(arrow) => {
                if rows.len() == 0 {
                    return Err(str_to_string("transition before any state declaration"));
                }
                let (la, lb) = trim(&cs, a, arrow);
                let (ra, rb) = trim(&cs, arrow + 2, b);
                let slash = match find_char(&cs, ra, rb, '/') {
                    Some(x) => x,
                    None => {
                        return Err(str_to_string("transition has no output part"));
                    },
                };
                let (da, db) = trim(&cs, ra, slash);
                let (oa, ob) = trim(&cs, slash + 1, rb);
                let dst = match parse_usize(&cs, da, db) {
                    Some(x) => x,
                    None => {
                        return Err(str_to_string("bad destination"));
                    },
                };
                let outp = match parse_i64(&cs, oa, ob) {
                    Some(x) => x,
                    None => {
                        return Err(str_to_string("bad output"));
                    },
                };
                if dst > u32::MAX as usize {
                    return Err(str_to_string("bad destination"));
                }
                let star = lb == la + 1 && cs[la] == '*';
                let last = rows.len() - 1;
                if star {
                    let mut x: usize = 0;
                    while x < na
                        invariant
                            x <= na,
                            dst <= u32::MAX,
                            na == letters@.len(),
                            last < rows@.len(),
                            forall|i: int| 0 <= i < rows@.len() ==> (#[trigger] rows@[i]).tau@.len() == na && rows@[i].sig@.len() == na,
                        decreases na - x,
                    {
                        rows[last].tau.set(x, Some(dst as u32));
                        rows[last].sig.set(x, Some(outp));
                        x = x + 1;
                    }
                } else {
                    let v = match parse_i64(&cs, la, lb) {
                        Some(v) => v,
                        None => {
                            return Err(str_to_string("bad input letter"));
                        },
                    };
                    let mut ix: usize = 0;
                    while ix < na && letters[ix] != v
                        invariant
                            ix <= na,
                            na == letters@.len(),
                        decreases na - ix,
                    {
                        ix = ix + 1;
                    }
                    if ix == na {
                        return Err(str_to_string("input letter is not in the alphabet"));
                    }
                    rows[last].tau.set(ix, Some(dst as u32));
                    rows[last].sig.set(ix, Some(outp));
                }
            },
            None => {
                let q = match parse_usize(&cs, a, b) {
                    Some(q) => q,
                    None => {
                        return Err(str_to_string("bad state declaration"));
                    },
                };
                let mut j: usize = 0;
                while j < rows.len()
                    invariant
                        j <= rows.len(),
                    decreases rows.len() - j,
                {
                    if rows[j].q == q {
                        return Err(str_to_string("state declared twice"));
                    }
                    j = j + 1;
                }
                let mut tv: Vec<Option<u32>> = Vec::new();
                let mut sv: Vec<Option<i64>> = Vec::new();
                let mut x: usize = 0;
                while x < na
                    invariant
                        x <= na,
                        tv@.len() == x,
                        sv@.len() == x,
                    decreases na - x,
                {
                    tv.push(None);
                    sv.push(None);
                    x = x + 1;
                }
                rows.push(Row { q, tau: tv, sig: sv });
            },
        }
    }
    let n = rows.len();
    if n == 0 {
        return Err(str_to_string("no states"));
    }
    if n > u32::MAX as usize {
        return Err(str_to_string("too many states"));
    }
    // each number 0..n-1 declared exactly once
    let mut pos: Vec<usize> = Vec::new();
    let mut x: usize = 0;
    while x < n
        invariant
            x <= n,
            pos@.len() == x,
            forall|i: int| 0 <= i < x ==> (#[trigger] pos@[i]) == usize::MAX,
        decreases n - x,
    {
        pos.push(usize::MAX);
        x = x + 1;
    }
    let mut j: usize = 0;
    while j < n
        invariant
            j <= n,
            n == rows@.len(),
            pos@.len() == n,
            forall|i: int| 0 <= i < j ==> (#[trigger] rows@[i]).q < n,
            forall|i: int| 0 <= i < n ==> (#[trigger] pos@[i]) == usize::MAX || (pos@[i] as int) < n,
        decreases n - j,
    {
        let q = rows[j].q;
        if q >= n {
            return Err(str_to_string("states must be numbered from 0 without gaps"));
        }
        pos.set(q, j);
        j = j + 1;
    }
    let mut y: usize = 0;
    while y < n
        invariant
            y <= n,
            pos@.len() == n,
            forall|i: int| 0 <= i < y ==> (#[trigger] pos@[i] as int) < n,
            forall|i: int| 0 <= i < n ==> (#[trigger] pos@[i]) == usize::MAX || (pos@[i] as int) < n,
        decreases n - y,
    {
        if pos[y] == usize::MAX {
            return Err(str_to_string("states must be numbered from 0 without gaps"));
        }
        y = y + 1;
    }
    let start = rows[0].q;
    let mut t: Vec<u32> = Vec::new();
    let mut s: Vec<i64> = Vec::new();
    let mut q: usize = 0;
    while q < n
        invariant
            q <= n,
            n == rows@.len(),
            n <= u32::MAX,
            start < n,
            na == letters@.len(),
            pos@.len() == n,
            forall|i: int| 0 <= i < n ==> (#[trigger] pos@[i] as int) < n,
            forall|i: int| 0 <= i < rows@.len() ==> (#[trigger] rows@[i]).tau@.len() == na && rows@[i].sig@.len() == na,
            t@.len() == q * na,
            s@.len() == q * na,
            forall|i: int| 0 <= i < t@.len() ==> (#[trigger] t@[i] as int) < n,
        decreases n - q,
    {
        let src: usize = if q == start { 0 } else if q == 0 { start } else { q };
        let row = pos[src];
        let mut a: usize = 0;
        while a < na
            invariant
                a <= na,
                q < n,
                n <= u32::MAX,
                start < n,
                row < n,
                n == rows@.len(),
                na == letters@.len(),
                rows@[row as int].tau@.len() == na,
                rows@[row as int].sig@.len() == na,
                t@.len() == q * na + a,
                s@.len() == q * na + a,
                forall|i: int| 0 <= i < t@.len() ==> (#[trigger] t@[i] as int) < n,
            decreases na - a,
        {
            let d = match rows[row].tau[a] {
                Some(d) => d as usize,
                None => {
                    return Err(str_to_string("a transducer must be total"));
                },
            };
            if d >= n {
                return Err(str_to_string("destination out of range"));
            }
            let o = match rows[row].sig[a] {
                Some(o) => o,
                None => 0,
            };
            let rd: usize = if d == start { 0 } else if d == 0 { start } else { d };
            t.push(rd as u32);
            s.push(o);
            a = a + 1;
        }
        proof {
            assert(t@.len() == (q + 1) * na) by (nonlinear_arith)
                requires
                    t@.len() == q * na + na,
            ;
            assert(s@.len() == (q + 1) * na) by (nonlinear_arith)
                requires
                    s@.len() == q * na + na,
            ;
        }
        q = q + 1;
    }
    Ok(Transducer { name: str_to_string(name), nstates: n, letters, tau: t, sigma: s })
}

/// The same machine typed inline: the alphabet size `D`, then one token per
/// state of `D` comma-separated `target/output` pairs (an optional `q:`
/// prefix is ignored); the letters are `0..D-1`.
pub fn parse_inline(name: &str, toks: &[&str]) -> (r: Result<Transducer, String>)
    ensures
        toks@.len() < 2 ==> r is Err,
        r matches Ok(t) ==> t.wf() && t.name@ == name@ && t.nstates == toks@.len() - 1
            && forall|i: int| 0 <= i < t.letters@.len() ==> t.letters@[i] == i,
{
    if toks.len() < 2 {
        return Err(str_to_string("usage: transducer NAME D q0:t/o,t/o,.. .."));
    }
    let c0 = crate::strs::str_chars(toks[0]);
    let na = match parse_usize(&c0, 0, c0.len()) {
        Some(x) => x,
        None => {
            return Err(str_to_string("bad letter-alphabet size"));
        },
    };
    if na < 1 {
        return Err(str_to_string("letter alphabet must be non-empty"));
    }
    let n = toks.len() - 1;
    if n > u32::MAX as usize || na > i64::MAX as usize {
        return Err(str_to_string("too large"));
    }
    let mut tau: Vec<u32> = Vec::new();
    let mut sigma: Vec<i64> = Vec::new();
    let mut q: usize = 0;
    while q < n
        invariant
            q <= n,
            n == toks@.len() - 1,
            n <= u32::MAX,
            na >= 1,
            tau@.len() == q * na,
            sigma@.len() == q * na,
            forall|i: int| 0 <= i < tau@.len() ==> (#[trigger] tau@[i] as int) < n,
        decreases n - q,
    {
        let cs = crate::strs::str_chars(toks[q + 1]);
        let body = match find_char(&cs, 0, cs.len(), ':') {
            Some(c) => c + 1,
            None => 0,
        };
        let mut a: usize = 0;
        let mut p: usize = body;
        while a < na
            invariant
                a <= na,
                q < n,
                n <= u32::MAX,
                body <= p,
                p <= cs.len() || p == usize::MAX,
                tau@.len() == q * na + a,
                sigma@.len() == q * na + a,
                forall|i: int| 0 <= i < tau@.len() ==> (#[trigger] tau@[i] as int) < n,
            decreases na - a,
        {
            if p > cs.len() {
                return Err(str_to_string("wrong number of entries"));
            }
            let e = match find_char(&cs, p, cs.len(), ',') {
                Some(x) => x,
                None => cs.len(),
            };
            let slash = match find_char(&cs, p, e, '/') {
                Some(x) => x,
                None => {
                    return Err(str_to_string("expected target/output"));
                },
            };
            let (ta, tb) = trim(&cs, p, slash);
            let t = match parse_usize(&cs, ta, tb) {
                Some(t) => t,
                None => {
                    return Err(str_to_string("bad target"));
                },
            };
            if t >= n {
                return Err(str_to_string("target out of range"));
            }
            let (oa, ob) = trim(&cs, slash + 1, e);
            let o = match parse_i64(&cs, oa, ob) {
                Some(o) => o,
                None => {
                    return Err(str_to_string("bad output"));
                },
            };
            tau.push(t as u32);
            sigma.push(o);
            a = a + 1;
            if e == cs.len() {
                p = usize::MAX;
                if a < na {
                    return Err(str_to_string("wrong number of entries"));
                }
            } else {
                p = e + 1;
            }
        }
        if p <= cs.len() {
            return Err(str_to_string("wrong number of entries"));
        }
        proof {
            assert(tau@.len() == (q + 1) * na) by (nonlinear_arith)
                requires
                    tau@.len() == q * na + na,
            ;
            assert(sigma@.len() == (q + 1) * na) by (nonlinear_arith)
                requires
                    sigma@.len() == q * na + na,
            ;
        }
        q = q + 1;
    }
    let mut letters: Vec<i64> = Vec::new();
    let mut i: usize = 0;
    while i < na
        invariant
            i <= na,
            na <= i64::MAX,
            letters@.len() == i,
            forall|j: int| 0 <= j < i ==> letters@[j] == j,
        decreases na - i,
    {
        letters.push(i as i64);
        i = i + 1;
    }
    Ok(Transducer { name: str_to_string(name), nstates: n, letters, tau, sigma })
}

/// A DFAO seen as a (generally non-uniform) morphism: for each state the
/// `(digit, target)` pairs it may legally read, in digit order, its output
/// letter, and whether the word reaching it is a representation. Under a
/// numeration system a state is a pair (DFAO state, validity state).
pub struct Morphism {
    pub digits: usize,
    pub nstates: usize,
    pub edges: Vec<Vec<(usize, usize)>>,
    pub out: Vec<u8>,
    pub acc: Vec<bool>,
}

impl Morphism {
    /// Edges stay among the digits and the states.
    pub open spec fn wf(&self) -> bool {
        &&& 1 <= self.nstates
        &&& 1 <= self.digits
        &&& self.edges@.len() == self.nstates
        &&& self.out@.len() == self.nstates
        &&& self.acc@.len() == self.nstates
        &&& forall|s: int| 0 <= s < self.nstates ==> (#[trigger] self.edges@[s])@.len() <= self.digits
        &&& forall|s: int, e: int| 0 <= s < self.nstates && 0 <= e < self.edges@[s]@.len() ==>
            (#[trigger] self.edges@[s]@[e]).0 < self.digits && self.edges@[s]@[e].1 < self.nstates
    }
}

/// The morphism of `m`: every digit is legal in plain base `k`; under a
/// numeration system `m` is crossed with the msd validity automaton and only
/// digits that keep some valid completion are legal.
pub fn morphism_of(m: &Dfao, cx: &Ctx) -> (r: Morphism)
    requires
        m.wf(),
        m.nstates < u32::MAX,
        cx.wf(),
        cx.fits(m.k as nat),
    ensures
        r.wf(),
        r.digits == m.k,
{
    let k = m.k;
    match &cx.ns {
        None => {
            let mut edges: Vec<Vec<(usize, usize)>> = Vec::new();
            let mut acc: Vec<bool> = Vec::new();
            let mut q: usize = 0;
            while q < m.nstates
                invariant
                    m.wf(),
                    m.nstates < u32::MAX,
                    k == m.k,
                    q <= m.nstates,
                    edges@.len() == q,
                    acc@.len() == q,
                    forall|s: int| 0 <= s < q ==> (#[trigger] edges@[s])@.len() <= k,
                    forall|s: int, e: int| 0 <= s < q && 0 <= e < edges@[s]@.len() ==>
                        (#[trigger] edges@[s]@[e]).0 < k && edges@[s]@[e].1 < m.nstates,
                decreases m.nstates - q,
            {
                let mut e: Vec<(usize, usize)> = Vec::new();
                let mut d: usize = 0;
                while d < k
                    invariant
                        m.wf(),
                        k == m.k,
                        q < m.nstates,
                        d <= k,
                        e@.len() == d,
                        forall|x: int| 0 <= x < e@.len() ==> (#[trigger] e@[x]).0 < k && e@[x].1 < m.nstates,
                    decreases k - d,
                {
                    e.push((d, m.t(q, d)));
                    d = d + 1;
                }
                edges.push(e);
                acc.push(true);
                q = q + 1;
            }
            Morphism { digits: k, nstates: m.nstates, edges, out: m.out.clone(), acc }
        },
        Some(ns) => {
            let v = &ns.valid_msd;
            let live = crate::ostrowski::coreachable(v);
            let vn = v.nstates;
            let mut index: HashMap<u64, usize> = HashMap::new();
            let mut order: Vec<(usize, usize)> = Vec::new();
            order.push((0, 0));
            index.insert(0, 0);
            let mut edges: Vec<Vec<(usize, usize)>> = Vec::new();
            let mut out: Vec<u8> = Vec::new();
            let mut acc: Vec<bool> = Vec::new();
            proof {
                assert(v.alpha == k) by {
                    assert(spow(k as nat, 0) == 1);
                    assert(spow(k as nat, 1) == k * spow(k as nat, 0));
                }
                assert(m.nstates * vn <= u32::MAX * u32::MAX) by (nonlinear_arith)
                    requires
                        m.nstates <= u32::MAX,
                        vn <= u32::MAX,
                ;
                assert(1 <= m.nstates * vn) by (nonlinear_arith)
                    requires
                        m.nstates >= 1,
                        vn >= 1,
                ;
                assert(index@.dom() =~= Set::empty().insert(0u64));
                assert(index@[0] == 0);
                assert(order@.len() == 1 && order@[0] == (0usize, 0usize));
                assert(order@[0].0 == 0 && order@[0].1 == 0);
                assert(0 * vn == 0) by (nonlinear_arith);
                assert((order@[0].0 * vn + order@[0].1) as u64 == 0u64);
                assert forall|key: u64| #[trigger] index@.contains_key(key) implies (index@[key] as int) < order@.len()
                    && order@[index@[key] as int].0 * vn + order@[index@[key] as int].1 == key by {
                    assert(index@.dom().contains(key));
                    assert(key == 0);
                }
            }
            let mut i: usize = 0;
            while i < order.len()
                invariant
                    m.wf(),
                    v.wf(),
                    v.alpha == k,
                    k == m.k,
                    vn == v.nstates,
                    live@.len() == vn,
                    m.nstates * vn <= u32::MAX * u32::MAX,
                    1 <= order@.len(),
                    i <= order@.len(),
                    order@.len() <= m.nstates * vn,
                    edges@.len() == i,
                    out@.len() == i,
                    acc@.len() == i,
                    forall|x: int| 0 <= x < order@.len() ==> (#[trigger] order@[x]).0 < m.nstates && order@[x].1 < vn,
                    forall|x: int| 0 <= x < order@.len() ==> index@.contains_key((order@[x].0 * vn + order@[x].1) as u64)
                        && index@[(order@[x].0 * vn + order@[x].1) as u64] == x,
                    forall|key: u64| #[trigger] index@.contains_key(key) ==> (index@[key] as int) < order@.len()
                        && order@[index@[key] as int].0 * vn + order@[index@[key] as int].1 == key,
                    forall|s: int, e: int| 0 <= s < i && 0 <= e < edges@[s]@.len() ==>
                        (#[trigger] edges@[s]@[e]).0 < k && edges@[s]@[e].1 < order@.len(),
                    forall|s: int| 0 <= s < i ==> (#[trigger] edges@[s])@.len() <= k,
                decreases m.nstates * vn - i,
            {
                let (q, vs) = order[i];
                out.push(m.out[q]);
                acc.push(v.accept[vs]);
                let mut e: Vec<(usize, usize)> = Vec::new();
                let mut d: usize = 0;
                while d < k
                    invariant
                        m.wf(),
                        v.wf(),
                        v.alpha == k,
                        k == m.k,
                        vn == v.nstates,
                        live@.len() == vn,
                        m.nstates * vn <= u32::MAX * u32::MAX,
                        1 <= order@.len(),
                        i < order@.len(),
                        order@.len() <= m.nstates * vn,
                        q < m.nstates,
                        vs < vn,
                        d <= k,
                        forall|x: int| 0 <= x < order@.len() ==> (#[trigger] order@[x]).0 < m.nstates && order@[x].1 < vn,
                        forall|x: int| 0 <= x < order@.len() ==> index@.contains_key((order@[x].0 * vn + order@[x].1) as u64)
                            && index@[(order@[x].0 * vn + order@[x].1) as u64] == x,
                        forall|key: u64| #[trigger] index@.contains_key(key) ==> (index@[key] as int) < order@.len()
                            && order@[index@[key] as int].0 * vn + order@[index@[key] as int].1 == key,
                        forall|s: int, x: int| 0 <= s < i && 0 <= x < edges@[s]@.len() ==>
                            (#[trigger] edges@[s]@[x]).0 < k && edges@[s]@[x].1 < order@.len(),
                        forall|x: int| 0 <= x < e@.len() ==> (#[trigger] e@[x]).0 < k && e@[x].1 < order@.len(),
                        edges@.len() == i,
                        e@.len() <= d,
                        forall|x: int| 0 <= x < i ==> (#[trigger] edges@[x])@.len() <= k,
                    decreases k - d,
                {
                    let v2 = v.t(vs, d);
                    if live[v2] {
                        let q2 = m.t(q, d);
                        proof {
                            crate::dfa::lemma_index(q2 as nat, v2 as nat, m.nstates as nat, vn as nat);
                        }
                        proof {
                            assert(q2 * vn + v2 < u32::MAX * u32::MAX) by (nonlinear_arith)
                                requires
                                    q2 < u32::MAX,
                                    v2 < vn,
                                    vn <= u32::MAX,
                            ;
                        }
                        let key = (q2 as u64) * (vn as u64) + (v2 as u64);
                        let t = match index.get(&key) {
                            Some(x) => *x,
                            None => {
                                let t = order.len();
                                proof {
                                    assert forall|x: int, y: int| 0 <= x < y < order@.len() implies order@[x] != order@[y] by {
                                        let ox = order@[x];
                                        assert(index@[(ox.0 * vn + ox.1) as u64] == x);
                                    }
                                    assert forall|x: int| 0 <= x < order@.len() implies order@[x] != (q2, v2) by {
                                        if order@[x] == (q2, v2) {
                                            assert(index@.contains_key(key));
                                        }
                                    }
                                    lemma_pairs_fit(order@, q2 as nat, v2 as nat, m.nstates as nat, vn as nat);
                                }
                                order.push((q2, v2));
                                index.insert(key, t);
                                proof {
                                    assert forall|x: int| 0 <= x < order@.len() implies index@.contains_key((order@[x].0 * vn + order@[x].1) as u64)
                                        && index@[(order@[x].0 * vn + order@[x].1) as u64] == x by {
                                        if x < t {
                                            let ox = order@[x];
                                            if ox.0 * vn + ox.1 == key {
                                                crate::product::lemma_pair_unique(ox.0 as nat, ox.1 as nat, q2 as nat, v2 as nat, vn as nat);
                                            }
                                        }
                                    }
                                }
                                t
                            },
                        };
                        e.push((d, t));
                    }
                    d = d + 1;
                }
                let ghost pe = edges@;
                assert(e@.len() <= k);
                edges.push(e);
                proof {
                    assert forall|x: int| 0 <= x < i + 1 implies (#[trigger] edges@[x])@.len() <= k by {
                        if x < i {
                            assert(edges@[x] == pe[x]);
                        }
                    }
                }
                i = i + 1;
            }
            Morphism { digits: k, nstates: order.len(), edges, out, acc }
        },
    }
}

/// Distinct pairs below `(n, m)` number at most `n m`, so a new one still fits.
proof fn lemma_pairs_fit(order: Seq<(usize, usize)>, a: nat, b: nat, n: nat, m: nat)
    requires
        a < n,
        b < m,
        forall|x: int| 0 <= x < order.len() ==> (#[trigger] order[x]).0 < n && order[x].1 < m,
        forall|x: int, y: int| 0 <= x < y < order.len() ==> order[x] != order[y],
        forall|x: int| 0 <= x < order.len() ==> order[x] != (a as usize, b as usize),
    ensures
        order.len() + 1 <= n * m,
{
    let keys = order.push((a as usize, b as usize)).map_values(|p: (usize, usize)| p.0 * m + p.1);
    let ks = keys.to_set();
    let range = vstd::set_lib::set_int_range(0, (n * m) as int);
    assert forall|x: int| 0 <= x < keys.len() implies 0 <= #[trigger] keys[x] < n * m by {
        let p = order.push((a as usize, b as usize))[x];
        crate::dfa::lemma_index(p.0 as nat, p.1 as nat, n, m);
    }
    assert(ks.subset_of(range));
    vstd::set_lib::lemma_int_range(0, (n * m) as int);
    vstd::set_lib::lemma_len_subset(ks, range);
    assert forall|x: int, y: int| 0 <= x < y < keys.len() implies keys[x] != keys[y] by {
        let o = order.push((a as usize, b as usize));
        if keys[x] == keys[y] {
            crate::product::lemma_pair_unique(o[x].0 as nat, o[x].1 as nat, o[y].0 as nat, o[y].1 as nat, m);
        }
    }
    keys.unique_seq_to_set();
}

/// A function `P -> P` on `np` transducer states, as a table.
pub open spec fn map_ok(f: Seq<u32>, np: nat) -> bool {
    f.len() == np && forall|i: int| 0 <= i < np ==> (#[trigger] f[i] as nat) < np
}

/// The identity map.
fn ident(np: usize) -> (r: Vec<u32>)
    requires
        np <= u32::MAX,
    ensures
        map_ok(r@, np as nat),
{
    let mut v: Vec<u32> = Vec::new();
    let mut i: usize = 0;
    while i < np
        invariant
            i <= np <= u32::MAX,
            v@.len() == i,
            forall|x: int| 0 <= x < i ==> (#[trigger] v@[x] as nat) < np,
        decreases np - i,
    {
        v.push(i as u32);
        i = i + 1;
    }
    v
}

/// `f` then `g`: `x -> g(f(x))`.
fn compose(f: &Vec<u32>, g: &Vec<u32>, Ghost(np): Ghost<nat>) -> (r: Vec<u32>)
    requires
        map_ok(f@, np),
        map_ok(g@, np),
    ensures
        map_ok(r@, np),
        forall|i: int| 0 <= i < np ==> #[trigger] r@[i] == g@[f@[i] as int],
{
    let mut v: Vec<u32> = Vec::new();
    let mut i: usize = 0;
    while i < f.len()
        invariant
            map_ok(f@, np),
            map_ok(g@, np),
            i <= f@.len(),
            v@.len() == i,
            forall|x: int| 0 <= x < i ==> #[trigger] v@[x] == g@[f@[x] as int] && (v@[x] as nat) < np,
        decreases f@.len() - i,
    {
        v.push(g[f[i] as usize]);
        i = i + 1;
    }
    v
}

/// Append the entries of `f`.
fn push_map(key: &mut Vec<u64>, f: &Vec<u32>, Ghost(np): Ghost<nat>)
    requires
        map_ok(f@, np),
    ensures
        final(key)@.len() == old(key)@.len() + np,
        forall|x: int| 0 <= x < old(key)@.len() ==> #[trigger] final(key)@[x] == old(key)@[x],
        forall|x: int| old(key)@.len() <= x < final(key)@.len() ==> (#[trigger] final(key)@[x] as nat) < np,
        final(key)@ == old(key)@ + widened(f@),
{
    let mut i: usize = 0;
    while i < f.len()
        invariant
            map_ok(f@, np),
            i <= f@.len(),
            key@.len() == old(key)@.len() + i,
            forall|x: int| 0 <= x < old(key)@.len() ==> #[trigger] key@[x] == old(key)@[x],
            forall|x: int| old(key)@.len() <= x < key@.len() ==> (#[trigger] key@[x] as nat) < np,
            key@ == old(key)@ + widened(f@.take(i as int)),
        decreases f@.len() - i,
    {
        key.push(f[i] as u64);
        i = i + 1;
        proof {
            assert(key@ =~= old(key)@ + widened(f@.take(i as int)));
        }
    }
    proof {
        assert(f@.take(f@.len() as int) =~= f@);
    }
}

/// The entries widened to `u64`.
pub open spec fn widened(f: Seq<u32>) -> Seq<u64> {
    f.map_values(|x: u32| x as u64)
}

/// The rows one after another, widened to `u64`.
pub open spec fn flat(rows: Seq<Vec<u32>>) -> Seq<u64>
    decreases rows.len(),
{
    if rows.len() == 0 { Seq::empty() } else { flat(rows.drop_last()) + widened(rows.last()@) }
}

/// The map stored at `key[off .. off + np]`.
fn get_map(key: &Vec<u64>, off: usize, np: usize) -> (r: Vec<u32>)
    requires
        off + np <= key@.len(),
        np <= u32::MAX,
        forall|x: int| off <= x < off + np ==> (#[trigger] key@[x] as nat) < np,
    ensures
        map_ok(r@, np as nat),
{
    let kl = key.len();
    let mut v: Vec<u32> = Vec::new();
    let mut i: usize = 0;
    while i < np
        invariant
            kl == key@.len(),
            off + np <= key@.len(),
            np <= u32::MAX,
            forall|x: int| off <= x < off + np ==> (#[trigger] key@[x] as nat) < np,
            i <= np,
            v@.len() == i,
            forall|x: int| 0 <= x < i ==> (#[trigger] v@[x] as nat) < np,
        decreases np - i,
    {
        v.push(key[off + i] as u32);
        i = i + 1;
    }
    v
}

/// A BFS key `(s, f_0 .. f_{l-1})`, flattened.
pub open spec fn key_ok(key: Seq<u64>, l: nat, np: nat, hn: nat) -> bool {
    &&& key.len() == 1 + l * np
    &&& (key[0] as nat) < hn
    &&& forall|x: int| 1 <= x < key.len() ==> (#[trigger] key[x] as nat) < np
}

/// A row of maps (one per morphism state), flattened.
fn flatten(row: &Vec<Vec<u32>>, Ghost(np): Ghost<nat>) -> (r: Vec<u64>)
    requires
        forall|s: int| 0 <= s < row@.len() ==> map_ok(#[trigger] row@[s]@, np),
    ensures
        r@ == flat(row@),
{
    let mut key: Vec<u64> = Vec::new();
    let mut s: usize = 0;
    proof {
        assert(row@.take(0) =~= Seq::<Vec<u32>>::empty());
    }
    while s < row.len()
        invariant
            s <= row@.len(),
            forall|x: int| 0 <= x < row@.len() ==> map_ok(#[trigger] row@[x]@, np),
            key@ == flat(row@.take(s as int)),
        decreases row@.len() - s,
    {
        push_map(&mut key, &row[s], Ghost(np));
        proof {
            assert(row@.take(s + 1).drop_last() =~= row@.take(s as int));
            assert(row@.take(s + 1).last() == row@[s as int]);
        }
        s = s + 1;
    }
    proof {
        assert(row@.take(row@.len() as int) =~= row@);
    }
    key
}

/// Apply `t` to the sequence `m` (Dekking's construction): the DFAO of the
/// transduced sequence. Fails if an output letter of `m` that holds a position
/// is outside the transducer's input alphabet, if an output of `t` does not fit
/// a byte, if the iterate maps are not periodic within 4096 steps, or past a
/// million states.
pub fn transduce(m: &Dfao, t: &Transducer, name: &str, cx: &Ctx) -> (r: Result<Dfao, String>)
    requires
        m.wf(),
        m.nstates < u32::MAX,
        t.wf(),
        cx.wf(),
        cx.fits(m.k as nat),
    ensures
        r matches Ok(d) ==> d.wf() && d.k == m.k,
{
    let h = morphism_of(m, cx);
    let np = t.nstates;
    let na = t.letters.len();
    let ghost gnp = np as nat;
    let mut lidx: Vec<Option<usize>> = Vec::new();
    let mut s: usize = 0;
    while s < h.nstates
        invariant
            h.wf(),
            t.wf(),
            na == t.letters@.len(),
            s <= h.nstates,
            lidx@.len() == s,
            forall|x: int| 0 <= x < s ==> (#[trigger] lidx@[x] matches Some(l) ==> l < na),
        decreases h.nstates - s,
    {
        let i = t.letter_index(h.out[s] as i64);
        proof {
            lemma_letter_pos_bound(t.letters@, h.out@[s as int] as int);
        }
        if i.is_none() && h.acc[s] {
            return Err(str_to_string("a sequence letter is outside the transducer's input alphabet"));
        }
        lidx.push(i);
        s = s + 1;
    }
    // a[i][s] = the map induced by the positions under s at depth i
    let id = ident(np);
    let mut a0: Vec<Vec<u32>> = Vec::new();
    let mut s: usize = 0;
    while s < h.nstates
        invariant
            h.wf(),
            t.wf(),
            np == t.nstates,
            gnp == np,
            na == t.letters@.len(),
            lidx@.len() == h.nstates,
            forall|x: int| 0 <= x < h.nstates ==> (#[trigger] lidx@[x] matches Some(l) ==> l < na),
            map_ok(id@, gnp),
            s <= h.nstates,
            a0@.len() == s,
            forall|x: int| 0 <= x < s ==> map_ok(#[trigger] a0@[x]@, gnp),
        decreases h.nstates - s,
    {
        let f = match (h.acc[s], lidx[s]) {
            (true, Some(l)) => {
                let mut f: Vec<u32> = Vec::new();
                let mut p: usize = 0;
                let tl = t.tau.len();
                while p < np
                    invariant
                        tl == t.tau@.len(),
                        t.wf(),
                        np == t.nstates,
                        na == t.letters@.len(),
                        l < na,
                        p <= np,
                        f@.len() == p,
                        forall|x: int| 0 <= x < p ==> (#[trigger] f@[x] as nat) < np,
                    decreases np - p,
                {
                    proof {
                        crate::dfa::lemma_index(p as nat, l as nat, np as nat, na as nat);
                    }
                    f.push(t.tau[p * na + l]);
                    p = p + 1;
                }
                f
            },
            _ => id.clone(),
        };
        proof {
            assert(map_ok(f@, gnp));
        }
        a0.push(f);
        s = s + 1;
    }
    let mut a: Vec<Vec<Vec<u32>>> = Vec::new();
    let mut seen = crate::nfa::Subsets::new(flatten(&a0, Ghost(gnp)));
    a.push(a0);
    let mut pre: usize = 0;
    let mut per: usize = 0;
    let mut found = false;
    while !found
        invariant
            h.wf(),
            np == t.nstates,
            gnp == np,
            np <= u32::MAX,
            map_ok(id@, gnp),
            seen.wf(),
            seen.order@.len() == a@.len(),
            1 <= a@.len() <= 4096,
            forall|i: int, x: int| 0 <= i < a@.len() && 0 <= x < h.nstates ==> map_ok(#[trigger] a@[i]@[x]@, gnp),
            forall|i: int| 0 <= i < a@.len() ==> (#[trigger] a@[i])@.len() == h.nstates,
            found ==> per >= 1 && pre + per == a@.len(),
        decreases 4097 - a@.len() + (if found { 0int } else { 1int }),
    {
        let last = a.len() - 1;
        let mut next: Vec<Vec<u32>> = Vec::new();
        let mut s: usize = 0;
        while s < h.nstates
            invariant
                h.wf(),
                gnp == np,
                map_ok(id@, gnp),
                last < a@.len(),
                forall|i: int, x: int| 0 <= i < a@.len() && 0 <= x < h.nstates ==> map_ok(#[trigger] a@[i]@[x]@, gnp),
                forall|i: int| 0 <= i < a@.len() ==> (#[trigger] a@[i])@.len() == h.nstates,
                s <= h.nstates,
                next@.len() == s,
                forall|x: int| 0 <= x < s ==> map_ok(#[trigger] next@[x]@, gnp),
            decreases h.nstates - s,
        {
            let mut f = id.clone();
            proof {
                assert(f@ == id@);
            }
            let mut e: usize = 0;
            while e < h.edges[s].len()
                invariant
                    h.wf(),
                    s < h.nstates,
                    gnp == np,
                    last < a@.len(),
                    forall|i: int, x: int| 0 <= i < a@.len() && 0 <= x < h.nstates ==> map_ok(#[trigger] a@[i]@[x]@, gnp),
                    forall|i: int| 0 <= i < a@.len() ==> (#[trigger] a@[i])@.len() == h.nstates,
                    map_ok(f@, gnp),
                    e <= h.edges@[s as int]@.len(),
                decreases h.edges@[s as int]@.len() - e,
            {
                let tgt = h.edges[s][e].1;
                f = compose(&f, &a[last][tgt], Ghost(gnp));
                e = e + 1;
            }
            next.push(f);
            s = s + 1;
        }
        let i = a.len();
        let (id2, fresh) = seen.intern(flatten(&next, Ghost(gnp)));
        if !fresh {
            pre = id2 as usize;
            per = i - pre;
            found = true;
        } else {
            a.push(next);
            if a.len() > 4096 {
                return Err(str_to_string("iterate maps did not become periodic within 4096 steps"));
            }
        }
    }
    let l = pre + per;
    proof {
        assert(l * np <= 4096 * u32::MAX) by (nonlinear_arith)
            requires
                l <= 4096,
                np <= u32::MAX,
        ;
    }
    bfs_states(m, &h, t, &a, &lidx, &id, pre, per, name)
}

/// A copy of `v`.
fn copy_key(v: &Vec<u64>) -> (r: Vec<u64>)
    ensures
        r@ == v@,
{
    let mut r: Vec<u64> = Vec::new();
    let mut i: usize = 0;
    while i < v.len()
        invariant
            i <= v@.len(),
            r@ == v@.take(i as int),
        decreases v@.len() - i,
    {
        r.push(v[i]);
        i = i + 1;
        proof {
            assert(r@ =~= v@.take(i as int));
        }
    }
    proof {
        assert(v@.take(v@.len() as int) =~= v@);
    }
    r
}

/// The breadth-first construction over the states `(s, f_0 .. f_{l-1})` of
/// the transduced sequence, then a dead sink for illegal digits, Moore
/// minimisation, and the sequence's tables.
fn bfs_states(
    m: &Dfao,
    h: &Morphism,
    t: &Transducer,
    a: &Vec<Vec<Vec<u32>>>,
    lidx: &Vec<Option<usize>>,
    id: &Vec<u32>,
    pre: usize,
    per: usize,
    name: &str,
) -> (r: Result<Dfao, String>)
    requires
        m.wf(),
        h.wf(),
        h.digits == m.k,
        t.wf(),
        t.nstates <= u32::MAX,
        per >= 1,
        pre + per == a@.len(),
        a@.len() <= 4096,
        forall|i: int, x: int| 0 <= i < a@.len() && 0 <= x < h.nstates ==> map_ok(#[trigger] a@[i]@[x]@, t.nstates as nat),
        forall|i: int| 0 <= i < a@.len() ==> (#[trigger] a@[i])@.len() == h.nstates,
        lidx@.len() == h.nstates,
        forall|x: int| 0 <= x < h.nstates ==> (#[trigger] lidx@[x] matches Some(lx) ==> lx < t.letters@.len()),
        map_ok(id@, t.nstates as nat),
    ensures
        r matches Ok(d) ==> d.wf() && d.k == m.k,
{
    let np = t.nstates;
    let na = t.letters.len();
    let ghost gnp = np as nat;
    let l = pre + per;
    let dcount = h.digits;
    proof {
        assert(l * np <= 4096 * u32::MAX) by (nonlinear_arith)
            requires
                l <= 4096,
                np <= u32::MAX,
        ;
        assert(np >= 1);
        assert(l * np >= 1) by (nonlinear_arith)
            requires
                l >= 1,
                np >= 1,
        ;
    }
    let mut k0: Vec<u64> = Vec::new();
    k0.push(0);
    let mut j: usize = 0;
    while j < l
        invariant
            map_ok(id@, gnp),
            gnp == np,
            j <= l,
            k0@.len() == 1 + j * np,
            k0@[0] == 0,
            forall|x: int| 1 <= x < k0@.len() ==> (#[trigger] k0@[x] as nat) < np,
        decreases l - j,
    {
        push_map(&mut k0, id, Ghost(gnp));
        proof {
            assert((j + 1) * np == j * np + np) by (nonlinear_arith);
        }
        j = j + 1;
    }
    let mut index = crate::nfa::Subsets::new(k0);
    let mut trans: Vec<i64> = Vec::new();
    let mut out: Vec<u8> = Vec::new();
    let mut i: usize = 0;
    while i < index.order.len()
        invariant
            m.wf(),
            h.wf(),
            h.digits == m.k,
            dcount == h.digits,
            t.wf(),
            np == t.nstates,
            gnp == np,
            na == t.letters@.len(),
            np <= u32::MAX,
            per >= 1,
            l == pre + per,
            l == a@.len(),
            l * np <= 4096 * u32::MAX,
            forall|i2: int, x: int| 0 <= i2 < a@.len() && 0 <= x < h.nstates ==> map_ok(#[trigger] a@[i2]@[x]@, gnp),
            forall|i2: int| 0 <= i2 < a@.len() ==> (#[trigger] a@[i2])@.len() == h.nstates,
            lidx@.len() == h.nstates,
            forall|x: int| 0 <= x < h.nstates ==> (#[trigger] lidx@[x] matches Some(lx) ==> lx < na),
            map_ok(id@, gnp),
            index.wf(),
            1 <= index.order@.len() <= 1000000,
            forall|x: int| 0 <= x < index.order@.len() ==> key_ok(#[trigger] index.order@[x]@, l as nat, gnp, h.nstates as nat),
            i <= index.order@.len(),
            trans@.len() == i * dcount,
            out@.len() == i,
            forall|y: int| 0 <= y < trans@.len() ==> -1 <= #[trigger] trans@[y] < index.order@.len(),
        decreases 1000000 - i,
    {
        let key = copy_key(&index.order[i]);
        let kl = key.len();
        let sl = t.sigma.len();
        proof {
            assert(key_ok(key@, l as nat, gnp, h.nstates as nat));
        }
        let s = key[0] as usize;
        let o: i64 = match lidx[s] {
            Some(lx) => {
                proof {
                    assert(1 < key@.len()) by {
                        assert(l * np >= 1) by (nonlinear_arith)
                            requires
                                l >= 1,
                                np >= 1,
                        ;
                    }
                    crate::dfa::lemma_index(key@[1] as nat, lx as nat, np as nat, na as nat);
                }
                t.sigma[(key[1] as usize) * na + lx]
            },
            None => 0,
        };
        if o < 0 || o > 255 {
            return Err(str_to_string("a transducer output does not fit a byte"));
        }
        out.push(o as u8);
        let mut row: Vec<i64> = Vec::new();
        let mut d: usize = 0;
        while d < dcount
            invariant
                d <= dcount,
                row@.len() == d,
                forall|y: int| 0 <= y < d ==> #[trigger] row@[y] == -1,
            decreases dcount - d,
        {
            row.push(-1);
            d = d + 1;
        }
        let mut g: Vec<Vec<u32>> = Vec::new();
        let mut j: usize = 0;
        while j < l
            invariant
                map_ok(id@, gnp),
                j <= l,
                g@.len() == j,
                forall|x: int| 0 <= x < j ==> map_ok(#[trigger] g@[x]@, gnp),
            decreases l - j,
        {
            g.push(id.clone());
            proof {
                assert(g@[j as int]@ == id@);
            }
            j = j + 1;
        }
        let mut e: usize = 0;
        while e < h.edges[s].len()
            invariant
                h.wf(),
                h.digits == m.k,
                dcount == h.digits,
                s < h.nstates,
                np == t.nstates,
                gnp == np,
                np <= u32::MAX,
                per >= 1,
                l == pre + per,
                l == a@.len(),
                l * np <= 4096 * u32::MAX,
                forall|i2: int, x: int| 0 <= i2 < a@.len() && 0 <= x < h.nstates ==> map_ok(#[trigger] a@[i2]@[x]@, gnp),
                forall|i2: int| 0 <= i2 < a@.len() ==> (#[trigger] a@[i2])@.len() == h.nstates,
                key_ok(key@, l as nat, gnp, h.nstates as nat),
                kl == key@.len(),
                g@.len() == l,
                forall|x: int| 0 <= x < l ==> map_ok(#[trigger] g@[x]@, gnp),
                index.wf(),
                1 <= index.order@.len() <= 1000000 + e,
                i < index.order@.len(),
                trans@.len() == i * dcount,
                forall|y: int| 0 <= y < trans@.len() ==> -1 <= #[trigger] trans@[y] < index.order@.len(),
                h.edges@[s as int]@.len() <= h.digits,
                h.digits <= MAX_ALPHA,
                forall|x: int| 0 <= x < index.order@.len() ==> key_ok(#[trigger] index.order@[x]@, l as nat, gnp, h.nstates as nat),
                row@.len() == dcount,
                forall|y: int| 0 <= y < dcount ==> -1 <= #[trigger] row@[y] < index.order@.len(),
                e <= h.edges@[s as int]@.len(),
            decreases h.edges@[s as int]@.len() - e,
        {
            let (d, tgt) = h.edges[s][e];
            let mut nk: Vec<u64> = Vec::new();
            nk.push(tgt as u64);
            let mut j: usize = 0;
            while j < l
                invariant
                    gnp == np,
                    np <= u32::MAX,
                    per >= 1,
                    l == pre + per,
                    l * np <= 4096 * u32::MAX,
                    key_ok(key@, l as nat, gnp, h.nstates as nat),
                    kl == key@.len(),
                    g@.len() == l,
                    forall|x: int| 0 <= x < l ==> map_ok(#[trigger] g@[x]@, gnp),
                    tgt < h.nstates,
                    j <= l,
                    nk@.len() == 1 + j * np,
                    nk@[0] == tgt as u64,
                    forall|x: int| 1 <= x < nk@.len() ==> (#[trigger] nk@[x] as nat) < np,
                decreases l - j,
            {
                let w = if j + 1 < l { j + 1 } else { pre + (j + 1 - pre) % per };
                proof {
                    assert(w < l);
                    assert(1 + w * np + np <= 1 + l * np) by (nonlinear_arith)
                        requires
                            w < l,
                    ;
                    assert forall|x: int| 1 + w * np <= x < 1 + w * np + np implies (#[trigger] key@[x] as nat) < np by {
                        assert(1 <= 1 + w * np) by (nonlinear_arith);
                    }
                }
                let f1 = get_map(&key, 1 + w * np, np);
                let nf = compose(&f1, &g[j], Ghost(gnp));
                let ghost pre_nk = nk@;
                push_map(&mut nk, &nf, Ghost(gnp));
                proof {
                    assert(nk@[0] == pre_nk[0]);
                    assert((j + 1) * np == j * np + np) by (nonlinear_arith);
                }
                j = j + 1;
            }
            proof {
                assert(key_ok(nk@, l as nat, gnp, h.nstates as nat));
            }
            let ghost ilen = index.order@.len();
            let (idx, _) = index.intern(nk);
            proof {
                assert(h.edges@[s as int]@[e as int].0 < h.digits);
                assert(index.order@.len() >= ilen);
            }
            row.set(d, idx as i64);
            let mut j: usize = 0;
            while j < l
                invariant
                    gnp == np,
                    l == a@.len(),
                    forall|i2: int, x: int| 0 <= i2 < a@.len() && 0 <= x < h.nstates ==> map_ok(#[trigger] a@[i2]@[x]@, gnp),
                    forall|i2: int| 0 <= i2 < a@.len() ==> (#[trigger] a@[i2])@.len() == h.nstates,
                    tgt < h.nstates,
                    g@.len() == l,
                    forall|x: int| 0 <= x < l ==> map_ok(#[trigger] g@[x]@, gnp),
                    j <= l,
                decreases l - j,
            {
                let ng = compose(&g[j], &a[j][tgt], Ghost(gnp));
                g.set(j, ng);
                j = j + 1;
            }
            e = e + 1;
        }
        let mut d: usize = 0;
        while d < dcount
            invariant
                d <= dcount,
                row@.len() == dcount,
                trans@.len() == i * dcount + d,
                forall|y: int| 0 <= y < dcount ==> -1 <= #[trigger] row@[y] < index.order@.len(),
                forall|y: int| 0 <= y < trans@.len() ==> -1 <= #[trigger] trans@[y] < index.order@.len(),
            decreases dcount - d,
        {
            trans.push(row[d]);
            d = d + 1;
        }
        proof {
            assert((i + 1) * dcount == i * dcount + dcount) by (nonlinear_arith);
        }
        i = i + 1;
        if index.order.len() > 1000000 {
            return Err(str_to_string("the transduced automaton exceeded a million states"));
        }
    }
    let n = index.order.len();
    let dead = n as u32;
    let mut tt: Vec<u32> = Vec::new();
    let mut y: usize = 0;
    let total = match (n + 1).checked_mul(dcount) {
        Some(x) => x,
        None => {
            return Err(str_to_string("the transduced automaton is too large"));
        },
    };
    while y < total
        invariant
            total == (n + 1) * dcount,
            y <= total,
            trans@.len() == n * dcount,
            dead == n,
            tt@.len() == y,
            forall|z: int| 0 <= z < trans@.len() ==> -1 <= #[trigger] trans@[z] < n,
            forall|z: int| 0 <= z < y ==> (#[trigger] tt@[z] as nat) <= n,
        decreases total - y,
    {
        if y < trans.len() && trans[y] >= 0 {
            tt.push(trans[y] as u32);
        } else {
            tt.push(dead);
        }
        y = y + 1;
    }
    out.push(0);
    proof {
        assert forall|z: int| 0 <= z < tt@.len() implies (#[trigger] tt@[z] as nat) < n + 1 by {}
    }
    let (n2, tt2, oo2) = minimize(dcount, n + 1, &tt, &out);
    Dfao::from_tables(dcount, n2, tt2, oo2, name)
}

/// Moore minimisation of a complete DFAO (state 0 stays the start state):
/// keep the states reachable from 0, refine the partition by output and
/// successor classes until it is stable (at most `m` rounds on `m` states),
/// and number the classes in order of first appearance.
pub fn minimize(k: usize, n: usize, trans: &Vec<State>, out: &Vec<u8>) -> (r: (usize, Vec<State>, Vec<u8>))
    requires
        1 <= k <= MAX_ALPHA,
        1 <= n <= u32::MAX,
        n + 256 <= usize::MAX,
        table_ok(trans@, n as nat, k as nat),
        out@.len() == n,
    ensures
        1 <= r.0 <= n,
        table_ok(r.1@, r.0 as nat, k as nat),
        r.2@.len() == r.0,
        forall|w: Seq<usize>| crate::dfa::word_over(w, k as nat) ==> #[trigger] table_out(r.1@, r.2@, k as nat, w)
            == table_out(trans@, out@, k as nat, w),
{
    let tl = trans.len();
    // reachable states, in breadth-first order
    let mut map: Vec<usize> = Vec::new();
    let mut vis: Vec<bool> = Vec::new();
    let mut x: usize = 0;
    while x < n
        invariant
            x <= n,
            map@.len() == x,
            vis@.len() == x,
            forall|y: int| 0 <= y < x ==> #[trigger] map@[y] == usize::MAX,
            forall|y: int| 0 <= y < x ==> !#[trigger] vis@[y],
        decreases n - x,
    {
        map.push(usize::MAX);
        vis.push(false);
        x = x + 1;
    }
    let mut order: Vec<usize> = Vec::new();
    proof {
        crate::ostrowski::lemma_ntrue(vis@, 0);
        assert(crate::ostrowski::ntrue(vis@) == 0) by {
            lemma_ntrue_zero(vis@);
        }
    }
    map.set(0, 0);
    vis.set(0, true);
    order.push(0);
    let mut i: usize = 0;
    while i < order.len()
        invariant
            1 <= k <= MAX_ALPHA,
            1 <= n <= u32::MAX,
            tl == trans@.len(),
            table_ok(trans@, n as nat, k as nat),
            map@.len() == n,
            vis@.len() == n,
            order@.len() == crate::ostrowski::ntrue(vis@),
            crate::ostrowski::ntrue(vis@) <= n,
            1 <= order@.len(),
            order@[0] == 0,
            i <= order@.len(),
            forall|y: int| 0 <= y < order@.len() ==> (#[trigger] order@[y]) < n && map@[order@[y] as int] == y,
            forall|y: int| 0 <= y < n ==> (#[trigger] vis@[y] <==> map@[y] != usize::MAX),
            forall|y: int| 0 <= y < n && vis@[y] ==> (#[trigger] map@[y]) < order@.len() && order@[map@[y] as int] == y,
            forall|q: int, d: int| 0 <= q < i && 0 <= d < k ==> #[trigger] vis@[trans@[order@[q] * k + d] as int],
        decreases n - i,
    {
        proof {
            crate::ostrowski::lemma_ntrue_bound(vis@);
        }
        let s = order[i];
        let mut d: usize = 0;
        while d < k
            invariant
                1 <= k <= MAX_ALPHA,
                1 <= n <= u32::MAX,
                tl == trans@.len(),
                table_ok(trans@, n as nat, k as nat),
                map@.len() == n,
                vis@.len() == n,
                order@.len() == crate::ostrowski::ntrue(vis@),
                crate::ostrowski::ntrue(vis@) <= n,
                1 <= order@.len(),
                order@[0] == 0,
                i < order@.len(),
                s == order@[i as int],
                s < n,
                d <= k,
                forall|y: int| 0 <= y < order@.len() ==> (#[trigger] order@[y]) < n && map@[order@[y] as int] == y,
                forall|y: int| 0 <= y < n ==> (#[trigger] vis@[y] <==> map@[y] != usize::MAX),
                forall|y: int| 0 <= y < n && vis@[y] ==> (#[trigger] map@[y]) < order@.len() && order@[map@[y] as int] == y,
                forall|q: int, d2: int| 0 <= q < i && 0 <= d2 < k ==> #[trigger] vis@[trans@[order@[q] * k + d2] as int],
                forall|d2: int| 0 <= d2 < d ==> #[trigger] vis@[trans@[s * k + d2] as int],
            decreases k - d,
        {
            proof {
                crate::dfa::lemma_index(s as nat, d as nat, n as nat, k as nat);
            }
            let xx = trans[s * k + d] as usize;
            if !vis[xx] {
                proof {
                    crate::ostrowski::lemma_ntrue(vis@, xx as int);
                    crate::ostrowski::lemma_ntrue_bound(vis@.update(xx as int, true));
                }
                let ghost v0 = vis@;
                let ghost o0 = order@;
                map.set(xx, order.len());
                vis.set(xx, true);
                order.push(xx);
                proof {
                    assert forall|q: int, d2: int| 0 <= q < i && 0 <= d2 < k implies #[trigger] vis@[trans@[order@[q] * k + d2] as int] by {
                        assert(order@[q] == o0[q]);
                        crate::dfa::lemma_index(o0[q] as nat, d2 as nat, n as nat, k as nat);
                        assert(v0[trans@[o0[q] * k + d2] as int]);
                    }
                    assert forall|d2: int| 0 <= d2 < d implies #[trigger] vis@[trans@[s * k + d2] as int] by {
                        crate::dfa::lemma_index(s as nat, d2 as nat, n as nat, k as nat);
                        assert(v0[trans@[s * k + d2] as int]);
                    }
                }
            }
            d = d + 1;
        }
        i = i + 1;
    }
    let m = order.len();
    proof {
        crate::ostrowski::lemma_ntrue_bound(vis@);
    }
    // the reachable part, renumbered
    let mut rt: Vec<State> = Vec::new();
    let mut ro: Vec<u8> = Vec::new();
    let mut q: usize = 0;
    while q < m
        invariant
            1 <= k <= MAX_ALPHA,
            tl == trans@.len(),
            table_ok(trans@, n as nat, k as nat),
            out@.len() == n,
            map@.len() == n,
            vis@.len() == n,
            m == order@.len(),
            1 <= m <= n,
            n <= u32::MAX,
            forall|y: int| 0 <= y < order@.len() ==> (#[trigger] order@[y]) < n,
            forall|y: int| 0 <= y < n && vis@[y] ==> (#[trigger] map@[y]) < order@.len(),
            forall|q2: int, d: int| 0 <= q2 < m && 0 <= d < k ==> #[trigger] vis@[trans@[order@[q2] * k + d] as int],
            q <= m,
            rt@.len() == q * k,
            ro@.len() == q,
            forall|y: int| 0 <= y < rt@.len() ==> (#[trigger] rt@[y] as nat) < m,
            order@[0] == 0,
            forall|y: int| 0 <= y < order@.len() ==> #[trigger] map@[order@[y] as int] == y,
            forall|y: int| 0 <= y < n && #[trigger] vis@[y] ==> order@[map@[y] as int] == y,
            forall|q2: nat, d: nat| q2 < q && d < k ==> #[trigger] crate::dfa::tstep(rt@, k as nat, q2, d)
                == map@[crate::dfa::tstep(trans@, k as nat, order@[q2 as int] as nat, d) as int] as nat,
            forall|q2: int| 0 <= q2 < q ==> #[trigger] ro@[q2] == out@[order@[q2] as int],
        decreases m - q,
    {
        let s = order[q];
        ro.push(out[s]);
        let mut d: usize = 0;
        while d < k
            invariant
                1 <= k <= MAX_ALPHA,
                tl == trans@.len(),
                table_ok(trans@, n as nat, k as nat),
                map@.len() == n,
                vis@.len() == n,
                m == order@.len(),
                1 <= m <= n,
                n <= u32::MAX,
                s < n,
                s == order@[q as int],
                q < m,
                forall|y: int| 0 <= y < n && vis@[y] ==> (#[trigger] map@[y]) < order@.len(),
                forall|q2: int, d2: int| 0 <= q2 < m && 0 <= d2 < k ==> #[trigger] vis@[trans@[order@[q2] * k + d2] as int],
                d <= k,
                rt@.len() == q * k + d,
                forall|y: int| 0 <= y < rt@.len() ==> (#[trigger] rt@[y] as nat) < m,
                forall|q2: nat, d2: nat| (q2 < q && d2 < k) || (q2 == q && d2 < d) ==> #[trigger] crate::dfa::tstep(rt@, k as nat, q2, d2)
                    == map@[crate::dfa::tstep(trans@, k as nat, order@[q2 as int] as nat, d2) as int] as nat,
            decreases k - d,
        {
            proof {
                crate::dfa::lemma_index(s as nat, d as nat, n as nat, k as nat);
                assert(vis@[trans@[order@[q as int] * k + d] as int]);
            }
            let xx = trans[s * k + d] as usize;
            let ghost before = rt@;
            rt.push(map[xx] as State);
            proof {
                assert forall|q2: nat, d2: nat| (q2 < q && d2 < k) || (q2 == q && d2 < d + 1) implies #[trigger] crate::dfa::tstep(rt@, k as nat, q2, d2)
                    == map@[crate::dfa::tstep(trans@, k as nat, order@[q2 as int] as nat, d2) as int] as nat by {
                    if q2 < q {
                        crate::dfa::lemma_index(q2, d2, q as nat, k as nat);
                        assert(rt@[(q2 * k + d2) as int] == before[(q2 * k + d2) as int]);
                        assert(crate::dfa::tstep(before, k as nat, q2, d2) == map@[crate::dfa::tstep(trans@, k as nat, order@[q2 as int] as nat, d2) as int] as nat);
                    } else if d2 < d {
                        assert(rt@[(q2 * k + d2) as int] == before[(q2 * k + d2) as int]);
                        assert(crate::dfa::tstep(before, k as nat, q2, d2) == map@[crate::dfa::tstep(trans@, k as nat, order@[q2 as int] as nat, d2) as int] as nat);
                    } else {
                        assert(q2 * k + d2 == before.len());
                    }
                }
            }
            d = d + 1;
        }
        proof {
            assert((q + 1) * k == q * k + k) by (nonlinear_arith);
        }
        q = q + 1;
    }
    // Moore refinement
    let mut color: Vec<u32> = Vec::new();
    let mut q: usize = 0;
    while q < m
        invariant
            q <= m,
            ro@.len() == m,
            color@.len() == q,
            forall|y: int| 0 <= y < q ==> (#[trigger] color@[y]) < 256,
        decreases m - q,
    {
        color.push(ro[q] as u32);
        q = q + 1;
    }
    let bound: usize = m + 256;
    let mut rounds: usize = 0;
    let mut stable = false;
    while !stable && rounds <= m
        invariant
            1 <= k <= MAX_ALPHA,
            1 <= m <= u32::MAX,
            bound == m + 256,
            rt@.len() == m * k,
            forall|y: int| 0 <= y < rt@.len() ==> (#[trigger] rt@[y] as nat) < m,
            color@.len() == m,
            forall|y: int| 0 <= y < m ==> (#[trigger] color@[y] as nat) < bound,
        decreases m + 1 - rounds,
    {
        let before = count_distinct(&color, bound);
        let nc = refine_round(k, m, &rt, &color, bound);
        let (newc, classes) = nc;
        color = newc;
        if classes == before {
            stable = true;
        }
        rounds = rounds + 1;
    }
    // number the classes by first appearance, state 0's class first
    let mut relab: Vec<usize> = Vec::new();
    let mut c: usize = 0;
    while c < bound
        invariant
            c <= bound,
            relab@.len() == c,
            forall|y: int| 0 <= y < c ==> #[trigger] relab@[y] == usize::MAX,
        decreases bound - c,
    {
        relab.push(usize::MAX);
        c = c + 1;
    }
    relab.set(color[0] as usize, 0);
    let mut cnt: usize = 1;
    let mut q: usize = 0;
    while q < m
        invariant
            1 <= m,
            color@.len() == m,
            relab@.len() == bound,
            forall|y: int| 0 <= y < m ==> (#[trigger] color@[y] as nat) < bound,
            relab@[color@[0] as int] == 0,
            1 <= cnt,
            cnt <= q || (q == 0 && cnt == 1),
            cnt <= m,
            q <= m,
            forall|y: int| 0 <= y < bound ==> (#[trigger] relab@[y] == usize::MAX || relab@[y] < cnt),
            forall|y: int| 0 <= y < q ==> #[trigger] relab@[color@[y] as int] < cnt,
        decreases m - q,
    {
        let cq = color[q] as usize;
        if relab[cq] == usize::MAX {
            relab.set(cq, cnt);
            cnt = cnt + 1;
        }
        q = q + 1;
    }
    let mut nt: Vec<State> = Vec::new();
    let mut x: usize = 0;
    let rtl = rt.len();
    proof {
        assert(cnt * k <= m * k) by (nonlinear_arith)
            requires
                cnt <= m,
        ;
        assert(cnt * k <= rtl);
    }
    let total = cnt * k;
    while x < total
        invariant
            total == cnt * k,
            x <= cnt * k,
            nt@.len() == x,
            forall|y: int| 0 <= y < x ==> (#[trigger] nt@[y] as nat) < cnt,
            cnt >= 1,
        decreases total - x,
    {
        nt.push(0);
        x = x + 1;
    }
    let mut no: Vec<u8> = Vec::new();
    let mut x: usize = 0;
    while x < cnt
        invariant
            x <= cnt,
            no@.len() == x,
        decreases cnt - x,
    {
        no.push(0);
        x = x + 1;
    }
    let rl = rt.len();
    let ntl = nt.len();
    let mut q: usize = 0;
    while q < m
        invariant
            1 <= k <= MAX_ALPHA,
            m <= u32::MAX,
            rl == rt@.len(),
            ntl == nt@.len(),
            color@.len() == m,
            ro@.len() == m,
            relab@.len() == bound,
            rt@.len() == m * k,
            forall|y: int| 0 <= y < rt@.len() ==> (#[trigger] rt@[y] as nat) < m,
            forall|y: int| 0 <= y < m ==> (#[trigger] color@[y] as nat) < bound,
            forall|y: int| 0 <= y < m ==> #[trigger] relab@[color@[y] as int] < cnt,
            cnt <= m,
            nt@.len() == cnt * k,
            no@.len() == cnt,
            forall|y: int| 0 <= y < nt@.len() ==> (#[trigger] nt@[y] as nat) < cnt,
            q <= m,
        decreases m - q,
    {
        let c = relab[color[q] as usize];
        no.set(c, ro[q]);
        let mut d: usize = 0;
        while d < k
            invariant
                1 <= k <= MAX_ALPHA,
                m <= u32::MAX,
                rl == rt@.len(),
                ntl == nt@.len(),
                color@.len() == m,
                relab@.len() == bound,
                rt@.len() == m * k,
                forall|y: int| 0 <= y < rt@.len() ==> (#[trigger] rt@[y] as nat) < m,
                forall|y: int| 0 <= y < m ==> (#[trigger] color@[y] as nat) < bound,
                forall|y: int| 0 <= y < m ==> #[trigger] relab@[color@[y] as int] < cnt,
                nt@.len() == cnt * k,
                forall|y: int| 0 <= y < nt@.len() ==> (#[trigger] nt@[y] as nat) < cnt,
                c < cnt,
                q < m,
                d <= k,
            decreases k - d,
        {
            proof {
                crate::dfa::lemma_index(q as nat, d as nat, m as nat, k as nat);
                crate::dfa::lemma_index(c as nat, d as nat, cnt as nat, k as nat);
            }
            let tq = rt[q * k + d] as usize;
            let v = relab[color[tq] as usize] as State;
            nt.set(c * k + d, v);
            d = d + 1;
        }
        q = q + 1;
    }
    // the quotient map must be a homomorphism from the reachable part
    let rtl2 = rt.len();
    let ntl2 = nt.len();
    let mut ok = true;
    let mut q: usize = 0;
    while q < m
        invariant
            rtl2 == rt@.len(),
            ntl2 == nt@.len(),
            1 <= k <= MAX_ALPHA,
            1 <= m <= u32::MAX,
            color@.len() == m,
            ro@.len() == m,
            relab@.len() == bound,
            rt@.len() == m * k,
            forall|y: int| 0 <= y < rt@.len() ==> (#[trigger] rt@[y] as nat) < m,
            forall|y: int| 0 <= y < m ==> (#[trigger] color@[y] as nat) < bound,
            forall|y: int| 0 <= y < m ==> #[trigger] relab@[color@[y] as int] < cnt,
            nt@.len() == cnt * k,
            no@.len() == cnt,
            q <= m,
            ok ==> forall|q2: nat| q2 < q ==> homo_at(rt@, ro@, nt@, no@, color@, relab@, k as nat, q2),
        decreases m - q,
    {
        let c = relab[color[q] as usize];
        if no[c] != ro[q] {
            ok = false;
        }
        let mut d: usize = 0;
        while d < k
            invariant
                rtl2 == rt@.len(),
                ntl2 == nt@.len(),
                no@.len() == cnt,
                ro@.len() == m,
                ok ==> no@[c as int] == ro@[q as int],
                ok ==> forall|q2: nat| q2 < q ==> homo_at(rt@, ro@, nt@, no@, color@, relab@, k as nat, q2),
                1 <= k <= MAX_ALPHA,
                1 <= m <= u32::MAX,
                color@.len() == m,
                relab@.len() == bound,
                rt@.len() == m * k,
                forall|y: int| 0 <= y < rt@.len() ==> (#[trigger] rt@[y] as nat) < m,
                forall|y: int| 0 <= y < m ==> (#[trigger] color@[y] as nat) < bound,
                forall|y: int| 0 <= y < m ==> #[trigger] relab@[color@[y] as int] < cnt,
                nt@.len() == cnt * k,
                c == relab@[color@[q as int] as int],
                c < cnt,
                q < m,
                d <= k,
                ok ==> forall|d2: nat| d2 < d ==> #[trigger] crate::dfa::tstep(nt@, k as nat, c as nat, d2)
                    == relab@[color@[crate::dfa::tstep(rt@, k as nat, q as nat, d2) as int] as int],
            decreases k - d,
        {
            proof {
                crate::dfa::lemma_index(q as nat, d as nat, m as nat, k as nat);
                crate::dfa::lemma_index(c as nat, d as nat, cnt as nat, k as nat);
            }
            let tq = rt[q * k + d] as usize;
            if nt[c * k + d] as usize != relab[color[tq] as usize] {
                ok = false;
            }
            d = d + 1;
        }
        q = q + 1;
    }
    if !ok {
        proof {
            assert(vis@[0]) by {
                assert(map@[order@[0] as int] == 0);
            }
            assert forall|w: Seq<usize>| crate::dfa::word_over(w, k as nat) implies #[trigger] table_out(rt@, ro@, k as nat, w)
                == table_out(trans@, out@, k as nat, w) by {
                lemma_reach_part(trans@, out@, rt@, ro@, map@, order@, vis@, k as nat, n as nat, m as nat, w);
            }
        }
        return (m, rt, ro);
    }
    proof {
        assert(vis@[0]) by {
            assert(map@[order@[0] as int] == 0);
        }
        assert forall|w: Seq<usize>| crate::dfa::word_over(w, k as nat) implies #[trigger] table_out(nt@, no@, k as nat, w)
            == table_out(trans@, out@, k as nat, w) by {
            lemma_reach_part(trans@, out@, rt@, ro@, map@, order@, vis@, k as nat, n as nat, m as nat, w);
            lemma_quotient_part(rt@, ro@, nt@, no@, color@, relab@, k as nat, m as nat, cnt as nat, w);
        }
    }
    (cnt, nt, no)
}

/// The output after reading `w` from state 0 of a flattened table.
pub open spec fn table_out(trans: Seq<State>, out: Seq<u8>, k: nat, w: Seq<usize>) -> u8 {
    out[crate::dfa::trun(trans, k, 0, w) as int]
}

/// State `q`'s class keeps its output and its successors' classes.
pub open spec fn homo_at(rt: Seq<State>, ro: Seq<u8>, nt: Seq<State>, no: Seq<u8>, color: Seq<u32>, relab: Seq<usize>,
    k: nat, q: nat) -> bool {
    &&& no[relab[color[q as int] as int] as int] == ro[q as int]
    &&& forall|d: nat| d < k ==> #[trigger] crate::dfa::tstep(nt, k, relab[color[q as int] as int] as nat, d)
        == relab[color[crate::dfa::tstep(rt, k, q, d) as int] as int]
}

/// Runs of the reachable part are the renumbered runs of the table.
proof fn lemma_reach_part(trans: Seq<State>, out: Seq<u8>, rt: Seq<State>, ro: Seq<u8>, map: Seq<usize>,
    order: Seq<usize>, vis: Seq<bool>, k: nat, n: nat, m: nat, w: Seq<usize>)
    requires
        k >= 1,
        table_ok(trans, n, k),
        out.len() == n,
        map.len() == n,
        vis.len() == n,
        order.len() == m,
        ro.len() == m,
        1 <= m <= n,
        order[0] == 0,
        vis[0],
        forall|y: int| 0 <= y < order.len() ==> (#[trigger] order[y]) < n,
        forall|y: int| 0 <= y < order.len() ==> #[trigger] map[order[y] as int] == y,
        forall|y: int| 0 <= y < n && #[trigger] vis[y] ==> map[y] < m && order[map[y] as int] == y,
        forall|q2: int, d: int| 0 <= q2 < m && 0 <= d < k ==> #[trigger] vis[trans[order[q2] * k + d] as int],
        forall|q2: nat, d: nat| q2 < m && d < k ==> #[trigger] crate::dfa::tstep(rt, k, q2, d)
            == map[crate::dfa::tstep(trans, k, order[q2 as int] as nat, d) as int] as nat,
        forall|q2: int| 0 <= q2 < m ==> #[trigger] ro[q2] == out[order[q2] as int],
        crate::dfa::word_over(w, k),
    ensures
        crate::dfa::trun(trans, k, 0, w) < n,
        vis[crate::dfa::trun(trans, k, 0, w) as int],
        crate::dfa::trun(rt, k, 0, w) == map[crate::dfa::trun(trans, k, 0, w) as int],
        table_out(rt, ro, k, w) == table_out(trans, out, k, w),
    decreases w.len(),
{
    crate::dfa::lemma_trun(trans, n, k, 0, w);
    if w.len() > 0 {
        crate::dfa::lemma_word_over_sub(w, k);
        lemma_reach_part(trans, out, rt, ro, map, order, vis, k, n, m, w.drop_last());
        let s = crate::dfa::trun(trans, k, 0, w.drop_last());
        let q = map[s as int] as nat;
        let x = w.last() as nat;
        assert(w.last() == w[w.len() - 1]);
        assert(order[q as int] == s);
        assert(vis[trans[order[q as int] * k + x] as int]);
        assert(crate::dfa::tstep(rt, k, q, x) == map[crate::dfa::tstep(trans, k, s, x) as int] as nat);
    } else {
        assert(map[0] == 0) by {
            assert(map[order[0] as int] == 0);
        }
    }
    let s = crate::dfa::trun(trans, k, 0, w);
    assert(order[map[s as int] as int] == s);
}

/// Runs of the quotient follow the classes of the runs of the reachable part.
proof fn lemma_quotient_part(rt: Seq<State>, ro: Seq<u8>, nt: Seq<State>, no: Seq<u8>, color: Seq<u32>, relab: Seq<usize>,
    k: nat, m: nat, cnt: nat, w: Seq<usize>)
    requires
        k >= 1,
        1 <= m,
        table_ok(rt, m, k),
        ro.len() == m,
        color.len() == m,
        relab[color[0] as int] == 0,
        forall|q2: nat| q2 < m ==> homo_at(rt, ro, nt, no, color, relab, k, q2),
        crate::dfa::word_over(w, k),
    ensures
        crate::dfa::trun(nt, k, 0, w) == relab[color[crate::dfa::trun(rt, k, 0, w) as int] as int],
        table_out(nt, no, k, w) == table_out(rt, ro, k, w),
    decreases w.len(),
{
    crate::dfa::lemma_trun(rt, m, k, 0, w);
    if w.len() > 0 {
        crate::dfa::lemma_word_over_sub(w, k);
        lemma_quotient_part(rt, ro, nt, no, color, relab, k, m, cnt, w.drop_last());
        let q = crate::dfa::trun(rt, k, 0, w.drop_last());
        crate::dfa::lemma_trun(rt, m, k, 0, w.drop_last());
        let x = w.last() as nat;
        assert(w.last() == w[w.len() - 1]);
        assert(homo_at(rt, ro, nt, no, color, relab, k, q));
        assert(crate::dfa::tstep(nt, k, relab[color[q as int] as int] as nat, x)
            == relab[color[crate::dfa::tstep(rt, k, q, x) as int] as int]);
    }
    let q = crate::dfa::trun(rt, k, 0, w);
    assert(homo_at(rt, ro, nt, no, color, relab, k, q));
}

/// No entry of an all-`false` sequence is counted.
proof fn lemma_ntrue_zero(s: Seq<bool>)
    requires
        forall|i: int| 0 <= i < s.len() ==> !#[trigger] s[i],
    ensures
        crate::ostrowski::ntrue(s) == 0,
    decreases s.len(),
{
    if s.len() > 0 {
        lemma_ntrue_zero(s.drop_last());
    }
}

/// The number of distinct values in `s`.
pub open spec fn ndistinct(s: Seq<u32>) -> nat
    decreases s.len(),
{
    if s.len() == 0 {
        0
    } else {
        ndistinct(s.drop_last()) + if s.drop_last().contains(s.last()) { 0nat } else { 1nat }
    }
}

/// The number of distinct values among `v`, all below `bound`.
fn count_distinct(v: &Vec<u32>, bound: usize) -> (r: usize)
    requires
        forall|y: int| 0 <= y < v@.len() ==> (#[trigger] v@[y] as nat) < bound,
    ensures
        r == ndistinct(v@),
{
    let mut seen: Vec<bool> = Vec::new();
    let mut x: usize = 0;
    while x < bound
        invariant
            x <= bound,
            seen@.len() == x,
            forall|c: int| 0 <= c < x ==> !(#[trigger] seen@[c]),
        decreases bound - x,
    {
        seen.push(false);
        x = x + 1;
    }
    let mut cnt: usize = 0;
    let mut q: usize = 0;
    proof {
        assert(v@.take(0) =~= Seq::<u32>::empty());
    }
    while q < v.len()
        invariant
            q <= v@.len(),
            seen@.len() == bound,
            cnt <= q,
            cnt == ndistinct(v@.take(q as int)),
            forall|c: int| 0 <= c < bound ==> (#[trigger] seen@[c] <==> exists|y: int| 0 <= y < q && v@[y] as int == c),
            forall|y: int| 0 <= y < v@.len() ==> (#[trigger] v@[y] as nat) < bound,
        decreases v@.len() - q,
    {
        let c = v[q] as usize;
        proof {
            let t = v@.take(q as int);
            let t1 = v@.take(q + 1);
            assert(t1.drop_last() =~= t);
            assert(t1.last() == v@[q as int]);
            if seen@[c as int] {
                let y = choose|y: int| 0 <= y < q && v@[y] as int == c as int;
                assert(t[y] == v@[q as int]);
                assert(t.contains(v@[q as int]));
            } else {
                if t.contains(v@[q as int]) {
                    let y = choose|y: int| 0 <= y < t.len() && t[y] == v@[q as int];
                    assert(v@[y] as int == c as int);
                }
            }
        }
        let ghost seen0 = seen@;
        if !seen[c] {
            seen.set(c, true);
            cnt = cnt + 1;
        }
        proof {
            assert forall|z: int| 0 <= z < bound implies (#[trigger] seen@[z] <==> exists|y: int| 0 <= y < q + 1 && v@[y] as int == z) by {
                if z == c as int {
                    assert(v@[q as int] as int == z);
                } else {
                    assert(seen@[z] == seen0[z]);
                    if exists|y: int| 0 <= y < q + 1 && v@[y] as int == z {
                        let y = choose|y: int| 0 <= y < q + 1 && v@[y] as int == z;
                        assert(y < q);
                    }
                }
            }
        }
        q = q + 1;
    }
    proof {
        assert(v@.take(v@.len() as int) =~= v@);
    }
    cnt
}

/// One refinement round: the class of `q` becomes the id of its key
/// `(color(q), color(succ(q, 0)), ..)`, ids in order of first appearance.
fn refine_round(k: usize, m: usize, rt: &Vec<State>, color: &Vec<u32>, bound: usize) -> (r: (Vec<u32>, usize))
    requires
        1 <= k <= MAX_ALPHA,
        1 <= m <= u32::MAX,
        bound == m + 256,
        rt@.len() == m * k,
        forall|y: int| 0 <= y < rt@.len() ==> (#[trigger] rt@[y] as nat) < m,
        color@.len() == m,
        forall|y: int| 0 <= y < m ==> (#[trigger] color@[y] as nat) < bound,
    ensures
        r.0@.len() == m,
        forall|y: int| 0 <= y < m ==> (#[trigger] r.0@[y] as nat) < bound,
        r.1 <= m,
{
    let rl = rt.len();
    let mut nc: Vec<u32> = Vec::new();
    let mut sig: Option<crate::nfa::Subsets> = None;
    let mut q: usize = 0;
    let mut classes: usize = 0;
    while q < m
        invariant
            1 <= k <= MAX_ALPHA,
            1 <= m <= u32::MAX,
            bound == m + 256,
            rl == rt@.len(),
            rt@.len() == m * k,
            forall|y: int| 0 <= y < rt@.len() ==> (#[trigger] rt@[y] as nat) < m,
            color@.len() == m,
            forall|y: int| 0 <= y < m ==> (#[trigger] color@[y] as nat) < bound,
            q <= m,
            nc@.len() == q,
            forall|y: int| 0 <= y < q ==> (#[trigger] nc@[y] as nat) < q,
            sig matches Some(t) ==> t.wf() && t.order@.len() <= q && classes == t.order@.len(),
            sig is None ==> q == 0 && classes == 0,
        decreases m - q,
    {
        let mut key: Vec<u64> = Vec::new();
        key.push(color[q] as u64);
        let mut d: usize = 0;
        while d < k
            invariant
                1 <= k <= MAX_ALPHA,
                rl == rt@.len(),
                rt@.len() == m * k,
                forall|y: int| 0 <= y < rt@.len() ==> (#[trigger] rt@[y] as nat) < m,
                color@.len() == m,
                q < m,
                d <= k,
            decreases k - d,
        {
            proof {
                crate::dfa::lemma_index(q as nat, d as nat, m as nat, k as nat);
            }
            key.push(color[rt[q * k + d] as usize] as u64);
            d = d + 1;
        }
        let id: u32 = match sig {
            None => {
                sig = Some(crate::nfa::Subsets::new(key));
                classes = 1;
                0
            },
            Some(ref mut t) => {
                let (id, fresh) = t.intern(key);
                classes = t.order.len();
                id
            },
        };
        nc.push(id);
        q = q + 1;
    }
    (nc, classes)
}
} // verus!
