//! `export NAME`: an automaton as one line of JSON, for a graph viewer.
//!
//! The shape is flat and array-based. Automata are shown up to `cap` states;
//! transitions leaving the shown prefix are written as `-1` and `"truncated"`
//! is set. `"ns"` is the active numeration system (`"base"` for plain base k).
use vstd::prelude::*;
use crate::dfa::Dfa;
use crate::dfao::Dfao;
use crate::ops::Ctx;
use crate::strs::{push_str, push_num, string_of};

verus! {

/// The text of the digit order and numeration-system fields.
pub open spec fn mode_text(cx: &Ctx) -> Seq<char> {
    ",\"mode\":\""@ + (if cx.lsd { "lsd"@ } else { "msd"@ }) + "\",\"ns\":\""@
        + (match cx.ns { Some(n) => n.name@, None => "base"@ }) + seq!['"']
}

/// A table entry: its number when below `shown`, else `-1`.
pub open spec fn cell_text(t: nat, shown: nat) -> Seq<char> {
    if t < shown { crate::strs::dec_text(t) } else { "-1"@ }
}

/// The first `x` entries of row `q`, comma-separated.
pub open spec fn cells(trans: Seq<u32>, q: nat, width: nat, shown: nat, x: nat) -> Seq<char>
    decreases x,
{
    if x == 0 {
        Seq::empty()
    } else {
        cells(trans, q, width, shown, (x - 1) as nat) + (if x > 1 { seq![','] } else { Seq::empty() })
            + cell_text(trans[q * width + x - 1] as nat, shown)
    }
}

/// The first `n` outputs, comma-separated.
pub open spec fn outs_text(out: Seq<u8>, n: nat) -> Seq<char>
    decreases n,
{
    if n == 0 {
        Seq::empty()
    } else {
        outs_text(out, (n - 1) as nat) + (if n > 1 { seq![','] } else { Seq::empty() })
            + crate::strs::dec_text(out[n - 1] as nat)
    }
}

/// The first `q` rows of a flattened table, each in brackets, comma-separated.
pub open spec fn rows_text(trans: Seq<u32>, width: nat, shown: nat, q: nat) -> Seq<char>
    decreases q,
{
    if q == 0 {
        Seq::empty()
    } else {
        rows_text(trans, width, shown, (q - 1) as nat) + (if q > 1 { seq![','] } else { Seq::empty() })
            + seq!['['] + cells(trans, (q - 1) as nat, width, shown, width) + seq![']']
    }
}

/// The first `i` names, each in double quotes, comma-separated.
pub open spec fn names_text(v: Seq<Seq<char>>, i: nat) -> Seq<char>
    decreases i,
{
    if i == 0 {
        Seq::empty()
    } else {
        names_text(v, (i - 1) as nat) + (if i > 1 { seq![','] } else { Seq::empty() })
            + seq!['"'] + v[i - 1] + seq!['"']
    }
}

/// The accepting states among the first `q`, comma-separated.
pub open spec fn accepting_text(acc: Seq<bool>, q: nat) -> Seq<char>
    decreases q,
{
    if q == 0 {
        Seq::empty()
    } else {
        let p = accepting_text(acc, (q - 1) as nat);
        if acc[q - 1] {
            p + (if p.len() > 0 { seq![','] } else { Seq::empty() }) + crate::strs::dec_text((q - 1) as nat)
        } else {
            p
        }
    }
}

/// The decimal numbers of `l`, comma-separated.
pub open spec fn num_list(l: Seq<nat>) -> Seq<char>
    decreases l.len(),
{
    if l.len() == 0 {
        Seq::empty()
    } else {
        num_list(l.drop_last()) + (if l.len() > 1 { seq![','] } else { Seq::empty() }) + crate::strs::dec_text(l.last())
    }
}

/// The `accepting` field lists, in increasing order, exactly the states below
/// `n` that accept: its text is the comma-separated list of such an `l`.
pub proof fn lemma_accepting_text(acc: Seq<bool>, n: nat) -> (l: Seq<nat>)
    requires
        n <= acc.len(),
    ensures
        accepting_text(acc, n) == num_list(l),
        forall|q: nat| l.contains(q) <==> (q < n && acc[q as int]),
        forall|i: int, j: int| 0 <= i < j < l.len() ==> l[i] < l[j],
    decreases n,
{
    if n == 0 {
        Seq::empty()
    } else {
        let l0 = lemma_accepting_text(acc, (n - 1) as nat);
        if acc[n - 1] {
            let l = l0.push((n - 1) as nat);
            assert(l.drop_last() =~= l0);
            if l0.len() > 0 {
                crate::strs::lemma_dec_text_nonempty(l0.last());
                assert(num_list(l0).len() > 0) by {
                    crate::strs::lemma_dec_text_nonempty(l0.last());
                }
            } else {
                assert(num_list(l0) =~= Seq::<char>::empty());
            }
            assert forall|q: nat| l.contains(q) <==> (q < n && acc[q as int]) by {
                if l.contains(q) {
                    let i = choose|i: int| 0 <= i < l.len() && l[i] == q;
                    if i < l0.len() {
                        assert(l0[i] == q);
                        assert(l0.contains(q));
                    }
                }
                if q < n && acc[q as int] {
                    if q < n - 1 {
                        assert(l0.contains(q));
                        let i = choose|i: int| 0 <= i < l0.len() && l0[i] == q;
                        assert(l[i] == q);
                    } else {
                        assert(l[l.len() - 1] == q);
                    }
                }
            }
            assert forall|i: int, j: int| 0 <= i < j < l.len() implies l[i] < l[j] by {
                if j == l.len() - 1 {
                    assert(l0.contains(l0[i]));
                } else {
                    assert(l[i] == l0[i] && l[j] == l0[j]);
                }
            }
            l
        } else {
            assert forall|q: nat| l0.contains(q) <==> (q < n && acc[q as int]) by {}
            l0
        }
    }
}

/// The first `c` digits of the letter `sym`, comma-separated.
pub open spec fn digits_text(sym: nat, k: nat, c: nat) -> Seq<char>
    decreases c,
{
    if c == 0 {
        Seq::empty()
    } else {
        digits_text(sym, k, (c - 1) as nat) + (if c > 1 { seq![','] } else { Seq::empty() })
            + crate::strs::dec_text(crate::dfa::sdigit(sym, (c - 1) as nat, k))
    }
}

/// The digits of the first `n` letters, each bracketed, comma-separated.
pub open spec fn labels_text(k: nat, tracks: nat, n: nat) -> Seq<char>
    decreases n,
{
    if n == 0 {
        Seq::empty()
    } else {
        labels_text(k, tracks, (n - 1) as nat) + (if n > 1 { seq![','] } else { Seq::empty() })
            + seq!['['] + digits_text((n - 1) as nat, k, tracks) + seq![']']
    }
}

/// `n` bounded by `cap`.
pub open spec fn shown_of(n: nat, cap: nat) -> nat {
    if n < cap { n } else { cap }
}

/// The truncation field.
pub open spec fn truncated_text(t: bool) -> Seq<char> {
    if t { ",\"truncated\":true"@ } else { ",\"truncated\":false"@ }
}

/// The `dfa` JSON text of `a` under the display name and parameters.
pub open spec fn dfa_json_text(name: Seq<char>, params: Seq<Seq<char>>, a: &Dfa, cx: &Ctx, cap: nat) -> Seq<char> {
    let n = shown_of(a.nstates as nat, cap);
    "{\"kind\":\"dfa\",\"name\":"@ + seq!['"'] + name + seq!['"'] + ",\"k\":"@ + crate::strs::dec_text(a.k as nat)
        + mode_text(cx) + ",\"vars\":["@ + names_text(crate::strs::names(a.vars@), a.vars@.len())
        + "],\"params\":["@ + names_text(params, params.len()) + "],\"alpha\":"@ + crate::strs::dec_text(a.alpha as nat)
        + ",\"nstates\":"@ + crate::strs::dec_text(a.nstates as nat) + ",\"shown\":"@ + crate::strs::dec_text(n)
        + truncated_text(n < a.nstates) + ",\"initial\":0,\"accepting\":["@ + accepting_text(a.accept@, n)
        + "],\"labels\":["@ + labels_text(a.k as nat, a.vars@.len(), a.alpha as nat)
        + "],\"trans\":["@ + rows_text(a.trans@, a.alpha as nat, n, n) + "]}"@
}

/// The `dfao` JSON text of `d`, with its lsd form.
pub open spec fn dfao_json_text(d: &Dfao, cx: &Ctx, cap: nat) -> Seq<char> {
    let n = shown_of(d.nstates as nat, cap);
    let ln = shown_of(d.lnstates as nat, cap);
    "{\"kind\":\"dfao\",\"name\":"@ + seq!['"'] + d.name@ + seq!['"'] + ",\"k\":"@ + crate::strs::dec_text(d.k as nat)
        + mode_text(cx) + ",\"nstates\":"@ + crate::strs::dec_text(d.nstates as nat)
        + ",\"shown\":"@ + crate::strs::dec_text(n) + truncated_text(n < d.nstates)
        + ",\"initial\":0,\"out\":["@ + outs_text(d.out@, n) + "],\"trans\":["@ + rows_text(d.trans@, d.k as nat, n, n)
        + "],\"lsd\":{\"nstates\":"@ + crate::strs::dec_text(d.lnstates as nat) + ",\"shown\":"@ + crate::strs::dec_text(ln)
        + ",\"out\":["@ + outs_text(d.lout@, ln) + "],\"trans\":["@ + rows_text(d.ltrans@, d.k as nat, ln, ln) + "]}}"@
}

/// The digit order and numeration-system fields shared by both shapes.
fn push_mode(s: &mut Vec<char>, cx: &Ctx)
    ensures
        final(s)@ == old(s)@ + mode_text(cx),
{
    push_str(s, ",\"mode\":\"");
    push_str(s, if cx.lsd { "lsd" } else { "msd" });
    push_str(s, "\",\"ns\":\"");
    match &cx.ns {
        Some(n) => push_str(s, n.name.as_str()),
        None => push_str(s, "base"),
    }
    s.push('"');
    proof {
        assert(s@ =~= old(s)@ + mode_text(cx));
    }
}

/// `"name"` appended.
fn push_quoted(s: &mut Vec<char>, x: &str)
    ensures
        final(s)@ == old(s)@ + seq!['"'] + x@ + seq!['"'],
{
    s.push('"');
    push_str(s, x);
    s.push('"');
    proof {
        assert(s@ =~= old(s)@ + seq!['"'] + x@ + seq!['"']);
    }
}

/// A successor row of a flattened table, `-1` for targets beyond `shown`.
fn push_row(s: &mut Vec<char>, trans: &Vec<u32>, q: usize, width: usize, shown: usize)
    requires
        (q + 1) * width <= trans@.len(),
    ensures
        final(s)@ == old(s)@ + seq!['['] + cells(trans@, q as nat, width as nat, shown as nat, width as nat) + seq![']'],
{
    let tl = trans.len();
    s.push('[');
    let mut x: usize = 0;
    while x < width
        invariant
            x <= width,
            tl == trans@.len(),
            (q + 1) * width <= trans@.len(),
            s@ == old(s)@ + seq!['['] + cells(trans@, q as nat, width as nat, shown as nat, x as nat),
        decreases width - x,
    {
        let ghost pre = s@;
        if x > 0 {
            s.push(',');
        }
        proof {
            assert(q * width + x < (q + 1) * width) by (nonlinear_arith)
                requires
                    x < width,
            ;
        }
        let ghost mid = s@;
        let t = trans[q * width + x] as usize;
        if t < shown {
            push_num(s, t);
        } else {
            push_str(s, "-1");
        }
        proof {
            assert(mid =~= pre + (if x + 1 > 1 { seq![','] } else { Seq::<char>::empty() }));
            assert(s@ =~= mid + cell_text(trans@[q * width + x] as nat, shown as nat));
            assert(s@ =~= old(s)@ + seq!['['] + cells(trans@, q as nat, width as nat, shown as nat, (x + 1) as nat));
        }
        x = x + 1;
    }
    s.push(']');
}

/// Rows `0..n` of a flattened table, comma-separated.
fn push_rows(s: &mut Vec<char>, trans: &Vec<u32>, n: usize, width: usize, shown: usize)
    requires
        n * width <= trans@.len(),
    ensures
        final(s)@ == old(s)@ + rows_text(trans@, width as nat, shown as nat, n as nat),
{
    let mut q: usize = 0;
    while q < n
        invariant
            q <= n,
            n * width <= trans@.len(),
            s@ == old(s)@ + rows_text(trans@, width as nat, shown as nat, q as nat),
        decreases n - q,
    {
        let ghost pre = s@;
        if q > 0 {
            s.push(',');
        }
        proof {
            assert((q + 1) * width <= n * width) by (nonlinear_arith)
                requires
                    q + 1 <= n,
            ;
        }
        let ghost mid = s@;
        push_row(s, trans, q, width, shown);
        proof {
            assert(mid =~= pre + (if q + 1 > 1 { seq![','] } else { Seq::<char>::empty() }));
            assert(s@ =~= old(s)@ + rows_text(trans@, width as nat, shown as nat, (q + 1) as nat));
        }
        q = q + 1;
    }
}

/// Serialise a `Dfa` with its display `params` to the `dfa` JSON shape:
/// kind, name, `k`, mode, ns, vars, params, alphabet size, state counts,
/// accepting states, the digits of each letter, and the transition table.
pub fn dfa_json(name: &str, params: &Vec<String>, a: &Dfa, cx: &Ctx, cap: usize) -> (r: String)
    requires
        a.wf(),
        crate::dfa::spow(a.k as nat, a.vars.len() as nat) <= usize::MAX,
    ensures
        r@ == dfa_json_text(name@, crate::strs::names(params@), a, cx, cap as nat),
{
    let n = if a.nstates < cap { a.nstates } else { cap };
    let truncated = n < a.nstates;
    let mut s: Vec<char> = Vec::new();
    push_str(&mut s, "{\"kind\":\"dfa\",\"name\":");
    push_quoted(&mut s, name);
    push_str(&mut s, ",\"k\":");
    push_num(&mut s, a.k);
    push_mode(&mut s, cx);
    push_str(&mut s, ",\"vars\":[");
    push_names(&mut s, &a.vars);
    push_str(&mut s, "],\"params\":[");
    push_names(&mut s, params);
    push_str(&mut s, "],\"alpha\":");
    push_num(&mut s, a.alpha);
    push_str(&mut s, ",\"nstates\":");
    push_num(&mut s, a.nstates);
    push_str(&mut s, ",\"shown\":");
    push_num(&mut s, n);
    push_str(&mut s, if truncated { ",\"truncated\":true" } else { ",\"truncated\":false" });
    push_str(&mut s, ",\"initial\":0,\"accepting\":[");
    let ghost s1 = s@;
    let mut first = true;
    let mut q: usize = 0;
    while q < n
        invariant
            a.wf(),
            n <= a.nstates,
            q <= n,
            s@ == s1 + accepting_text(a.accept@, q as nat),
            first <==> accepting_text(a.accept@, q as nat).len() == 0,
        decreases n - q,
    {
        let ghost pre = s@;
        if a.accept[q] {
            if !first {
                s.push(',');
            }
            push_num(&mut s, q);
            first = false;
            proof {
                crate::strs::lemma_dec_text_nonempty(q as nat);
            }
        }
        proof {
            assert(s@ =~= s1 + accepting_text(a.accept@, (q + 1) as nat));
        }
        q = q + 1;
    }
    push_str(&mut s, "],\"labels\":[");
    let ghost s2 = s@;
    let tracks = a.vars.len();
    let mut sym: usize = 0;
    while sym < a.alpha
        invariant
            a.wf(),
            tracks == a.vars.len(),
            crate::dfa::spow(a.k as nat, tracks as nat) <= usize::MAX,
            sym <= a.alpha,
            s@ == s2 + labels_text(a.k as nat, tracks as nat, sym as nat),
        decreases a.alpha - sym,
    {
        let ghost pre = s@;
        if sym > 0 {
            s.push(',');
        }
        s.push('[');
        let ghost s3 = s@;
        let mut c: usize = 0;
        while c < tracks
            invariant
                a.wf(),
                tracks == a.vars.len(),
                crate::dfa::spow(a.k as nat, tracks as nat) <= usize::MAX,
                c <= tracks,
                s@ == s3 + digits_text(sym as nat, a.k as nat, c as nat),
            decreases tracks - c,
        {
            let ghost pre2 = s@;
            if c > 0 {
                s.push(',');
            }
            proof {
                crate::dfa::lemma_spow_mono(a.k as nat, c as nat, tracks as nat);
            }
            let dg = crate::dfa::digit(sym, c, a.k);
            push_num(&mut s, dg);
            proof {
                assert(s@ =~= s3 + digits_text(sym as nat, a.k as nat, (c + 1) as nat));
            }
            c = c + 1;
        }
        s.push(']');
        proof {
            assert(pre == s2 + labels_text(a.k as nat, tracks as nat, sym as nat));
            assert(s@ =~= s2 + labels_text(a.k as nat, tracks as nat, (sym + 1) as nat));
        }
        sym = sym + 1;
    }
    push_str(&mut s, "],\"trans\":[");
    proof {
        assert(n * a.alpha <= a.nstates * a.alpha) by (nonlinear_arith)
            requires
                n <= a.nstates,
        ;
    }
    push_rows(&mut s, &a.trans, n, a.alpha, n);
    push_str(&mut s, "]}");
    proof {
        assert(s@ =~= dfa_json_text(name@, crate::strs::names(params@), a, cx, cap as nat));
    }
    string_of(s.as_slice())
}

/// The names of `v`, each quoted, comma-separated.
fn push_names(s: &mut Vec<char>, v: &Vec<String>)
    ensures
        final(s)@ == old(s)@ + names_text(crate::strs::names(v@), v@.len()),
{
    let mut i: usize = 0;
    while i < v.len()
        invariant
            i <= v@.len(),
            s@ == old(s)@ + names_text(crate::strs::names(v@), i as nat),
        decreases v.len() - i,
    {
        let ghost pre = s@;
        if i > 0 {
            s.push(',');
        }
        push_quoted(s, v[i].as_str());
        proof {
            assert(crate::strs::names(v@)[i as int] == v@[i as int]@);
            assert(s@ =~= old(s)@ + names_text(crate::strs::names(v@), (i + 1) as nat));
        }
        i = i + 1;
    }
}

/// The outputs of states `0..n`, comma-separated.
fn push_outs(s: &mut Vec<char>, out: &Vec<u8>, n: usize)
    requires
        n <= out@.len(),
    ensures
        final(s)@ == old(s)@ + outs_text(out@, n as nat),
{
    let mut q: usize = 0;
    while q < n
        invariant
            n <= out@.len(),
            q <= n,
            s@ == old(s)@ + outs_text(out@, q as nat),
        decreases n - q,
    {
        let ghost pre = s@;
        if q > 0 {
            s.push(',');
        }
        let ghost mid = s@;
        push_num(s, out[q] as usize);
        proof {
            assert(mid =~= pre + (if q + 1 > 1 { seq![','] } else { Seq::<char>::empty() }));
            assert(s@ =~= old(s)@ + outs_text(out@, (q + 1) as nat));
        }
        q = q + 1;
    }
    proof {
        assert(outs_text(out@, 0) =~= Seq::<char>::empty());
    }
}

/// Serialise a `Dfao`, in both digit orders, to the `dfao` JSON shape:
/// kind, name, `k`, mode, ns, state counts, outputs and transitions, then
/// the same for the lsd form under `"lsd"`.
pub fn dfao_json(d: &Dfao, cx: &Ctx, cap: usize) -> (r: String)
    requires
        d.wf(),
    ensures
        r@ == dfao_json_text(d, cx, cap as nat),
{
    let n = if d.nstates < cap { d.nstates } else { cap };
    let ln = if d.lnstates < cap { d.lnstates } else { cap };
    proof {
        assert(n * d.k <= d.nstates * d.k) by (nonlinear_arith)
            requires
                n <= d.nstates,
        ;
        assert(ln * d.k <= d.lnstates * d.k) by (nonlinear_arith)
            requires
                ln <= d.lnstates,
        ;
    }
    let mut s: Vec<char> = Vec::new();
    push_str(&mut s, "{\"kind\":\"dfao\",\"name\":");
    push_quoted(&mut s, d.name.as_str());
    push_str(&mut s, ",\"k\":");
    push_num(&mut s, d.k);
    push_mode(&mut s, cx);
    push_str(&mut s, ",\"nstates\":");
    push_num(&mut s, d.nstates);
    push_str(&mut s, ",\"shown\":");
    push_num(&mut s, n);
    push_str(&mut s, if n < d.nstates { ",\"truncated\":true" } else { ",\"truncated\":false" });
    push_str(&mut s, ",\"initial\":0,\"out\":[");
    push_outs(&mut s, &d.out, n);
    push_str(&mut s, "],\"trans\":[");
    push_rows(&mut s, &d.trans, n, d.k, n);
    push_str(&mut s, "],\"lsd\":{\"nstates\":");
    push_num(&mut s, d.lnstates);
    push_str(&mut s, ",\"shown\":");
    push_num(&mut s, ln);
    push_str(&mut s, ",\"out\":[");
    push_outs(&mut s, &d.lout, ln);
    push_str(&mut s, "],\"trans\":[");
    push_rows(&mut s, &d.ltrans, ln, d.k, ln);
    push_str(&mut s, "]}}");
    proof {
        assert(s@ =~= dfao_json_text(d, cx, cap as nat));
    }
    string_of(s.as_slice())
}

} // verus!
