//! `pic`: the two-dimensional view of a predicate.
//!
//! `pic NAME W H [i0 j0 [scale]]` walks a rectangle of the `(i, j)` plane and
//! gives one cell value per point. Nothing is built: for a predicate the cell is
//! decided by running its compiled automaton on the two-track digit string of
//! the pair; for the sequence itself the cell is `T[i + j]`. Cell `(r, c)` is
//! the point `i = i0 + r scale`, `j = j0 + c scale`: `H` rows of `W` cells.
use vstd::prelude::*;
use crate::dfa::{Dfa, spow, word_over};
use crate::dfao::Dfao;
use crate::compiler::Defs;
use crate::ops::Ctx;
use crate::strs::{str_chars, str_eq, string_of};
use crate::text::parse_u64;

verus! {

/// Hard cap on the number of cells one picture may evaluate.
pub const MAX_CELLS: u64 = 1048576;

/// The base-`k` digits of `n` in `len` places, in the session's digit order.
pub open spec fn pdigits(n: nat, k: nat, len: nat, lsd: bool) -> Seq<usize> {
    Seq::new(len, |p: int| ((n / spow(k, (if lsd { p } else { len - 1 - p }) as nat)) % k) as usize)
}

/// Base-`k` digits of `n`, padded to exactly `len` places.
fn digits(n: u64, k: u64, len: usize, lsd: bool) -> (r: Vec<usize>)
    requires
        k >= 2,
        k <= usize::MAX,
    ensures
        r@ == pdigits(n as nat, k as nat, len as nat, lsd),
{
    let mut d: Vec<usize> = Vec::new();
    let mut i: usize = 0;
    while i < len
        invariant
            i <= len,
            d@.len() == i,
        decreases len - i,
    {
        d.push(0);
        i = i + 1;
    }
    let mut m: u64 = n;
    let mut p: usize = 0;
    assert(spow(k as nat, 0) == 1);
    while p < len
        invariant
            k >= 2,
            k <= usize::MAX,
            p <= len,
            d@.len() == len,
            m as nat == n as nat / spow(k as nat, p as nat),
            forall|x: int| 0 <= x < len && (if lsd { x < p } else { x >= len - p }) ==>
                #[trigger] d@[x] == pdigits(n as nat, k as nat, len as nat, lsd)[x],
        decreases len - p,
    {
        let dig = (m % k) as usize;
        let idx = if lsd { p } else { len - 1 - p };
        let ghost pre = d@;
        d.set(idx, dig);
        proof {
            assert(pdigits(n as nat, k as nat, len as nat, lsd)[idx as int] == dig);
            assert forall|x: int| 0 <= x < len && (if lsd { x < p + 1 } else { x >= len - (p + 1) }) implies
                #[trigger] d@[x] == pdigits(n as nat, k as nat, len as nat, lsd)[x] by {
                if x != idx {
                    assert(d@[x] == pre[x]);
                }
            }
        }
        proof {
            crate::dfa::lemma_spow_pos(k as nat, p as nat);
            vstd::arithmetic::div_mod::lemma_div_denominator(n as int, spow(k as nat, p as nat) as int, k as int);
            assert(spow(k as nat, (p + 1) as nat) == k * spow(k as nat, p as nat));
            assert(spow(k as nat, p as nat) * k == k * spow(k as nat, p as nat)) by (nonlinear_arith);
        }
        m = m / k;
        p = p + 1;
    }
    proof {
        assert(d@ =~= pdigits(n as nat, k as nat, len as nat, lsd));
    }
    d
}

/// Number of base-`k` digits needed to write `n` (at least 1).
fn width_of(n: u64, k: u64) -> (r: usize)
    requires
        k >= 2,
        n < u64::MAX,
    ensures
        r >= 1,
        n < spow(k as nat, r as nat),
        r > 1 ==> spow(k as nat, (r - 1) as nat) <= n,
{
    let mut len: usize = 1;
    let mut cap: u64 = k;
    proof {
        assert(spow(k as nat, 0) == 1);
        assert(spow(k as nat, 1) == k * spow(k as nat, 0));
        assert(spow(2, 0) == 1);
        assert(spow(2, 1) == 2 * spow(2, 0));
    }
    while cap <= n
        invariant
            k >= 2,
            n < u64::MAX,
            len >= 1,
            len <= 64,
            cap as nat == spow(k as nat, len as nat) || (cap == u64::MAX && spow(k as nat, len as nat) >= u64::MAX),
            len > 1 ==> spow(k as nat, (len - 1) as nat) <= n,
            spow(k as nat, len as nat) >= crate::dfa::spow(2, len as nat),
        decreases 64 - len,
    {
        proof {
            assert(spow(k as nat, (len + 1) as nat) == k * spow(k as nat, len as nat));
            assert(crate::dfa::spow(2, (len + 1) as nat) == 2 * crate::dfa::spow(2, len as nat));
            assert(k * spow(k as nat, len as nat) >= 2 * spow(k as nat, len as nat)) by (nonlinear_arith)
                requires
                    k >= 2,
            ;
            if len >= 64 {
                lemma_spow2_64(len as nat);
            }
            assert(cap * k == k * cap) by (nonlinear_arith);
            if cap == u64::MAX {
                assert(cap * k > u64::MAX) by (nonlinear_arith)
                    requires
                        cap == u64::MAX,
                        k >= 2,
                ;
            }
            assert(k * spow(k as nat, len as nat) >= spow(k as nat, len as nat)) by (nonlinear_arith)
                requires
                    k >= 2,
            ;
        }
        cap = match cap.checked_mul(k) {
            Some(x) => x,
            None => u64::MAX,
        };
        len = len + 1;
    }
    len
}

/// `2^n` agrees with vstd's `pow2`.
proof fn lemma_spow2(n: nat)
    ensures
        spow(2, n) == vstd::arithmetic::power2::pow2(n),
    decreases n,
{
    reveal(vstd::arithmetic::power::pow);
    vstd::arithmetic::power::lemma_pow_positive(2, n);
    if n > 0 {
        lemma_spow2((n - 1) as nat);
        vstd::arithmetic::power::lemma_pow_positive(2, (n - 1) as nat);
        assert(vstd::arithmetic::power::pow(2, n) == 2 * vstd::arithmetic::power::pow(2, (n - 1) as nat));
    }
}

/// `2^n >= 2^64` for `n >= 64`, so no `u64` can need more than 64 digits.
proof fn lemma_spow2_64(n: nat)
    requires
        n >= 64,
    ensures
        spow(2, n) >= 0x1_0000_0000_0000_0000,
    decreases n,
{
    if n > 64 {
        lemma_spow2_64((n - 1) as nat);
    } else {
        lemma_spow2(64);
        vstd::arithmetic::power2::lemma2_to64();
    }
}

/// The hex digit of the low four bits of `v`.
pub open spec fn hex_of(v: u8) -> char {
    let x = v % 16;
    if x < 10 { ('0' as u8 + x) as char } else { ('a' as u8 + (x - 10)) as char }
}

fn hex(v: u8) -> (c: char)
    ensures
        c == hex_of(v),
{
    let x = v % 16;
    let c = if x < 10 { ('0' as u8 + x) as char } else { ('a' as u8 + (x - 10)) as char };
    c
}

/// The end of the run of values equal to `vals[i]`, searching from `j`.
pub open spec fn run_stop(vals: Seq<u8>, i: int, j: int) -> int
    decreases vals.len() - j,
{
    if j >= vals.len() || j < 0 || vals[j] != vals[i] {
        j
    } else {
        run_stop(vals, i, j + 1)
    }
}

/// The run-length text of `vals` from the run starting at `i`: per run its
/// hex digit and its length, runs separated by `.`.
pub open spec fn rle_from(vals: Seq<u8>, i: int) -> Seq<char>
    decreases vals.len() - i,
{
    if i < 0 || i >= vals.len() {
        Seq::empty()
    } else {
        let j = run_stop(vals, i, i + 1);
        (if i > 0 { seq!['.'] } else { Seq::empty() }) + seq![hex_of(vals[i])] + crate::strs::dec_text((j - i) as nat)
            + (if i < j && j <= vals.len() { rle_from(vals, j) } else { Seq::empty() })
    }
}

proof fn lemma_run_stop(vals: Seq<u8>, i: int, j: int)
    requires
        0 <= i < j <= vals.len(),
    ensures
        j <= run_stop(vals, i, j) <= vals.len(),
    decreases vals.len() - j,
{
    if j < vals.len() && vals[j] == vals[i] {
        lemma_run_stop(vals, i, j + 1);
    }
}

/// The text of a row: the run-length form when it is shorter, else the hex digits.
pub open spec fn row_text(vals: Seq<u8>) -> Seq<char> {
    if 1 + rle_from(vals, 0).len() < vals.len() {
        seq!['~'] + rle_from(vals, 0)
    } else {
        vals.map_values(|v: u8| hex_of(v))
    }
}

/// The terms of `d` in row `r` of a picture: at `i0 + r*scale + j0 + c*scale` for `c < w`.
pub open spec fn seq_row(d: &Dfao, w: nat, i0: nat, j0: nat, scale: nat, r: nat) -> Seq<u8> {
    Seq::new(w, |c: int| d.term((i0 + r * scale + j0 + c * scale) as nat))
}

/// One row of cells as `W` hex digits, or, when that is shorter, a run-length
/// form `~<hex><count>.<hex><count>...` (the leading `~` marks it).
pub fn encode_row(vals: &[u8]) -> (r: String)
    ensures
        r@ == row_text(vals@),
        r@.len() <= vals@.len(),
{
    let mut plain: Vec<char> = Vec::new();
    let mut i: usize = 0;
    while i < vals.len()
        invariant
            i <= vals@.len(),
            plain@ == vals@.take(i as int).map_values(|v: u8| hex_of(v)),
        decreases vals@.len() - i,
    {
        plain.push(hex(vals[i]));
        i = i + 1;
        proof {
            assert(plain@ =~= vals@.take(i as int).map_values(|v: u8| hex_of(v)));
        }
    }
    proof {
        assert(vals@.take(vals@.len() as int) =~= vals@);
    }
    let mut rle: Vec<char> = Vec::new();
    rle.push('~');
    let mut i: usize = 0;
    while i < vals.len()
        invariant
            i <= vals@.len(),
            rle@ + rle_from(vals@, i as int) == seq!['~'] + rle_from(vals@, 0),
        decreases vals@.len() - i,
    {
        let mut j = i + 1;
        while j < vals.len() && vals[j] == vals[i]
            invariant
                i < j <= vals@.len(),
                run_stop(vals@, i as int, i + 1) == run_stop(vals@, i as int, j as int),
            decreases vals@.len() - j,
        {
            j = j + 1;
        }
        let ghost pre = rle@;
        if i > 0 {
            rle.push('.');
        }
        rle.push(hex(vals[i]));
        crate::strs::push_num(&mut rle, j - i);
        proof {
            assert(run_stop(vals@, i as int, j as int) == j);
            assert(rle@ + rle_from(vals@, j as int) =~= pre + rle_from(vals@, i as int));
        }
        i = j;
    }
    proof {
        assert(rle@ =~= seq!['~'] + rle_from(vals@, 0));
    }
    if rle.len() < plain.len() {
        string_of(rle.as_slice())
    } else {
        string_of(plain.as_slice())
    }
}

/// A computed picture: its geometry, the number of distinct cell values
/// (`maxval + 1`), and one encoded row per `i`.
pub struct Pic {
    pub w: u64,
    pub h: u64,
    pub i0: u64,
    pub j0: u64,
    pub scale: u64,
    pub vals: usize,
    pub rows: Vec<String>,
}

/// The two-track letter of the point `(i, j)` at digit place `q`.
pub open spec fn cell_word(ir: Seq<usize>, jc: Seq<usize>, mi: nat, mj: nat) -> Seq<usize> {
    Seq::new(ir.len(), |q: int| (ir[q] * mi + jc[q] * mj) as usize)
}

/// Run the predicate on the two-track word of one cell.
fn run_cell(a: &Dfa, ir: &Vec<usize>, jc: &Vec<usize>, mi: usize, mj: usize) -> (r: bool)
    requires
        a.wf(),
        ir@.len() == jc@.len(),
        forall|q: int| 0 <= q < ir@.len() ==> (#[trigger] ir@[q] * mi + jc@[q] * mj) < a.alpha,
        mi <= a.alpha,
        mj <= a.alpha,
    ensures
        r == a.accepts(cell_word(ir@, jc@, mi as nat, mj as nat)),
{
    let ghost wd = cell_word(ir@, jc@, mi as nat, mj as nat);
    let mut s: usize = 0;
    let mut q: usize = 0;
    proof {
        assert(wd.take(0) =~= Seq::<usize>::empty());
    }
    while q < ir.len()
        invariant
            a.wf(),
            ir@.len() == jc@.len(),
            forall|x: int| 0 <= x < ir@.len() ==> (#[trigger] ir@[x] * mi + jc@[x] * mj) < a.alpha,
            mi <= a.alpha,
            mj <= a.alpha,
            wd == cell_word(ir@, jc@, mi as nat, mj as nat),
            q <= ir@.len(),
            s < a.nstates,
            s == a.run_from(0, wd.take(q as int)),
        decreases ir@.len() - q,
    {
        let x = ir[q];
        let y = jc[q];
        assert(x * mi + y * mj < a.alpha);
        proof {
            assert(x * mi <= x * mi + y * mj) by (nonlinear_arith)
                requires
                    y * mj >= 0,
            ;
            assert(y * mj >= 0) by (nonlinear_arith);
        }
        let sym = x * mi + y * mj;
        proof {
            assert(wd.take(q + 1).drop_last() =~= wd.take(q as int));
            assert(wd.take(q + 1).last() == sym);
        }
        s = a.t(s, sym);
        q = q + 1;
    }
    proof {
        assert(wd.take(ir@.len() as int) =~= wd);
    }
    a.accept[s]
}

/// The encoded rows of the picture of `d`: row `r` holds the terms at
/// `i0 + r*scale + j0 + c*scale` for `c < w`.
pub fn seq_rows(d: &Dfao, w: u64, h: u64, i0: u64, j0: u64, scale: u64) -> (rows: Vec<String>)
    requires
        d.wf(),
        d.k >= 2,
        1 <= w <= MAX_CELLS,
        1 <= h <= MAX_CELLS,
        i0 + (h - 1) * scale + j0 + (w - 1) * scale <= u64::MAX,
    ensures
        rows@.len() == h,
        forall|x: int| 0 <= x < h ==> #[trigger] rows@[x]@
            == row_text(seq_row(d, w as nat, i0 as nat, j0 as nat, scale as nat, x as nat)),
{
    let imax = i0 + (h - 1) * scale;
    let jmax = j0 + (w - 1) * scale;
    let mut rows: Vec<String> = Vec::new();
    let mut vals: Vec<u8> = Vec::new();
    let mut c: u64 = 0;
    while c < w
        invariant
            c <= w,
            vals@.len() == c,
        decreases w - c,
    {
        vals.push(0);
        c = c + 1;
    }
    let mut r: u64 = 0;
    while r < h
        invariant
            d.wf(),
            d.k >= 2,
            r <= h,
            vals@.len() == w,
            rows@.len() == r,
            i0 + (h - 1) * scale == imax,
            j0 + (w - 1) * scale == jmax,
            imax + jmax <= u64::MAX,
            1 <= w <= MAX_CELLS,
            1 <= h <= MAX_CELLS,
            forall|x: int| 0 <= x < r ==> #[trigger] rows@[x]@
                == row_text(seq_row(d, w as nat, i0 as nat, j0 as nat, scale as nat, x as nat)),
        decreases h - r,
    {
        proof {
            assert(r * scale <= (h - 1) * scale) by (nonlinear_arith)
                requires
                    r <= h - 1,
        ;
        }
        let i = i0 + r * scale;
        let mut c: u64 = 0;
        while c < w
            invariant
                d.wf(),
                d.k >= 2,
                c <= w,
                vals@.len() == w,
                i <= imax,
                i == i0 + r * scale,
                w <= MAX_CELLS,
                j0 + (w - 1) * scale == jmax,
                imax + jmax <= u64::MAX,
                forall|x: int| 0 <= x < c ==> #[trigger] vals@[x] == seq_row(d, w as nat, i0 as nat, j0 as nat, scale as nat, r as nat)[x],
            decreases w - c,
        {
            proof {
                assert(c * scale <= (w - 1) * scale) by (nonlinear_arith)
                    requires
                        c <= w - 1,
                ;
            }
            let v = d.at(i + j0 + c * scale);
            let ghost pv = vals@;
            vals.set(c as usize, v);
            proof {
                assert(v == seq_row(d, w as nat, i0 as nat, j0 as nat, scale as nat, r as nat)[c as int]);
                assert forall|x: int| 0 <= x < c + 1 implies #[trigger] vals@[x] == seq_row(d, w as nat, i0 as nat, j0 as nat, scale as nat, r as nat)[x] by {
                    if x < c {
                        assert(vals@[x] == pv[x]);
                    }
                }
            }
            c = c + 1;
        }
        proof {
            assert(vals@ =~= seq_row(d, w as nat, i0 as nat, j0 as nat, scale as nat, r as nat));
        }
        rows.push(encode_row(vals.as_slice()));
        r = r + 1;
    }
    rows
}

/// The cells of row `r` of the picture of a two-variable predicate: 1 where it
/// holds of `(i0 + r*scale, j0 + c*scale)`, read on `len`-digit words.
pub open spec fn pred_row(a: &Dfa, k: nat, len: nat, lsd: bool, w: nat, i0: nat, j0: nat, scale: nat,
    mi: nat, mj: nat, r: nat) -> Seq<u8> {
    Seq::new(w, |c: int| if a.accepts(cell_word(pdigits(i0 + r * scale, k, len, lsd),
        pdigits((j0 + c * scale) as nat, k, len, lsd), mi, mj)) { 1u8 } else { 0u8 })
}

/// The encoded rows of the picture of a two-variable predicate (see `pred_row`);
/// `mi`, `mj` weigh the row and column digits in a letter.
pub fn pred_rows(a: &Dfa, k: u64, len: usize, lsd: bool, w: u64, h: u64, i0: u64, j0: u64, scale: u64,
    mi: usize, mj: usize) -> (rows: Vec<String>)
    requires
        a.wf(),
        a.vars@.len() == 2,
        a.alpha == a.k * a.k,
        a.k <= a.alpha,
        a.k == k,
        k >= 2,
        (mi == 1 && mj == a.k) || (mi == a.k && mj == 1),
        1 <= w <= MAX_CELLS,
        1 <= h <= MAX_CELLS,
        i0 + (h - 1) * scale + j0 + (w - 1) * scale <= u64::MAX,
    ensures
        rows@.len() == h,
        forall|x: int| 0 <= x < h ==> #[trigger] rows@[x]@
            == row_text(pred_row(a, k as nat, len as nat, lsd, w as nat, i0 as nat, j0 as nat, scale as nat, mi as nat, mj as nat, x as nat)),
{
    let imax = i0 + (h - 1) * scale;
    let jmax = j0 + (w - 1) * scale;
    let mut rows: Vec<String> = Vec::new();
    let mut vals: Vec<u8> = Vec::new();
    let mut c: u64 = 0;
    while c < w
        invariant
            c <= w,
            vals@.len() == c,
        decreases w - c,
    {
        vals.push(0);
        c = c + 1;
    }
    let mut r: u64 = 0;
    while r < h
        invariant
            a.wf(),
            a.vars@.len() == 2,
            a.alpha == a.k * a.k,
            a.k <= a.alpha,
            a.k == k,
            k >= 2,
            (mi == 1 && mj == a.k) || (mi == a.k && mj == 1),
            r <= h,
            vals@.len() == w,
            rows@.len() == r,
            i0 + (h - 1) * scale == imax,
            j0 + (w - 1) * scale == jmax,
            imax + jmax <= u64::MAX,
            1 <= w <= MAX_CELLS,
            1 <= h <= MAX_CELLS,
            forall|x: int| 0 <= x < r ==> #[trigger] rows@[x]@
                == row_text(pred_row(a, k as nat, len as nat, lsd, w as nat, i0 as nat, j0 as nat, scale as nat, mi as nat, mj as nat, x as nat)),
        decreases h - r,
    {
        proof {
            assert(r * scale <= (h - 1) * scale) by (nonlinear_arith)
                requires
                    r <= h - 1,
            ;
        }
        let ir = digits(i0 + r * scale, k, len, lsd);
        let mut c: u64 = 0;
        while c < w
            invariant
                a.wf(),
                a.vars@.len() == 2,
                a.alpha == a.k * a.k,
                a.k <= a.alpha,
                a.k == k,
                k >= 2,
                (mi == 1 && mj == a.k) || (mi == a.k && mj == 1),
                c <= w,
                w <= MAX_CELLS,
                vals@.len() == w,
                j0 + (w - 1) * scale == jmax,
                ir@ == pdigits((i0 + r * scale) as nat, k as nat, len as nat, lsd),
                ir@.len() == len,
                forall|q: int| 0 <= q < ir@.len() ==> (#[trigger] ir@[q]) < k,
                forall|x: int| 0 <= x < c ==> #[trigger] vals@[x]
                    == pred_row(a, k as nat, len as nat, lsd, w as nat, i0 as nat, j0 as nat, scale as nat, mi as nat, mj as nat, r as nat)[x],
            decreases w - c,
        {
            proof {
                assert(c * scale <= (w - 1) * scale) by (nonlinear_arith)
                    requires
                        c <= w - 1,
                ;
            }
            let jc = digits(j0 + c * scale, k, len, lsd);
            proof {
                assert forall|q: int| 0 <= q < ir@.len() implies (#[trigger] ir@[q] * mi + jc@[q] * mj) < a.alpha by {
                    let x = ir@[q];
                    let y = jc@[q];
                    assert(y < k);
                    assert(x * mi + y * mj < k * k) by (nonlinear_arith)
                        requires
                            x < k,
                            y < k,
                            (mi == 1 && mj == k) || (mi == k && mj == 1),
                    ;
                }
            }
            let cell = run_cell(a, &ir, &jc, mi, mj);
            let ghost pv = vals@;
            vals.set(c as usize, if cell { 1 } else { 0 });
            proof {
                assert forall|x: int| 0 <= x < c + 1 implies #[trigger] vals@[x]
                    == pred_row(a, k as nat, len as nat, lsd, w as nat, i0 as nat, j0 as nat, scale as nat, mi as nat, mj as nat, r as nat)[x] by {
                    if x < c {
                        assert(vals@[x] == pv[x]);
                    }
                }
            }
            c = c + 1;
        }
        proof {
            assert(vals@ =~= pred_row(a, k as nat, len as nat, lsd, w as nat, i0 as nat, j0 as nat, scale as nat, mi as nat, mj as nat, r as nat));
        }
        rows.push(encode_row(vals.as_slice()));
        r = r + 1;
    }
    rows
}

/// Row `x` of `p` shows the terms of `d` at `(p.i0 + x*scale, p.j0 + c*scale)`.
pub open spec fn seq_pic(d: &Dfao, p: &Pic) -> bool {
    forall|x: int| 0 <= x < p.h ==> #[trigger] p.rows@[x]@
        == row_text(seq_row(d, p.w as nat, p.i0 as nat, p.j0 as nat, p.scale as nat, x as nat))
}

/// Row `x` of `p` shows where the predicate `a` holds of `(p.i0 + x*scale, p.j0 + c*scale)`.
pub open spec fn pred_pic(a: &Dfa, k: nat, len: nat, lsd: bool, p: &Pic, mi: nat, mj: nat) -> bool {
    forall|x: int| 0 <= x < p.h ==> #[trigger] p.rows@[x]@
        == row_text(pred_row(a, k, len, lsd, p.w as nat, p.i0 as nat, p.j0 as nat, p.scale as nat, mi, mj, x as nat))
}

/// Token `i` (counting from 0) of the white-space separated words of `cs`, as a
/// number, or `dflt` when there is no such token or it is not a number.
pub open spec fn tok_num(cs: Seq<char>, i: int, dflt: u64) -> u64 {
    let t = crate::walnut::runs(cs, 0, cs.len() as int);
    if 0 <= i < t.len() && crate::text::signed_digits(cs, t[i].0, t[i].1, false)
        && crate::text::magnitude(cs, t[i].0, t[i].1) <= u64::MAX {
        crate::text::magnitude(cs, t[i].0, t[i].1) as u64
    } else {
        dflt
    }
}

/// `pic NAME W H [i0 j0 [scale]]`: the picture, or the `ERR ...` text.
pub fn cmd(cur: Option<&Dfao>, defs: &Defs, rest: &str, cx: &Ctx) -> (r: Result<Pic, String>)
    requires
        cur matches Some(d) ==> d.wf() && d.k >= 2 && defs.wf(d.k as nat),
    ensures
        cur is None ==> r is Err,
        r matches Ok(p) ==> 1 <= p.w && 1 <= p.h && p.w * p.h <= MAX_CELLS && p.scale >= 1
            && p.rows@.len() == p.h,
        r matches Ok(p) ==> p.w == tok_num(rest@, 1, 0) && p.h == tok_num(rest@, 2, 0)
            && p.i0 == tok_num(rest@, 3, 0) && p.j0 == tok_num(rest@, 4, 0)
            && p.scale == (if tok_num(rest@, 5, 1) < 1 { 1 } else { tok_num(rest@, 5, 1) }),
        r matches Ok(p) ==> (cur matches Some(d) ==> (
            seq_pic(d, &p)
            || exists|di: int, len: nat, mi: nat, mj: nat| 0 <= di < defs.entries@.len()
                && ((mi == 1 && mj == d.k) || (mi == d.k && mj == 1))
                && #[trigger] pred_pic(&defs.entries@[di].body, d.k as nat, len, cx.lsd, &p, mi, mj))),
{
    let d = match cur {
        Some(d) => d,
        None => {
            return Err(crate::strs::str_to_string("ERR no sequence"));
        },
    };
    let cs = str_chars(rest);
    let toks = crate::walnut::tokens(&cs, 0, cs.len());
    let usage = "ERR usage: pic NAME W H [i0 j0 [scale]]";
    if toks.len() < 3 {
        return Err(crate::strs::str_to_string(usage));
    }
    let nm = crate::walnut::slice_of(&cs, toks[0].0, toks[0].1);
    let name = string_of(nm.as_slice());
    proof {
        assert(toks@[1].0 as int == crate::walnut::int_pairs(toks@)[1].0);
        assert(toks@[2].0 as int == crate::walnut::int_pairs(toks@)[2].0);
        assert(toks@[1].1 as int == crate::walnut::int_pairs(toks@)[1].1);
        assert(toks@[2].1 as int == crate::walnut::int_pairs(toks@)[2].1);
    }
    let (w, h) = match (parse_u64(&cs, toks[1].0, toks[1].1), parse_u64(&cs, toks[2].0, toks[2].1)) {
        (Some(w), Some(h)) => (w, h),
        _ => {
            return Err(crate::strs::str_to_string(usage));
        },
    };
    if w == 0 || h == 0 {
        return Err(crate::strs::str_to_string("ERR pic: W and H must be positive"));
    }
    if w > MAX_CELLS || h > MAX_CELLS {
        return Err(crate::strs::str_to_string("ERR pic: too many cells"));
    }
    proof {
        assert(w * h <= MAX_CELLS * MAX_CELLS) by (nonlinear_arith)
            requires
                w <= MAX_CELLS,
                h <= MAX_CELLS,
        ;
    }
    if w * h > MAX_CELLS {
        return Err(crate::strs::str_to_string("ERR pic: too many cells"));
    }
    let i0 = opt_num(&cs, &toks, 3, 0);
    let j0 = opt_num(&cs, &toks, 4, 0);
    let s1 = opt_num(&cs, &toks, 5, 1);
    let scale = if s1 < 1 { 1 } else { s1 };
    proof {
        let t = crate::walnut::runs(cs@, 0, cs@.len() as int);
        assert(t == crate::walnut::int_pairs(toks@));
        assert forall|i: int| 0 <= i < toks@.len() implies #[trigger] t[i] == (toks@[i].0 as int, toks@[i].1 as int) by {}
        assert(w == tok_num(rest@, 1, 0));
        assert(h == tok_num(rest@, 2, 0));
        assert(i0 == tok_num(rest@, 3, 0));
        assert(j0 == tok_num(rest@, 4, 0));
        assert(s1 == tok_num(rest@, 5, 1));
    }
    let k = d.k as u64;
    let imax = match mul_add(i0, h - 1, scale) {
        Some(x) => x,
        None => {
            return Err(crate::strs::str_to_string("ERR pic: coordinates too large"));
        },
    };
    let jmax = match mul_add(j0, w - 1, scale) {
        Some(x) => x,
        None => {
            return Err(crate::strs::str_to_string("ERR pic: coordinates too large"));
        },
    };
    let top = if imax > jmax { imax } else { jmax };
    if top == u64::MAX || imax > u64::MAX - jmax {
        return Err(crate::strs::str_to_string("ERR pic: coordinates too large"));
    }
    let len = width_of(top, k);
    let is_seq = str_eq(name.as_str(), "T") || str_eq(name.as_str(), d.name.as_str());
    if is_seq {
        let rows = seq_rows(d, w, h, i0, j0, scale);
        let alph = d.out_alphabet();
        let maxval: u8 = if alph.len() > 0 { alph[alph.len() - 1] } else { 0 };
        let pic = Pic { w, h, i0, j0, scale, vals: maxval as usize + 1, rows };
        proof {
            assert(seq_pic(d, &pic));
        }
        return Ok(pic);
    }
    let di = match defs.find(name.as_str()) {
        Some(x) => x,
        None => {
            return Err(crate::strs::str_to_string("ERR pic: no such predicate"));
        },
    };
    let a = &defs.entries[di].body;
    let params = &defs.entries[di].params;
    if a.vars.len() != 2 {
        return Err(crate::strs::str_to_string("ERR pic: the predicate needs exactly 2 free variables"));
    }
    let pi = if params.len() > 0 { crate::strs::position(&a.vars, params[0].as_str()) } else { Some(0) };
    let pj = if params.len() > 1 { crate::strs::position(&a.vars, params[1].as_str()) } else { Some(1) };
    let (ti, tj) = match (pi, pj) {
        (Some(x), Some(y)) => (x, y),
        _ => {
            return Err(crate::strs::str_to_string("ERR pic: parameters do not match its variables"));
        },
    };
    if ti == tj {
        return Err(crate::strs::str_to_string("ERR pic: the predicate uses one variable twice"));
    }
    proof {
        assert(spow(a.k as nat, 0) == 1);
        assert(spow(a.k as nat, 1) == a.k * spow(a.k as nat, 0));
        assert(spow(a.k as nat, 2) == a.k * spow(a.k as nat, 1));
        assert(a.alpha == a.k * a.k);
        assert(a.k <= a.k * a.k) by (nonlinear_arith)
            requires
                a.k >= 1,
        ;
    }
    let mi: usize = if ti == 0 { 1 } else { a.k };
    let mj: usize = if tj == 0 { 1 } else { a.k };
    let rows = pred_rows(a, k, len, cx.lsd, w, h, i0, j0, scale, mi, mj);
    let pic = Pic { w, h, i0, j0, scale, vals: 2, rows };
    proof {
        assert(pred_pic(&defs.entries@[di as int].body, d.k as nat, len as nat, cx.lsd, &pic, mi as nat, mj as nat));
    }
    Ok(pic)
}

/// `x + n * s`, if it fits.
fn mul_add(x: u64, n: u64, s: u64) -> (r: Option<u64>)
    ensures
        r matches Some(v) ==> v == x + n * s,
        r is None ==> x + n * s > u64::MAX,
{
    match n.checked_mul(s) {
        Some(p) => x.checked_add(p),
        None => {
            proof {
                assert(x + n * s >= n * s) by (nonlinear_arith)
                    requires
                        x >= 0,
                ;
            }
            None
        },
    }
}

/// The optional numeric argument `i`, or `dflt` when absent or not a number.
fn opt_num(cs: &Vec<char>, toks: &Vec<(usize, usize)>, i: usize, dflt: u64) -> (r: u64)
    requires
        forall|j: int| 0 <= j < toks@.len() ==> (#[trigger] toks@[j]).0 < toks@[j].1 <= cs@.len(),
    ensures
        r == if i < toks@.len() && crate::text::signed_digits(cs@, toks@[i as int].0 as int, toks@[i as int].1 as int, false)
            && crate::text::magnitude(cs@, toks@[i as int].0 as int, toks@[i as int].1 as int) <= u64::MAX {
            crate::text::magnitude(cs@, toks@[i as int].0 as int, toks@[i as int].1 as int) as u64
        } else {
            dflt
        },
{
    if i < toks.len() {
        match parse_u64(cs, toks[i].0, toks[i].1) {
            Some(v) => v,
            None => dflt,
        }
    } else {
        dflt
    }
}

} // verus!
