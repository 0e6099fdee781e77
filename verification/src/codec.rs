//! Tuples of numbers as words over a product alphabet, and back.
use vstd::prelude::*;
use crate::dfa::{MAX_ALPHA, spow, sdigit, word_over};
use crate::dfao::kdigits;
use crate::chain::orient;
use crate::quant::{zeros, pad};
use crate::base::{track, val};
use crate::numsys::{NumSys, MAXLEN};
use crate::ops::Ctx;

verus! {

/// The number of base-`k` digits of `v`, at least one.
pub open spec fn ndigits(v: nat, k: nat) -> nat {
    if kdigits(v, k).len() == 0 { 1 } else { kdigits(v, k).len() }
}

/// The largest digit count among `vals`, at least one.
pub open spec fn max_ndigits(vals: Seq<u64>, k: nat) -> nat
    decreases vals.len(),
{
    if vals.len() == 0 {
        1
    } else {
        let a = ndigits(vals.last() as nat, k);
        let b = max_ndigits(vals.drop_last(), k);
        if a > b { a } else { b }
    }
}

/// Digit `c` of every letter of `w`.
pub open spec fn digit_track(w: Seq<usize>, c: nat, k: nat) -> Seq<usize> {
    w.map_values(|s: usize| sdigit(s as nat, c, k) as usize)
}

/// `ds` padded with zeros to length `len` and read in the given order.
pub open spec fn placed(ds: Seq<usize>, len: nat, lsd: bool) -> Seq<usize> {
    pad(orient(ds, lsd), (len - ds.len()) as nat, lsd)
}

/// `r` could be a numeration system's canonical word for `v`.
pub open spec fn rep_like(ns: NumSys, r: Seq<usize>, v: u64) -> bool {
    &&& 1 <= r.len() <= MAXLEN + 1
    &&& word_over(r, ns.digits as nat)
    &&& ((forall|i: int| 0 <= i < r.len() ==> #[trigger] r[i] == 0) || (ns.rank(r) == v && ns.vacc@[ns.vrun(r, r.len()) as int]))
}

/// The track `t` of length `len` holds, padded and oriented, a canonical word for `v`.
pub open spec fn carries(ns: NumSys, t: Seq<usize>, len: nat, lsd: bool, v: u64) -> bool {
    exists|rw: Seq<usize>| rep_like(ns, rw, v) && t == #[trigger] placed(rw, len, lsd)
}

/// The letter `x * k + d` has digit `d` first and the digits of `x` after it.
proof fn lemma_sdigit_horner(x: nat, d: nat, c: nat, k: nat)
    requires
        k >= 1,
        d < k,
    ensures
        sdigit(x * k + d, 0, k) == d,
        c >= 1 ==> sdigit(x * k + d, c, k) == sdigit(x, (c - 1) as nat, k),
{
    let y = x * k + d;
    assert(spow(k, 0) == 1);
    vstd::arithmetic::div_mod::lemma_fundamental_div_mod_converse(y as int, k as int, x as int, d as int);
    assert(y / 1 == y);
    if c >= 1 {
        let p = spow(k, (c - 1) as nat);
        crate::dfa::lemma_spow_pos(k, (c - 1) as nat);
        assert(spow(k, c) == k * p);
        vstd::arithmetic::div_mod::lemma_div_denominator(y as int, k as int, p as int);
    }
}

/// Word length needed to carry every value in `vals`: the longest base-`k`
/// digit count, or the longest canonical word under a numeration system.
pub fn width_for(k: usize, vals: &[u64], cx: &Ctx) -> (r: usize)
    requires
        2 <= k <= MAX_ALPHA,
        cx.wf(),
    ensures
        r >= 1,
        cx.ns is None ==> r == max_ndigits(vals@, k as nat),
        cx.ns is Some ==> r <= MAXLEN + 1,
{
    let mut best: usize = 1;
    let mut i: usize = 0;
    while i < vals.len()
        invariant
            2 <= k <= MAX_ALPHA,
            cx.wf(),
            i <= vals.len(),
            best >= 1,
            cx.ns is None ==> best == max_ndigits(vals@.take(i as int), k as nat),
            cx.ns is Some ==> best <= MAXLEN + 1,
            cx.ns is None ==> best <= 64,
        decreases vals.len() - i,
    {
        let l = match &cx.ns {
            None => {
                let ds = crate::base::base_digits(k, vals[i]);
                if ds.len() == 0 { 1 } else { ds.len() }
            },
            Some(ns) => ns.rep(vals[i]).len(),
        };
        proof {
            assert(vals@.take(i + 1).drop_last() =~= vals@.take(i as int));
            assert(vals@.take(i + 1).last() == vals@[i as int]);
        }
        if l > best {
            best = l;
        }
        i = i + 1;
    }
    proof {
        assert(vals@.take(vals.len() as int) =~= vals@);
    }
    best
}

/// The digit word carried by one track: base-`k` digits or the canonical word.
fn track_digits(k: usize, v: u64, cx: &Ctx) -> (r: Vec<usize>)
    requires
        2 <= k <= MAX_ALPHA,
        cx.wf(),
        cx.fits(k as nat),
    ensures
        word_over(r@, k as nat),
        cx.ns is None ==> r@ == kdigits(v as nat, k as nat) && r.len() <= 64,
        cx.ns matches Some(ns) ==> rep_like(ns, r@, v),
{
    match &cx.ns {
        None => {
            proof {
                crate::base::lemma_kdigits(v as nat, k as nat);
            }
            crate::base::base_digits(k, v)
        },
        Some(ns) => ns.rep(v),
    }
}

/// Digit `idx` of `t` padded with leading zeros to length `len`.
fn padded_digit(t: &Vec<usize>, len: usize, idx: usize) -> (r: usize)
    requires
        t.len() <= len,
        idx < len,
    ensures
        r == (zeros((len - t.len()) as nat) + t@)[idx as int],
{
    let z = len - t.len();
    if idx < z {
        0
    } else {
        t[idx - z]
    }
}

/// The padded track `t` (leading zeros to `len`) as read in the given order.
proof fn lemma_placed(t: Seq<usize>, len: nat, lsd: bool)
    requires
        t.len() <= len,
    ensures
        placed(t, len, lsd).len() == len,
        forall|p: int| 0 <= p < len ==> #[trigger] placed(t, len, lsd)[p]
            == (zeros((len - t.len()) as nat) + t)[if lsd { len - 1 - p } else { p }],
{
    let z = zeros((len - t.len()) as nat);
    if lsd {
        assert(placed(t, len, lsd) =~= (z + t).reverse());
    } else {
        assert(placed(t, len, lsd) =~= z + t);
    }
}

/// Each value's digit count is at most the largest.
proof fn lemma_max_ndigits(vals: Seq<u64>, k: nat, i: int)
    requires
        0 <= i < vals.len(),
    ensures
        ndigits(vals[i] as nat, k) <= max_ndigits(vals, k),
        max_ndigits(vals, k) >= 1,
    decreases vals.len(),
{
    if i < vals.len() - 1 {
        lemma_max_ndigits(vals.drop_last(), k, i);
    }
}

/// A tuple of values as one word over the product alphabet, in the given
/// digit order, at the shortest common length: coordinate `c` of each letter
/// carries a digit of `vals[c]`.
pub fn encode_word(k: usize, vals: &[u64], cx: &Ctx) -> (r: Vec<usize>)
    requires
        2 <= k <= MAX_ALPHA,
        spow(k as nat, vals@.len() as nat) <= MAX_ALPHA,
        cx.wf(),
        cx.fits(k as nat),
    ensures
        r@.len() >= 1,
        word_over(r@, spow(k as nat, vals@.len() as nat)),
        cx.ns is None ==> r@.len() == max_ndigits(vals@, k as nat),
        cx.ns is None ==> forall|c: nat| c < vals@.len() ==> #[trigger] digit_track(r@, c, k as nat)
            == placed(kdigits(vals@[c as int] as nat, k as nat), r@.len(), cx.lsd),
        cx.ns is Some ==> forall|c: nat| c < vals@.len() ==> #[trigger] carries(cx.ns->Some_0, digit_track(r@, c, k as nat), r@.len(),
            cx.lsd, vals@[c as int]),
{
    let n = vals.len();
    let ghost kk = k as nat;
    let mut tracks: Vec<Vec<usize>> = Vec::new();
    let mut len: usize = 1;
    let mut i: usize = 0;
    while i < n
        invariant
            2 <= k <= MAX_ALPHA,
            kk == k,
            cx.wf(),
            cx.fits(kk),
            n == vals.len(),
            i <= n,
            tracks.len() == i,
            1 <= len <= MAXLEN + 1,
            forall|j: int| 0 <= j < i ==> (#[trigger] tracks@[j])@.len() <= len && word_over(tracks@[j]@, kk),
            cx.ns is None ==> forall|j: int| 0 <= j < i ==> (#[trigger] tracks@[j])@ == kdigits(vals@[j] as nat, kk),
            cx.ns is Some ==> forall|j: int| 0 <= j < i ==> rep_like(cx.ns->Some_0, (#[trigger] tracks@[j])@, vals@[j]),
            cx.ns is None ==> len == max_ndigits(vals@.take(i as int), kk),
        decreases n - i,
    {
        let t = track_digits(k, vals[i], cx);
        let l = if t.len() == 0 { 1 } else { t.len() };
        proof {
            assert(vals@.take(i + 1).drop_last() =~= vals@.take(i as int));
            assert(vals@.take(i + 1).last() == vals@[i as int]);
        }
        if l > len {
            len = l;
        }
        tracks.push(t);
        i = i + 1;
    }
    proof {
        assert(vals@.take(n as int) =~= vals@);
    }
    let mut w: Vec<usize> = Vec::new();
    let mut pos: usize = 0;
    while pos < len
        invariant
            2 <= k <= MAX_ALPHA,
            kk == k,
            spow(kk, n as nat) <= MAX_ALPHA,
            n == vals.len(),
            tracks.len() == n,
            forall|j: int| 0 <= j < n ==> (#[trigger] tracks@[j])@.len() <= len && word_over(tracks@[j]@, kk),
            pos <= len,
            cx.ns is None ==> forall|j: int| 0 <= j < n ==> (#[trigger] tracks@[j])@ == kdigits(vals@[j] as nat, kk),
            cx.ns is Some ==> forall|j: int| 0 <= j < n ==> rep_like(cx.ns->Some_0, (#[trigger] tracks@[j])@, vals@[j]),
            cx.ns is None ==> len == max_ndigits(vals@, kk),
            len >= 1,
            w@.len() == pos,
            word_over(w@, spow(kk, n as nat)),
            forall|p: int, c: nat| 0 <= p < pos && c < n ==> #[trigger] sdigit(w@[p] as nat, c, kk)
                == (zeros((len - tracks@[c as int]@.len()) as nat) + tracks@[c as int]@)[if cx.lsd { len - 1 - p } else { p }] as nat,
        decreases len - pos,
    {
        let idx = if cx.lsd { len - 1 - pos } else { pos };
        let mut sym: usize = 0;
        let mut c: usize = n;
        proof {
            assert(spow(kk, 0) == 1);
        }
        while c > 0
            invariant
                2 <= k <= MAX_ALPHA,
                kk == k,
                spow(kk, n as nat) <= MAX_ALPHA,
                tracks.len() == n,
                forall|j: int| 0 <= j < n ==> (#[trigger] tracks@[j])@.len() <= len && word_over(tracks@[j]@, kk),
                idx < len,
                c <= n,
                sym < spow(kk, (n - c) as nat),
                forall|j: nat| j < n - c ==> #[trigger] sdigit(sym as nat, j, kk)
                    == (zeros((len - tracks@[c + j]@.len()) as nat) + tracks@[c + j]@)[idx as int] as nat,
            decreases c,
        {
            c = c - 1;
            let d = padded_digit(&tracks[c], len, idx);
            proof {
                let t = tracks@[c as int]@;
                let z = zeros((len - t.len()) as nat);
                if idx < len - t.len() {
                    assert((z + t)[idx as int] == 0);
                } else {
                    assert((z + t)[idx as int] == t[idx - (len - t.len())]);
                }
                assert(d < k);
                let m = (n - c - 1) as nat;
                crate::dfa::lemma_spow_pos(kk, m);
                crate::dfa::lemma_spow_mono(kk, m + 1, n as nat);
                assert(spow(kk, m + 1) == kk * spow(kk, m));
                assert(sym * kk + d < kk * spow(kk, m)) by (nonlinear_arith)
                    requires
                        sym < spow(kk, m),
                        d < kk,
                ;
                assert forall|j: nat| j < n - c implies #[trigger] sdigit((sym * kk + d) as nat, j, kk)
                    == (zeros((len - tracks@[c + j]@.len()) as nat) + tracks@[c + j]@)[idx as int] as nat by {
                    lemma_sdigit_horner(sym as nat, d as nat, j, kk);
                    if j >= 1 {
                        assert(sdigit(sym as nat, (j - 1) as nat, kk) == (zeros((len - tracks@[(c + 1) + (j - 1)]@.len()) as nat)
                            + tracks@[(c + 1) + (j - 1)]@)[idx as int] as nat);
                        assert((c + 1) + (j - 1) == c + j);
                    }
                }
            }
            sym = sym * k + d;
        }
        w.push(sym);
        proof {
            assert forall|p: int, c: nat| 0 <= p < pos + 1 && c < n implies #[trigger] sdigit(w@[p] as nat, c, kk)
                == (zeros((len - tracks@[c as int]@.len()) as nat) + tracks@[c as int]@)[if cx.lsd { len - 1 - p } else { p }] as nat by {
                if p == pos {
                    assert(sdigit(sym as nat, c, kk) == (zeros((len - tracks@[(0 + c) as int]@.len()) as nat) + tracks@[(0 + c) as int]@)[idx as int] as nat);
                }
            }
        }
        pos = pos + 1;
    }
    proof {
        assert forall|c: nat| c < n implies #[trigger] digit_track(w@, c, kk) == placed(tracks@[c as int]@, w@.len(), cx.lsd) by {
            let t = tracks@[c as int]@;
            lemma_placed(t, len as nat, cx.lsd);
            assert forall|p: int| 0 <= p < len implies digit_track(w@, c, kk)[p] == placed(t, len as nat, cx.lsd)[p] by {
                assert(sdigit(w@[p] as nat, c, kk) == (zeros((len - t.len()) as nat) + t)[if cx.lsd { len - 1 - p } else { p }] as nat);
            }
            assert(digit_track(w@, c, kk) =~= placed(t, len as nat, cx.lsd));
        }
        if cx.ns is Some {
            assert forall|c: nat| c < vals@.len() implies #[trigger] carries(cx.ns->Some_0, digit_track(w@, c, k as nat), w@.len(),
                cx.lsd, vals@[c as int]) by {
                assert(c < n);
                assert(rep_like(cx.ns->Some_0, tracks@[c as int]@, vals@[c as int]));
                assert(digit_track(w@, c, kk) == placed(tracks@[c as int]@, w@.len(), cx.lsd));
            }
        }
    }
    w
}

/// The value of a digit string never drops when digits are appended (msd).
proof fn lemma_val_msd_prefix(s: Seq<nat>, k: nat, i: nat)
    requires
        k >= 1,
        i <= s.len(),
    ensures
        crate::base::val_msd(s.take(i as int), k) <= crate::base::val_msd(s, k),
        crate::base::val_msd(s, k) >= 0,
    decreases s.len(),
{
    if s.len() > 0 {
        if i < s.len() {
            lemma_val_msd_prefix(s.drop_last(), k, i);
            assert(s.drop_last().take(i as int) =~= s.take(i as int));
        } else {
            assert(s.take(i as int) =~= s);
            lemma_val_msd_prefix(s.drop_last(), k, 0);
        }
        let x = crate::base::val_msd(s.drop_last(), k);
        assert(x * k + s.last() >= x) by (nonlinear_arith)
            requires
                x >= 0,
                k >= 1,
        ;
    } else {
        assert(s.take(i as int) =~= s);
    }
}

/// The value of a digit string never drops when digits are appended (lsd).
proof fn lemma_val_lsd_prefix(s: Seq<nat>, k: nat, i: nat)
    requires
        k >= 1,
        i <= s.len(),
    ensures
        crate::base::val_lsd(s.take(i as int), k) <= crate::base::val_lsd(s, k),
        crate::base::val_lsd(s, k) >= 0,
    decreases s.len(),
{
    if s.len() > 0 {
        crate::dfa::lemma_spow_pos(k, (s.len() - 1) as nat);
        let t = s.last() * spow(k, (s.len() - 1) as nat);
        assert(t >= 0) by (nonlinear_arith)
            requires
                spow(k, (s.len() - 1) as nat) >= 1,
                t == s.last() * spow(k, (s.len() - 1) as nat),
        ;
        if i < s.len() {
            lemma_val_lsd_prefix(s.drop_last(), k, i);
            assert(s.drop_last().take(i as int) =~= s.take(i as int));
        } else {
            assert(s.take(i as int) =~= s);
            lemma_val_lsd_prefix(s.drop_last(), k, 0);
        }
    } else {
        assert(s.take(i as int) =~= s);
    }
}

/// A word's digit track `c`, as a digit word for a numeration system, in msd order.
pub open spec fn ns_track(w: Seq<usize>, c: nat, k: nat, lsd: bool) -> Seq<usize> {
    if lsd { digit_track(w, c, k).reverse() } else { digit_track(w, c, k) }
}

/// The values carried by a word's tracks, or `None` when one overflows a
/// `u64` (or, under a numeration system, is not a valid representation).
pub fn decode_word(k: usize, n: usize, w: &[usize], cx: &Ctx) -> (r: Option<Vec<u64>>)
    requires
        2 <= k <= MAX_ALPHA,
        spow(k as nat, n as nat) <= MAX_ALPHA,
        cx.wf(),
        cx.fits(k as nat),
    ensures
        r matches Some(v) ==> v@.len() == n,
        cx.ns is None ==> (r is Some <==> ((cx.lsd ==> (w@.len() == 0 || spow(k as nat, (w@.len() - 1) as nat) <= u64::MAX))
            && forall|c: nat| c < n ==> #[trigger] val(track(w@, c, k as nat), k as nat, cx.lsd) <= u64::MAX)),
        cx.ns is None ==> (r matches Some(v) ==> forall|c: nat| c < n ==> v@[c as int] == #[trigger] val(track(w@, c, k as nat), k as nat, cx.lsd)),
        cx.ns is Some ==> (r is Some <==> forall|c: nat| c < n ==> (#[trigger] cx.ns->Some_0.value_of(ns_track(w@, c, k as nat, cx.lsd))) is Some),
        cx.ns is Some ==> (r matches Some(v) ==> forall|c: nat| c < n ==> (#[trigger] cx.ns->Some_0.value_of(ns_track(w@, c, k as nat, cx.lsd)))
            == Some(v@[c as int])),
{
    let len = w.len();
    let ghost kk = k as nat;
    proof {
        assert forall|c: nat| c < n implies spow(kk, c) <= usize::MAX by {
            crate::dfa::lemma_spow_mono(kk, c, n as nat);
        }
    }
    match &cx.ns {
        Some(ns) => {
            let mut out: Vec<u64> = Vec::new();
            let mut c: usize = 0;
            while c < n
                invariant
                    2 <= k <= MAX_ALPHA,
                    kk == k,
                    forall|c2: nat| c2 < n ==> spow(kk, c2) <= usize::MAX,
                    cx.ns == Some(*ns),
                    ns.wf(),
                    len == w@.len(),
                    c <= n,
                    out@.len() == c,
                    forall|j: nat| j < c ==> (#[trigger] ns.value_of(ns_track(w@, j, kk, cx.lsd))) == Some(out@[j as int]),
                decreases n - c,
            {
                let mut d: Vec<usize> = Vec::new();
                let mut p: usize = 0;
                while p < len
                    invariant
                        2 <= k,
                        kk == k,
                        spow(kk, c as nat) <= usize::MAX,
                        len == w@.len(),
                        p <= len,
                        d@.len() == p,
                        forall|q: int| 0 <= q < p ==> #[trigger] d@[q] as nat == sdigit(w@[if cx.lsd { len - 1 - q } else { q }] as nat, c as nat, kk),
                    decreases len - p,
                {
                    let idx = if cx.lsd { len - 1 - p } else { p };
                    d.push(crate::dfa::digit(w[idx], c, k));
                    p = p + 1;
                }
                proof {
                    assert(d@ =~= ns_track(w@, c as nat, kk, cx.lsd));
                }
                match ns.value(d.as_slice()) {
                    Some(v) => {
                        out.push(v);
                    },
                    None => {
                        return None;
                    },
                }
                c = c + 1;
            }
            Some(out)
        },
        None => {
            let mut v: Vec<u64> = Vec::new();
            let mut c: usize = 0;
            while c < n
                invariant
                    c <= n,
                    v@.len() == c,
                    forall|j: int| 0 <= j < c ==> v@[j] == 0,
                decreases n - c,
            {
                v.push(0);
                c = c + 1;
            }
            let kb = k as u64;
            if cx.lsd {
                let mut place: u64 = 1;
                let mut p: usize = 0;
                proof {
                    assert(spow(kk, 0) == 1);
                    assert forall|j: nat| j < n implies #[trigger] crate::base::val_lsd(track(w@.take(0), j, kk), kk) == v@[j as int] by {
                        assert(track(w@.take(0), j, kk) =~= Seq::<nat>::empty());
                    }
                }
                while p < len
                    invariant
                        2 <= k <= MAX_ALPHA,
                        kk == k,
                        kb == k,
                        forall|c2: nat| c2 < n ==> spow(kk, c2) <= usize::MAX,
                        cx.ns is None,
                        cx.lsd,
                        len == w@.len(),
                        p <= len,
                        v@.len() == n,
                        p < len ==> place == spow(kk, p as nat),
                        p >= 1 ==> spow(kk, (p - 1) as nat) <= u64::MAX,
                        forall|j: nat| j < n ==> #[trigger] crate::base::val_lsd(track(w@.take(p as int), j, kk), kk) == v@[j as int],
                    decreases len - p,
                {
                    let s = w[p];
                    let mut c: usize = 0;
                    let ghost vp = v@;
                    while c < n
                        invariant
                            2 <= k <= MAX_ALPHA,
                            kk == k,
                            forall|c2: nat| c2 < n ==> spow(kk, c2) <= usize::MAX,
                            len == w@.len(),
                            cx.ns is None,
                            cx.lsd,
                            p < len,
                            s == w@[p as int],
                            place == spow(kk, p as nat),
                            v@.len() == n,
                            c <= n,
                            forall|j: nat| j < n ==> #[trigger] crate::base::val_lsd(track(w@.take(p as int), j, kk), kk) == vp[j as int],
                            forall|j: nat| j < c ==> #[trigger] crate::base::val_lsd(track(w@.take(p + 1), j, kk), kk) == v@[j as int],
                            forall|j: nat| c <= j < n ==> #[trigger] v@[j as int] == vp[j as int],
                        decreases n - c,
                    {
                        let d = crate::dfa::digit(s, c, k) as u64;
                        proof {
                            let t1 = track(w@.take(p + 1), c as nat, kk);
                            let t0 = track(w@.take(p as int), c as nat, kk);
                            assert(t1.drop_last() =~= t0);
                            assert(t1.len() == p + 1);
                            assert(t1.last() == sdigit(s as nat, c as nat, kk));
                            assert(crate::base::val_lsd(t1, kk) == crate::base::val_lsd(t0, kk) + d * place);
                            lemma_val_lsd_prefix(track(w@, c as nat, kk), kk, (p + 1) as nat);
                            assert(track(w@, c as nat, kk).take(p + 1) =~= t1);
                        }
                        if d != 0 {
                            let m = match d.checked_mul(place) {
                                Some(m) => m,
                                None => {
                                    proof {
                                        assert(d * place <= crate::base::val_lsd(track(w@, c as nat, kk), kk)) by {
                                            assert(crate::base::val_lsd(track(w@.take(p as int), c as nat, kk), kk) >= 0) by {
                                                lemma_val_lsd_prefix(track(w@.take(p as int), c as nat, kk), kk, 0);
                                            }
                                        }
                                        assert(val(track(w@, c as nat, kk), kk, cx.lsd) > u64::MAX);
                                    }
                                    return None;
                                },
                            };
                            let nv = match v[c].checked_add(m) {
                                Some(x) => x,
                                None => {
                                    proof {
                                        assert(val(track(w@, c as nat, kk), kk, cx.lsd) > u64::MAX);
                                    }
                                    return None;
                                },
                            };
                            v.set(c, nv);
                        }
                        proof {
                            assert(d * place == 0 || d != 0) by (nonlinear_arith);
                            if d == 0 {
                                assert(d * place == 0) by (nonlinear_arith)
                                    requires
                                        d == 0,
                                ;
                            }
                            assert(v@[c as int] == crate::base::val_lsd(track(w@.take(p + 1), c as nat, kk), kk));
                        }
                        c = c + 1;
                    }
                    if p + 1 < len {
                        place = match place.checked_mul(kb) {
                            Some(x) => x,
                            None => {
                                proof {
                                    assert(spow(kk, (p + 1) as nat) == kk * spow(kk, p as nat));
                                    crate::dfa::lemma_spow_mono(kk, (p + 1) as nat, (len - 1) as nat);
                                }
                                return None;
                            },
                        };
                        proof {
                            assert(spow(kk, (p + 1) as nat) == kk * spow(kk, p as nat));
                        }
                    }
                    p = p + 1;
                }
                proof {
                    assert(w@.take(len as int) =~= w@);
                }
            } else {
                let mut p: usize = 0;
                proof {
                    assert forall|j: nat| j < n implies #[trigger] crate::base::val_msd(track(w@.take(0), j, kk), kk) == v@[j as int] by {
                        assert(track(w@.take(0), j, kk) =~= Seq::<nat>::empty());
                    }
                }
                while p < len
                    invariant
                        2 <= k <= MAX_ALPHA,
                        kk == k,
                        kb == k,
                        forall|c2: nat| c2 < n ==> spow(kk, c2) <= usize::MAX,
                        cx.ns is None,
                        !cx.lsd,
                        len == w@.len(),
                        p <= len,
                        v@.len() == n,
                        forall|j: nat| j < n ==> #[trigger] crate::base::val_msd(track(w@.take(p as int), j, kk), kk) == v@[j as int],
                    decreases len - p,
                {
                    let s = w[p];
                    let mut c: usize = 0;
                    let ghost vp = v@;
                    while c < n
                        invariant
                            2 <= k <= MAX_ALPHA,
                            kk == k,
                            kb == k,
                            forall|c2: nat| c2 < n ==> spow(kk, c2) <= usize::MAX,
                            len == w@.len(),
                            cx.ns is None,
                            !cx.lsd,
                            p < len,
                            s == w@[p as int],
                            v@.len() == n,
                            c <= n,
                            forall|j: nat| j < n ==> #[trigger] crate::base::val_msd(track(w@.take(p as int), j, kk), kk) == vp[j as int],
                            forall|j: nat| j < c ==> #[trigger] crate::base::val_msd(track(w@.take(p + 1), j, kk), kk) == v@[j as int],
                            forall|j: nat| c <= j < n ==> #[trigger] v@[j as int] == vp[j as int],
                        decreases n - c,
                    {
                        let d = crate::dfa::digit(s, c, k) as u64;
                        proof {
                            let t1 = track(w@.take(p + 1), c as nat, kk);
                            let t0 = track(w@.take(p as int), c as nat, kk);
                            assert(t1.drop_last() =~= t0);
                            assert(t1.len() == p + 1);
                            assert(t1.last() == sdigit(s as nat, c as nat, kk));
                            assert(crate::base::val_msd(t1, kk) == crate::base::val_msd(t0, kk) * kk + d);
                            lemma_val_msd_prefix(t0, kk, 0);
                            lemma_val_msd_prefix(track(w@, c as nat, kk), kk, (p + 1) as nat);
                            assert(track(w@, c as nat, kk).take(p + 1) =~= t1);
                        }
                        let m = match v[c].checked_mul(kb) {
                            Some(m) => m,
                            None => {
                                proof {
                                    assert(val(track(w@, c as nat, kk), kk, cx.lsd) > u64::MAX);
                                }
                                return None;
                            },
                        };
                        let nv = match m.checked_add(d) {
                            Some(x) => x,
                            None => {
                                proof {
                                    assert(val(track(w@, c as nat, kk), kk, cx.lsd) > u64::MAX);
                                }
                                return None;
                            },
                        };
                        v.set(c, nv);
                        c = c + 1;
                    }
                    p = p + 1;
                }
                proof {
                    assert(w@.take(len as int) =~= w@);
                }
            }
            Some(v)
        },
    }
}

/// Digits as numbers.
pub open spec fn natseq(s: Seq<usize>) -> Seq<nat> {
    s.map_values(|x: usize| x as nat)
}

/// Leading zeros do not change a most-significant-first value.
proof fn lemma_val_msd_zeros(z: Seq<nat>, d: Seq<nat>, k: nat)
    requires
        forall|i: int| 0 <= i < z.len() ==> #[trigger] z[i] == 0,
    ensures
        crate::base::val_msd(z + d, k) == crate::base::val_msd(d, k),
    decreases d.len() + z.len(),
{
    if d.len() > 0 {
        lemma_val_msd_zeros(z, d.drop_last(), k);
        assert((z + d).drop_last() =~= z + d.drop_last());
        assert((z + d).last() == d.last());
    } else if z.len() > 0 {
        assert(z + d =~= z);
        lemma_val_msd_zeros(z.drop_last(), d, k);
        assert(z.drop_last() + d =~= z.drop_last());
        assert(z.last() == z[z.len() - 1]);
    } else {
        assert(z + d =~= d);
    }
}

/// The base-`k` digits of `v` have the value `v`, and a first digit worth at
/// least `k^(len-1)`.
proof fn lemma_val_kdigits(v: nat, k: nat)
    requires
        2 <= k <= MAX_ALPHA,
    ensures
        crate::base::val_msd(natseq(kdigits(v, k)), k) == v,
        kdigits(v, k).len() >= 1 ==> spow(k, (kdigits(v, k).len() - 1) as nat) <= v,
    decreases v,
{
    if v > 0 {
        let q = v / k;
        assert(q < v) by (nonlinear_arith)
            requires
                k >= 2,
                v > 0,
                q == v / k,
        ;
        lemma_val_kdigits(q, k);
        let d = v % k;
        assert(d < k) by (nonlinear_arith)
            requires
                k >= 2,
                d == v % k,
        ;
        assert(((d as usize) as nat) == d);
        let ds = kdigits(v, k);
        assert(ds == kdigits(q, k).push(d as usize));
        assert(natseq(ds).drop_last() =~= natseq(kdigits(q, k)));
        assert(natseq(ds).last() == d);
        vstd::arithmetic::div_mod::lemma_fundamental_div_mod(v as int, k as int);
        assert(q * k == k * q) by (nonlinear_arith);
        if kdigits(q, k).len() >= 1 {
            let l = (kdigits(q, k).len() - 1) as nat;
            assert(spow(k, l + 1) == k * spow(k, l));
            assert(k * spow(k, l) <= k * q) by (nonlinear_arith)
                requires
                    spow(k, l) <= q,
                    k >= 2,
            ;
        } else {
            assert(kdigits(q, k) =~= Seq::<usize>::empty());
            assert(spow(k, 0) == 1);
        }
    } else {
        assert(natseq(kdigits(v, k)) =~= Seq::<nat>::empty());
    }
}

/// Decoding what `encode_word` produces in plain base `k` gives back the
/// values: a word whose tracks are the values' padded digit words, at the
/// common length, has those values on its tracks, and in lsd order its
/// length keeps every digit weight within `u64`.
pub proof fn law_decode_encode(k: nat, vals: Seq<u64>, lsd: bool, w: Seq<usize>)
    requires
        2 <= k <= MAX_ALPHA,
        w.len() == max_ndigits(vals, k),
        forall|c: nat| c < vals.len() ==> #[trigger] digit_track(w, c, k) == placed(kdigits(vals[c as int] as nat, k), w.len(), lsd),
    ensures
        forall|c: nat| c < vals.len() ==> #[trigger] val(track(w, c, k), k, lsd) == vals[c as int],
        lsd ==> (w.len() == 0 || spow(k, (w.len() - 1) as nat) <= u64::MAX),
{
    assert forall|c: nat| c < vals.len() implies #[trigger] val(track(w, c, k), k, lsd) == vals[c as int] by {
        let v = vals[c as int] as nat;
        let ds = kdigits(v, k);
        lemma_max_ndigits(vals, k, c as int);
        let m = (w.len() - ds.len()) as nat;
        crate::base::lemma_kdigits(v, k);
        assert forall|i: int| 0 <= i < w.len() implies #[trigger] track(w, c, k)[i] == natseq(digit_track(w, c, k))[i] by {
            crate::product::lemma_sdigit_lt(w[i] as nat, c, k);
        }
        assert(track(w, c, k) =~= natseq(digit_track(w, c, k)));
        let zn = natseq(zeros(m));
        assert forall|i: int| 0 <= i < zn.len() implies #[trigger] zn[i] == 0 by {}
        lemma_val_kdigits(v, k);
        if lsd {
            assert(natseq(placed(ds, w.len(), lsd)) =~= (zn + natseq(ds)).reverse());
            crate::base::lemma_val_reverse(zn + natseq(ds), k);
        } else {
            assert(natseq(placed(ds, w.len(), lsd)) =~= zn + natseq(ds));
        }
        lemma_val_msd_zeros(zn, natseq(ds), k);
    }
    if lsd && w.len() > 0 {
        lemma_max_ndigits_attained(vals, k);
        if w.len() >= 2 {
            let c = choose|c: int| 0 <= c < vals.len() && ndigits(vals[c] as nat, k) == max_ndigits(vals, k);
            lemma_val_kdigits(vals[c] as nat, k);
        } else {
            assert(spow(k, 0) == 1);
        }
    }
}

/// The largest digit count is some value's, unless it is the floor of one.
proof fn lemma_max_ndigits_attained(vals: Seq<u64>, k: nat)
    ensures
        max_ndigits(vals, k) >= 2 ==> exists|c: int| 0 <= c < vals.len() && ndigits(vals[c] as nat, k) == max_ndigits(vals, k),
    decreases vals.len(),
{
    if vals.len() > 0 {
        lemma_max_ndigits_attained(vals.drop_last(), k);
        if max_ndigits(vals, k) >= 2 {
            if ndigits(vals.last() as nat, k) == max_ndigits(vals, k) {
                assert(vals[vals.len() - 1] == vals.last());
            } else {
                let c = choose|c: int| 0 <= c < vals.drop_last().len() && ndigits(vals.drop_last()[c] as nat, k) == max_ndigits(vals.drop_last(), k);
                assert(vals[c] == vals.drop_last()[c]);
            }
        }
    }
}
} // verus!
