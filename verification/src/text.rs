//! Reading the plain-text file formats: lines, trimming, searching, integers.
use vstd::prelude::*;
use crate::logic::{is_ws, is_digit, dec_value, parse_dec, char_ws, char_digit};

verus! {

/// The first index in `[st, en)` holding `c`.
pub open spec fn first_at(cs: Seq<char>, st: int, en: int, c: char) -> Option<int>
    decreases en - st,
{
    if st >= en {
        None
    } else if cs[st] == c {
        Some(st)
    } else {
        first_at(cs, st + 1, en, c)
    }
}

/// The first index of `c` in `cs[st..en)`.
pub fn find_char(cs: &Vec<char>, st: usize, en: usize, c: char) -> (r: Option<usize>)
    requires
        st <= en <= cs.len(),
    ensures
        r matches Some(i) ==> first_at(cs@, st as int, en as int, c) == Some(i as int),
        r is None ==> first_at(cs@, st as int, en as int, c) is None,
        r matches Some(i) ==> st <= i < en && cs@[i as int] == c && forall|x: int| st <= x < i ==> cs@[x] != c,
        r is None ==> forall|x: int| st <= x < en ==> cs@[x] != c,
{
    let mut i: usize = st;
    while i < en
        invariant
            st <= i <= en <= cs.len(),
            first_at(cs@, st as int, en as int, c) == first_at(cs@, i as int, en as int, c),
            forall|x: int| st <= x < i ==> cs@[x] != c,
        decreases en - i,
    {
        if cs[i] == c {
            return Some(i);
        }
        i = i + 1;
    }
    None
}

/// The first index in `[st, en - 1)` where the two characters `a b` start.
pub fn find_pair(cs: &Vec<char>, st: usize, en: usize, a: char, b: char) -> (r: Option<usize>)
    requires
        st <= en <= cs.len(),
    ensures
        r matches Some(i) ==> st <= i && i + 1 < en && cs@[i as int] == a && cs@[i + 1] == b
            && forall|x: int| st <= x < i ==> !(#[trigger] cs@[x] == a && cs@[x + 1] == b),
        r is None ==> forall|x: int| st <= x && x + 1 < en ==> !(#[trigger] cs@[x] == a && cs@[x + 1] == b),
{
    let mut i: usize = st;
    while en - i >= 2
        invariant
            st <= i,
            i <= en,
            en <= cs.len(),
            forall|x: int| st <= x < i && x + 1 < en ==> !(#[trigger] cs@[x] == a && cs@[x + 1] == b),
        decreases en - i,
    {
        if cs[i] == a && cs[i + 1] == b {
            return Some(i);
        }
        i = i + 1;
    }
    None
}

/// `cs[st..en)` with white space removed at both ends.
pub fn trim(cs: &Vec<char>, st: usize, en: usize) -> (r: (usize, usize))
    requires
        st <= en <= cs.len(),
    ensures
        st <= r.0 <= r.1 <= en,
        forall|x: int| st <= x < r.0 ==> is_ws(#[trigger] cs@[x]),
        forall|x: int| r.1 <= x < en ==> is_ws(#[trigger] cs@[x]),
        r.0 < r.1 ==> !is_ws(cs@[r.0 as int]) && !is_ws(cs@[r.1 - 1]),
        r.0 == r.1 ==> forall|x: int| st <= x < en ==> is_ws(#[trigger] cs@[x]),
{
    let mut a: usize = st;
    while a < en && char_ws(cs[a])
        invariant
            st <= a <= en <= cs.len(),
            forall|x: int| st <= x < a ==> is_ws(#[trigger] cs@[x]),
        decreases en - a,
    {
        a = a + 1;
    }
    let mut b: usize = en;
    while b > a && char_ws(cs[b - 1])
        invariant
            st <= a <= b <= en,
            en <= cs.len(),
            forall|x: int| b <= x < en ==> is_ws(#[trigger] cs@[x]),
        decreases b,
    {
        b = b - 1;
    }
    (a, b)
}

/// All of `cs[st..en)` is white space.
pub fn all_ws(cs: &Vec<char>, st: usize, en: usize) -> (r: bool)
    requires
        st <= en <= cs.len(),
    ensures
        r == forall|x: int| st <= x < en ==> is_ws(#[trigger] cs@[x]),
{
    let (a, b) = trim(cs, st, en);
    a == b
}

/// `cs[st..en)` is an optional sign followed by at least one decimal digit.
pub open spec fn signed_digits(cs: Seq<char>, st: int, en: int, neg_ok: bool) -> bool {
    let d = if st < en && (cs[st] == '+' || (neg_ok && cs[st] == '-')) { st + 1 } else { st };
    &&& d < en
    &&& forall|x: int| d <= x < en ==> is_digit(#[trigger] cs[x])
}

/// The magnitude of a signed digit string.
pub open spec fn magnitude(cs: Seq<char>, st: int, en: int) -> nat {
    let d = if st < en && (cs[st] == '+' || cs[st] == '-') { st + 1 } else { st };
    dec_value(cs.subrange(d, en))
}

/// The first character is a minus sign.
pub open spec fn negative(cs: Seq<char>, st: int, en: int) -> bool {
    st < en && cs[st] == '-'
}

/// Parse `cs[st..en)` as an unsigned decimal (an optional `+` first).
pub fn parse_usize(cs: &Vec<char>, st: usize, en: usize) -> (r: Option<usize>)
    requires
        st <= en <= cs.len(),
    ensures
        r is Some <==> signed_digits(cs@, st as int, en as int, false) && magnitude(cs@, st as int, en as int) <= usize::MAX,
        r matches Some(v) ==> v as nat == magnitude(cs@, st as int, en as int),
{
    let d = if st < en && cs[st] == '+' { st + 1 } else { st };
    if d >= en {
        return None;
    }
    let mut i: usize = d;
    while i < en
        invariant
            st <= en,
            d == (if st < en && cs@[st as int] == '+' { st + 1 } else { st as int }),
            d <= i <= en <= cs.len(),
            forall|x: int| d <= x < i ==> is_digit(#[trigger] cs@[x]),
        decreases en - i,
    {
        if !char_digit(cs[i]) {
            proof {
                assert(!is_digit(cs@[i as int]));
                assert(!signed_digits(cs@, st as int, en as int, false));
            }
            return None;
        }
        i = i + 1;
    }
    match parse_dec(cs, d, en) {
        Some(v) => {
            if v > usize::MAX as u64 {
                return None;
            }
            Some(v as usize)
        },
        None => None,
    }
}

/// Parse `cs[st..en)` as an unsigned decimal `u64` (an optional `+` first).
pub fn parse_u64(cs: &Vec<char>, st: usize, en: usize) -> (r: Option<u64>)
    requires
        st <= en <= cs.len(),
    ensures
        r is Some <==> signed_digits(cs@, st as int, en as int, false) && magnitude(cs@, st as int, en as int) <= u64::MAX,
        r matches Some(v) ==> v as nat == magnitude(cs@, st as int, en as int),
{
    let d = if st < en && cs[st] == '+' { st + 1 } else { st };
    if d >= en {
        return None;
    }
    let mut i: usize = d;
    while i < en
        invariant
            st <= en,
            d == (if st < en && cs@[st as int] == '+' { st + 1 } else { st as int }),
            d <= i <= en <= cs.len(),
            forall|x: int| d <= x < i ==> is_digit(#[trigger] cs@[x]),
        decreases en - i,
    {
        if !char_digit(cs[i]) {
            proof {
                assert(!is_digit(cs@[i as int]));
                assert(!signed_digits(cs@, st as int, en as int, false));
            }
            return None;
        }
        i = i + 1;
    }
    parse_dec(cs, d, en)
}

/// Parse `cs[st..en)` as a signed decimal that fits an `i64`.
pub fn parse_i64(cs: &Vec<char>, st: usize, en: usize) -> (r: Option<i64>)
    requires
        st <= en <= cs.len(),
    ensures
        r is Some <==> signed_digits(cs@, st as int, en as int, true) && (if negative(cs@, st as int, en as int) {
            magnitude(cs@, st as int, en as int) <= 9223372036854775808
        } else {
            magnitude(cs@, st as int, en as int) <= i64::MAX
        }),
        r matches Some(v) ==> v as int == (if negative(cs@, st as int, en as int) {
            -(magnitude(cs@, st as int, en as int) as int)
        } else {
            magnitude(cs@, st as int, en as int) as int
        }),
{
    let neg = st < en && cs[st] == '-';
    let d = if st < en && (cs[st] == '+' || cs[st] == '-') { st + 1 } else { st };
    if d >= en {
        return None;
    }
    let mut i: usize = d;
    while i < en
        invariant
            st <= en,
            d == (if st < en && (cs@[st as int] == '+' || cs@[st as int] == '-') { st + 1 } else { st as int }),
            d <= i <= en <= cs.len(),
            forall|x: int| d <= x < i ==> is_digit(#[trigger] cs@[x]),
        decreases en - i,
    {
        if !char_digit(cs[i]) {
            proof {
                assert(!is_digit(cs@[i as int]));
                assert(!signed_digits(cs@, st as int, en as int, true));
            }
            return None;
        }
        i = i + 1;
    }
    match parse_dec(cs, d, en) {
        Some(v) => {
            if neg {
                if v > 9223372036854775808u64 {
                    return None;
                }
                if v == 9223372036854775808u64 {
                    return Some(i64::MIN);
                }
                Some(0i64 - (v as i64))
            } else {
                if v > i64::MAX as u64 {
                    return None;
                }
                Some(v as i64)
            }
        },
        None => None,
    }
}

/// The lines of `cs` from `st` on, as index pairs: each ends before the
/// next `\n` (or at the end), with a final `\r` dropped.
pub open spec fn lines_from(cs: Seq<char>, st: int) -> Seq<(int, int)>
    decreases cs.len() - st,
{
    if st < 0 || st >= cs.len() {
        Seq::empty()
    } else {
        let f = first_at(cs, st, cs.len() as int, '\n');
        let en = match f { Some(e) => e, None => cs.len() as int };
        let e2 = if en > st && cs[en - 1] == '\r' { en - 1 } else { en };
        let nx = match f { Some(e) => e + 1, None => cs.len() as int };
        if nx <= st || nx > cs.len() { Seq::empty() } else { seq![(st, e2)] + lines_from(cs, nx) }
    }
}

/// The lines of `cs`: maximal runs without `\n`, a final `\r` dropped, and
/// no empty last line after a final `\n`.
pub fn lines(cs: &Vec<char>) -> (r: Vec<(usize, usize)>)
    ensures
        forall|i: int| 0 <= i < r@.len() ==> (#[trigger] r@[i]).0 <= r@[i].1 <= cs.len(),
        forall|i: int, x: int| 0 <= i < r@.len() && (#[trigger] r@[i]).0 <= x < r@[i].1 ==> #[trigger] cs@[x] != '\n',
        r@.map_values(|p: (usize, usize)| (p.0 as int, p.1 as int)) == lines_from(cs@, 0),
{
    let mut out: Vec<(usize, usize)> = Vec::new();
    let mut st: usize = 0;
    assert(out@.map_values(|p: (usize, usize)| (p.0 as int, p.1 as int)) =~= Seq::<(int, int)>::empty());
    while st < cs.len()
        invariant
            st <= cs.len(),
            lines_from(cs@, 0) == out@.map_values(|p: (usize, usize)| (p.0 as int, p.1 as int)) + lines_from(cs@, st as int),
            forall|i: int| 0 <= i < out@.len() ==> (#[trigger] out@[i]).0 <= out@[i].1 <= cs.len(),
            forall|i: int, x: int| 0 <= i < out@.len() && (#[trigger] out@[i]).0 <= x < out@[i].1 ==> #[trigger] cs@[x] != '\n',
        decreases cs.len() - st,
    {
        let found = find_char(cs, st, cs.len(), '\n');
        let en = match found {
            Some(e) => e,
            None => cs.len(),
        };
        let mut e2 = en;
        if e2 > st && cs[e2 - 1] == '\r' {
            e2 = e2 - 1;
        }
        proof {
            assert(out@.push((st, e2)).map_values(|p: (usize, usize)| (p.0 as int, p.1 as int))
                =~= out@.map_values(|p: (usize, usize)| (p.0 as int, p.1 as int)) + seq![(st as int, e2 as int)]);
        }
        out.push((st, e2));
        st = match found {
            Some(e) => e + 1,
            None => cs.len(),
        };
    }
    proof {
        assert(lines_from(cs@, st as int) =~= Seq::<(int, int)>::empty());
    }
    out
}
} // verus!
