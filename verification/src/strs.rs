//! String helpers: equality, ordering, membership and sorting of names.
use vstd::prelude::*;

verus! {

/// The character sequences of a list of names.
pub open spec fn names(v: Seq<String>) -> Seq<Seq<char>> {
    v.map_values(|s: String| s@)
}

/// Code-point lexicographic order on character sequences (the order of `String`'s `Ord`).
pub open spec fn seq_lt(a: Seq<char>, b: Seq<char>) -> bool
    decreases a.len(),
{
    if b.len() == 0 {
        false
    } else if a.len() == 0 {
        true
    } else if (a[0] as u32) < (b[0] as u32) {
        true
    } else if (a[0] as u32) > (b[0] as u32) {
        false
    } else {
        seq_lt(a.drop_first(), b.drop_first())
    }
}

/// `v` is strictly increasing under [`seq_lt`].
pub open spec fn strictly_sorted(v: Seq<Seq<char>>) -> bool {
    forall|i: int, j: int| 0 <= i < j < v.len() ==> seq_lt(#[trigger] v[i], #[trigger] v[j])
}

/// First index of `x` in `v`, or `v.len()` when absent.
pub open spec fn first_index(v: Seq<Seq<char>>, x: Seq<char>) -> nat
    decreases v.len(),
{
    if v.len() == 0 {
        0
    } else if v[0] == x {
        0
    } else {
        1 + first_index(v.drop_first(), x)
    }
}

pub proof fn lemma_first_index(v: Seq<Seq<char>>, x: Seq<char>)
    ensures
        first_index(v, x) <= v.len(),
        first_index(v, x) < v.len() <==> v.contains(x),
        first_index(v, x) < v.len() ==> v[first_index(v, x) as int] == x,
        forall|i: int| 0 <= i < first_index(v, x) ==> v[i] != x,
    decreases v.len(),
{
    if v.len() > 0 && v[0] != x {
        lemma_first_index(v.drop_first(), x);
        if v.contains(x) {
            let i = choose|i: int| 0 <= i < v.len() && v[i] == x;
            assert(v.drop_first()[i - 1] == x);
        }
        assert forall|i: int| 0 <= i < first_index(v, x) implies v[i] != x by {
            if i > 0 {
                assert(v[i] == v.drop_first()[i - 1]);
            }
        }
        if first_index(v, x) < v.len() {
            assert(v.drop_first().contains(x));
        }
    }
}

proof fn lemma_char_code(a: char, b: char)
    ensures
        (a as u32) == (b as u32) <==> a == b,
{
}

pub proof fn lemma_seq_lt_irreflexive(a: Seq<char>)
    ensures
        !seq_lt(a, a),
    decreases a.len(),
{
    if a.len() > 0 {
        lemma_seq_lt_irreflexive(a.drop_first());
    }
}

pub proof fn lemma_seq_lt_asym(a: Seq<char>, b: Seq<char>)
    ensures
        !(seq_lt(a, b) && seq_lt(b, a)),
    decreases a.len(),
{
    if a.len() > 0 && b.len() > 0 {
        if a[0] == b[0] {
            lemma_seq_lt_asym(a.drop_first(), b.drop_first());
        } else {
            lemma_char_code(a[0], b[0]);
        }
    }
}

pub proof fn lemma_seq_lt_trans(a: Seq<char>, b: Seq<char>, c: Seq<char>)
    requires
        seq_lt(a, b),
        seq_lt(b, c),
    ensures
        seq_lt(a, c),
    decreases a.len(),
{
    if a.len() > 0 && b.len() > 0 && c.len() > 0 {
        if a[0] == b[0] && b[0] == c[0] {
            lemma_seq_lt_trans(a.drop_first(), b.drop_first(), c.drop_first());
        } else if a[0] == b[0] {
            lemma_char_code(b[0], c[0]);
        } else if b[0] == c[0] {
            lemma_char_code(a[0], b[0]);
        } else {
            lemma_char_code(a[0], b[0]);
            lemma_char_code(b[0], c[0]);
        }
    }
}

/// Two distinct sequences are ordered one way or the other.
pub proof fn lemma_seq_lt_total(a: Seq<char>, b: Seq<char>)
    requires
        a != b,
    ensures
        seq_lt(a, b) || seq_lt(b, a),
    decreases a.len(),
{
    if a.len() > 0 && b.len() > 0 {
        if a[0] == b[0] {
            if a.drop_first() == b.drop_first() {
                assert(a =~= seq![a[0]] + a.drop_first());
                assert(b =~= seq![b[0]] + b.drop_first());
            }
            lemma_seq_lt_total(a.drop_first(), b.drop_first());
        } else {
            lemma_char_code(a[0], b[0]);
        }
    } else if a.len() == 0 && b.len() == 0 {
        assert(a =~= b);
    }
}

/// Two strictly sorted lists with the same members are the same list.
pub proof fn lemma_sorted_unique(a: Seq<Seq<char>>, b: Seq<Seq<char>>)
    requires
        strictly_sorted(a),
        strictly_sorted(b),
        forall|x: Seq<char>| a.contains(x) <==> b.contains(x),
    ensures
        a == b,
    decreases a.len(),
{
    if a.len() == 0 {
        if b.len() > 0 {
            assert(b.contains(b[0]));
        }
        assert(a =~= b);
    } else {
        assert(a.contains(a[0]));
        assert(b.len() > 0);
        assert(b.contains(b[0]));
        // the first entries are the least members, hence equal
        if a[0] != b[0] {
            let i = choose|i: int| 0 <= i < b.len() && b[i] == a[0];
            let j = choose|j: int| 0 <= j < a.len() && a[j] == b[0];
            assert(i > 0);
            assert(j > 0);
            assert(seq_lt(b[0], b[i]));
            assert(seq_lt(a[0], a[j]));
            lemma_seq_lt_asym(a[0], b[0]);
            assert(false);
        }
        let a1 = a.drop_first();
        let b1 = b.drop_first();
        assert forall|x: Seq<char>| a1.contains(x) <==> b1.contains(x) by {
            if a1.contains(x) {
                let i = choose|i: int| 0 <= i < a1.len() && a1[i] == x;
                assert(a[i + 1] == x);
                assert(seq_lt(a[0], a[i + 1]));
                lemma_seq_lt_irreflexive(x);
                assert(b.contains(x));
                let j = choose|j: int| 0 <= j < b.len() && b[j] == x;
                assert(j != 0);
                assert(b1[j - 1] == x);
            }
            if b1.contains(x) {
                let i = choose|i: int| 0 <= i < b1.len() && b1[i] == x;
                assert(b[i + 1] == x);
                assert(seq_lt(b[0], b[i + 1]));
                lemma_seq_lt_irreflexive(x);
                assert(a.contains(x));
                let j = choose|j: int| 0 <= j < a.len() && a[j] == x;
                assert(j != 0);
                assert(a1[j - 1] == x);
            }
        }
        assert(strictly_sorted(a1)) by {
            assert forall|i: int, j: int| 0 <= i < j < a1.len() implies seq_lt(#[trigger] a1[i], #[trigger] a1[j]) by {
                assert(a1[i] == a[i + 1] && a1[j] == a[j + 1]);
            }
        }
        assert(strictly_sorted(b1)) by {
            assert forall|i: int, j: int| 0 <= i < j < b1.len() implies seq_lt(#[trigger] b1[i], #[trigger] b1[j]) by {
                assert(b1[i] == b[i + 1] && b1[j] == b[j + 1]);
            }
        }
        lemma_sorted_unique(a1, b1);
        assert forall|i: int| 0 <= i < a.len() implies a[i] == b[i] by {
            if i > 0 {
                assert(a[i] == a1[i - 1]);
                assert(b[i] == b1[i - 1]);
            }
        }
        assert(a =~= b);
    }
}

/// A wrapper for `str::chars().collect()`: the characters of `s`.
#[verifier::external_body]
pub fn str_chars(s: &str) -> (r: Vec<char>)
    ensures
        r@ == s@,
{
    s.chars().collect()
}

/// A wrapper for `String::from_iter`: the string made of `cs`.
#[verifier::external_body]
pub fn string_of(cs: &[char]) -> (r: String)
    ensures
        r@ == cs@,
{
    cs.iter().collect()
}

/// What std's `Debug` prints for the character `c`.
pub uninterp spec fn char_debug_text(c: char) -> Seq<char>;

/// A wrapper for std's `Debug` on `char` (`format!("{:?}", c)`), whose result is
/// named `char_debug_text`. As std documents for `char::escape_debug`, a
/// printable ASCII character is printed between single quotes, with a backslash
/// before a quote or a backslash. What other characters print as (escapes such
/// as `\u{..}` for unprintable ones) is not stated here.
#[verifier::external_body]
pub fn char_debug(c: char) -> (r: String)
    ensures
        r@ == char_debug_text(c),
        ('!' <= c <= '~' && c != '\'' && c != '\\') ==> r@ == seq!['\'', c, '\''],
        c == '\'' ==> r@ == seq!['\'', '\\', '\'', '\''],
        c == '\\' ==> r@ == seq!['\'', '\\', '\\', '\''],
{
    format!("{:?}", c)
}

/// An owned copy of `s`.
pub fn str_to_string(s: &str) -> (r: String)
    ensures
        r@ == s@,
{
    s.to_owned()
}

/// Character-wise equality of two string slices.
pub fn str_eq(a: &str, b: &str) -> (r: bool)
    ensures
        r == (a@ == b@),
{
    let n = a.unicode_len();
    if n != b.unicode_len() {
        return false;
    }
    let mut i: usize = 0;
    while i < n
        invariant
            n == a@.len(),
            n == b@.len(),
            i <= n,
            forall|j: int| 0 <= j < i ==> a@[j] == b@[j],
        decreases n - i,
    {
        if a.get_char(i) != b.get_char(i) {
            return false;
        }
        i = i + 1;
    }
    assert(a@ =~= b@);
    true
}

/// Code-point lexicographic `a < b`.
pub fn str_lt(a: &str, b: &str) -> (r: bool)
    ensures
        r == seq_lt(a@, b@),
{
    let na = a.unicode_len();
    let nb = b.unicode_len();
    let mut i: usize = 0;
    assert(a@.skip(0) =~= a@);
    assert(b@.skip(0) =~= b@);
    while i < na && i < nb
        invariant
            na == a@.len(),
            nb == b@.len(),
            i <= na,
            i <= nb,
            seq_lt(a@, b@) == seq_lt(a@.skip(i as int), b@.skip(i as int)),
        decreases na - i,
    {
        let ca = a.get_char(i);
        let cb = b.get_char(i);
        assert(a@.skip(i as int)[0] == ca);
        assert(b@.skip(i as int)[0] == cb);
        if (ca as u32) < (cb as u32) {
            return true;
        }
        if (ca as u32) > (cb as u32) {
            return false;
        }
        assert(a@.skip(i as int).drop_first() =~= a@.skip(i + 1));
        assert(b@.skip(i as int).drop_first() =~= b@.skip(i + 1));
        i = i + 1;
    }
    i < nb
}

/// Does `v` hold a name equal to `x`?
pub fn vec_contains(v: &Vec<String>, x: &str) -> (r: bool)
    ensures
        r == names(v@).contains(x@),
{
    match position(v, x) {
        Some(_) => true,
        None => false,
    }
}

/// The first index of `x` in `v`.
pub fn position(v: &Vec<String>, x: &str) -> (r: Option<usize>)
    ensures
        r matches Some(i) ==> i == first_index(names(v@), x@),
        r is None <==> !names(v@).contains(x@),
        r matches Some(i) ==> i < v.len(),
{
    proof {
        lemma_first_index(names(v@), x@);
    }
    let mut i: usize = 0;
    while i < v.len()
        invariant
            i <= v.len(),
            forall|j: int| 0 <= j < i ==> names(v@)[j] != x@,
        decreases v.len() - i,
    {
        if str_eq(v[i].as_str(), x) {
            proof {
                lemma_first_index(names(v@), x@);
                assert(names(v@)[i as int] == x@);
                assert(names(v@).contains(x@));
                let fi = first_index(names(v@), x@) as int;
                if fi < i {
                    assert(names(v@)[fi] == x@);
                }
                if fi > i {
                    assert(names(v@)[i as int] != x@);
                }
            }
            return Some(i);
        }
        i = i + 1;
    }
    proof {
        if names(v@).contains(x@) {
            let j = choose|j: int| 0 <= j < names(v@).len() && names(v@)[j] == x@;
            assert(names(v@)[j] != x@);
        }
    }
    None
}

/// Element-wise equality of two name lists.
pub fn names_eq(a: &Vec<String>, b: &Vec<String>) -> (r: bool)
    ensures
        r == (names(a@) == names(b@)),
{
    if a.len() != b.len() {
        assert(names(a@).len() != names(b@).len());
        return false;
    }
    let mut i: usize = 0;
    while i < a.len()
        invariant
            a.len() == b.len(),
            i <= a.len(),
            forall|j: int| 0 <= j < i ==> names(a@)[j] == names(b@)[j],
        decreases a.len() - i,
    {
        if !str_eq(a[i].as_str(), b[i].as_str()) {
            assert(names(a@)[i as int] != names(b@)[i as int]);
            return false;
        }
        i = i + 1;
    }
    assert(names(a@) =~= names(b@));
    true
}

/// A copy of a list of names.
pub fn copy_names(v: &Vec<String>) -> (r: Vec<String>)
    ensures
        names(r@) == names(v@),
        r@ == v@,
{
    let mut r: Vec<String> = Vec::new();
    let mut i: usize = 0;
    while i < v.len()
        invariant
            i <= v.len(),
            r@ == v@.take(i as int),
        decreases v.len() - i,
    {
        r.push(v[i].clone());
        assert(v@.take(i + 1) =~= v@.take(i as int).push(v@[i as int]));
        i = i + 1;
    }
    assert(v@.take(v.len() as int) =~= v@);
    r
}

/// `v` sorted into strictly increasing order, when its names are distinct.
/// Returns `None` when two names coincide.
pub fn sort_distinct(v: &Vec<String>) -> (r: Option<Vec<String>>)
    ensures
        r matches Some(s) ==> {
            &&& s.len() == v.len()
            &&& strictly_sorted(names(s@))
            &&& forall|x: Seq<char>| names(s@).contains(x) <==> names(v@).contains(x)
        },
        r is None ==> exists|i: int, j: int|
            0 <= i < j < v.len() && names(v@)[i] == names(v@)[j],
{
    let mut out: Vec<String> = Vec::new();
    let mut i: usize = 0;
    while i < v.len()
        invariant
            i <= v.len(),
            out.len() == i,
            strictly_sorted(names(out@)),
            forall|x: Seq<char>| names(out@).contains(x) <==> names(v@.take(i as int)).contains(x),
        decreases v.len() - i,
    {
        let x = v[i].clone();
        // find the insertion point
        let mut p: usize = 0;
        while p < out.len() && str_lt(out[p].as_str(), x.as_str())
            invariant
                p <= out.len(),
                forall|j: int| 0 <= j < p ==> seq_lt(names(out@)[j], x@),
            decreases out.len() - p,
        {
            p = p + 1;
        }
        if p < out.len() && str_eq(out[p].as_str(), x.as_str()) {
            proof {
                assert(names(out@).contains(x@)) by {
                    assert(names(out@)[p as int] == x@);
                }
                assert(names(v@.take(i as int)).contains(x@));
                let j = choose|j: int| 0 <= j < i && names(v@.take(i as int))[j] == x@;
                assert(names(v@)[j] == names(v@)[i as int]);
            }
            return None;
        }
        proof {
            if p < out.len() {
                assert(!seq_lt(names(out@)[p as int], x@));
                lemma_seq_lt_total(names(out@)[p as int], x@);
            }
        }
        let ghost old_out = out@;
        out.insert(p, x);
        proof {
            assert(names(out@) =~= names(old_out).insert(p as int, v@[i as int]@));
            assert forall|a: int, b: int| 0 <= a < b < out.len() implies seq_lt(
                #[trigger] names(out@)[a],
                #[trigger] names(out@)[b],
            ) by {
                if b < p {
                } else if b == p {
                } else if a < p {
                    assert(seq_lt(names(old_out)[a], x@));
                    if p < old_out.len() {
                        if b - 1 > p {
                            assert(seq_lt(names(old_out)[p as int], names(old_out)[b - 1]));
                            lemma_seq_lt_trans(x@, names(old_out)[p as int], names(old_out)[b - 1]);
                        }
                        lemma_seq_lt_trans(names(old_out)[a], x@, names(old_out)[b - 1]);
                    }
                } else if a == p {
                    if b - 1 > p {
                        lemma_seq_lt_trans(x@, names(old_out)[p as int], names(old_out)[b - 1]);
                    }
                } else {
                }
            }
            assert(v@.take(i + 1) =~= v@.take(i as int).push(v@[i as int]));
            assert(names(v@.take(i + 1)) =~= names(v@.take(i as int)).push(v@[i as int]@));
            let tin = names(v@.take(i as int));
            let ti = names(v@.take(i + 1));
            assert(ti =~= tin.push(v@[i as int]@));
            assert forall|y: Seq<char>| names(out@).contains(y) implies ti.contains(y) by {
                let j = choose|j: int| 0 <= j < names(out@).len() && names(out@)[j] == y;
                if j < p {
                    assert(names(old_out)[j] == y);
                    assert(names(old_out).contains(y));
                    assert(tin.contains(y));
                    let m = choose|m: int| 0 <= m < tin.len() && tin[m] == y;
                    assert(ti[m] == y);
                } else if j > p {
                    assert(names(old_out)[j - 1] == y);
                    assert(names(old_out).contains(y));
                    assert(tin.contains(y));
                    let m = choose|m: int| 0 <= m < tin.len() && tin[m] == y;
                    assert(ti[m] == y);
                } else {
                    assert(ti[i as int] == y);
                }
            }
            assert forall|y: Seq<char>| ti.contains(y) implies names(out@).contains(y) by {
                let j = choose|j: int| 0 <= j < ti.len() && ti[j] == y;
                if j < i {
                    assert(tin[j] == y);
                    assert(names(old_out).contains(y));
                    let m = choose|m: int| 0 <= m < old_out.len() && names(old_out)[m] == y;
                    if m < p {
                        assert(names(out@)[m] == y);
                    } else {
                        assert(names(out@)[m + 1] == y);
                    }
                } else {
                    assert(names(out@)[p as int] == y);
                }
            }
        }
        i = i + 1;
    }
    assert(v@.take(v.len() as int) =~= v@);
    Some(out)
}


/// Does `v` hold `x`?
pub fn u32_contains(v: &Vec<u32>, x: u32) -> (r: bool)
    ensures
        r == v@.contains(x),
{
    let mut i: usize = 0;
    while i < v.len()
        invariant
            i <= v.len(),
            forall|j: int| 0 <= j < i ==> v@[j] != x,
        decreases v.len() - i,
    {
        if v[i] == x {
            return true;
        }
        i = i + 1;
    }
    false
}

/// No name occurs twice.
pub fn all_distinct(v: &Vec<String>) -> (r: bool)
    ensures
        r == crate::dfa::distinct(names(v@)),
{
    let mut i: usize = 0;
    while i < v.len()
        invariant
            i <= v.len(),
            forall|a: int, b: int| 0 <= a < i && 0 <= b < v.len() && a != b ==> names(v@)[a] != names(v@)[b],
        decreases v.len() - i,
    {
        let mut j: usize = 0;
        while j < v.len()
            invariant
                i < v.len(),
                j <= v.len(),
                forall|a: int, b: int| 0 <= a < i && 0 <= b < v.len() && a != b ==> names(v@)[a] != names(v@)[b],
                forall|b: int| 0 <= b < j && b != i ==> names(v@)[i as int] != names(v@)[b],
            decreases v.len() - j,
        {
            if j != i && str_eq(v[i].as_str(), v[j].as_str()) {
                assert(names(v@)[i as int] == names(v@)[j as int]);
                return false;
            }
            j = j + 1;
        }
        i = i + 1;
    }
    true
}

/// The digit character for `d < 10`.
pub open spec fn digit_of(d: nat) -> char {
    if d == 0 { '0' } else if d == 1 { '1' } else if d == 2 { '2' } else if d == 3 { '3' } else if d == 4 {
        '4'
    } else if d == 5 { '5' } else if d == 6 { '6' } else if d == 7 { '7' } else if d == 8 { '8' } else { '9' }
}

/// The decimal digits of `n`, most significant first, without leading zeros.
pub open spec fn dec_text(n: nat) -> Seq<char>
    decreases n,
{
    if n < 10 { seq![digit_of(n)] } else { dec_text(n / 10).push(digit_of(n % 10)) }
}

/// A decimal text has at least one digit.
pub proof fn lemma_dec_text_nonempty(n: nat)
    ensures
        dec_text(n).len() > 0,
    decreases n,
{
    if n >= 10 {
        lemma_dec_text_nonempty(n / 10);
    }
}

/// The digit character for `d < 10`.
pub fn digit_char(d: usize) -> (c: char)
    requires
        d < 10,
    ensures
        c as u32 == '0' as u32 + d,
        '0' <= c <= '9',
        c == digit_of(d as nat),
{
    if d == 0 { '0' } else if d == 1 { '1' } else if d == 2 { '2' } else if d == 3 { '3' } else if d == 4 {
        '4'
    } else if d == 5 { '5' } else if d == 6 { '6' } else if d == 7 { '7' } else if d == 8 { '8' } else { '9' }
}

/// The decimal digits of `n`, most significant first, with no leading zero
/// (`"0"` for zero).
pub fn decimal(n: usize) -> (r: Vec<char>)
    ensures
        r.len() >= 1,
        forall|i: int| 0 <= i < r.len() ==> '0' <= #[trigger] r@[i] <= '9',
        crate::logic::dec_value(r@) == n,
        r@[0] == '0' ==> n == 0,
        r@ == dec_text(n as nat),
    decreases n,
{
    if n < 10 {
        let c = digit_char(n);
        let r = vec![c];
        proof {
            assert(r@.drop_last() =~= Seq::<char>::empty());
            assert(crate::logic::dec_value(r@.drop_last()) == 0);
            assert(r@.last() == c);
            assert(r@ =~= seq![digit_of(n as nat)]);
        }
        r
    } else {
        let mut r = decimal(n / 10);
        let c = digit_char(n % 10);
        let ghost pre = r@;
        r.push(c);
        proof {
            assert(r@.drop_last() =~= pre);
            assert(r@.last() == c);
            assert(crate::logic::dec_value(r@) == crate::logic::dec_value(pre) * 10 + (n % 10));
            assert((n / 10) * 10 + n % 10 == n);
            assert(r@ =~= dec_text((n / 10) as nat).push(digit_of((n % 10) as nat)));
        }
        r
    }
}
/// Append the characters of `s`.
pub fn push_str(out: &mut Vec<char>, s: &str)
    ensures
        final(out)@ == old(out)@ + s@,
{
    let cs = str_chars(s);
    let mut i: usize = 0;
    while i < cs.len()
        invariant
            i <= cs@.len(),
            cs@ == s@,
            out@ == old(out)@ + cs@.take(i as int),
        decreases cs@.len() - i,
    {
        out.push(cs[i]);
        i = i + 1;
        proof {
            assert(out@ =~= old(out)@ + cs@.take(i as int));
        }
    }
    proof {
        assert(cs@.take(cs@.len() as int) =~= cs@);
    }
}

/// Append the decimal digits of `n`.
pub fn push_num(out: &mut Vec<char>, n: usize)
    ensures
        final(out)@.len() > old(out)@.len(),
        final(out)@.subrange(0, old(out)@.len() as int) == old(out)@,
        final(out)@ == old(out)@ + dec_text(n as nat),
{
    let ds = decimal(n);
    let mut i: usize = 0;
    while i < ds.len()
        invariant
            i <= ds@.len(),
            out@ == old(out)@ + ds@.take(i as int),
        decreases ds@.len() - i,
    {
        out.push(ds[i]);
        i = i + 1;
        proof {
            assert(out@ =~= old(out)@ + ds@.take(i as int));
        }
    }
    proof {
        assert(ds@.take(ds@.len() as int) =~= ds@);
        assert(out@.subrange(0, old(out)@.len() as int) =~= old(out)@);
    }
}

} // verus!
