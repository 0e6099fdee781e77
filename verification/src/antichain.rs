//! The free variables of a formula.
use vstd::prelude::*;
use crate::logic::{Lin, keys};
use crate::parser::Ast;
use crate::strs::{names, strictly_sorted, vec_contains, str_to_string};
use crate::dfa::distinct;

verus! {

/// The variables of a linear form.
pub open spec fn lin_vars(l: Lin) -> Set<Seq<char>> {
    keys(l.coef@).to_set()
}

/// The variables of a list of linear forms.
pub open spec fn args_vars(args: Seq<Lin>) -> Set<Seq<char>>
    decreases args.len(),
{
    if args.len() == 0 {
        Set::empty()
    } else {
        args_vars(args.drop_last()).union(lin_vars(args.last()))
    }
}

/// The free variables of a formula: every variable of its terms, less those a
/// quantifier binds. A call's arguments are free; the called predicate's own
/// parameters never leak out.
pub open spec fn fv(a: Ast) -> Set<Seq<char>>
    decreases a,
{
    match a {
        Ast::Bool(_) => Set::empty(),
        Ast::Cmp(l, _, r) => lin_vars(l).union(lin_vars(r)),
        Ast::SeqLetter(t, _, _) => lin_vars(t),
        Ast::SeqSeq(t1, _, t2) => lin_vars(t1).union(lin_vars(t2)),
        Ast::IsPow(t) => lin_vars(t),
        Ast::Call(_, args) => args_vars(args@),
        Ast::Not(x) => fv(*x),
        Ast::And(x, y) => fv(*x).union(fv(*y)),
        Ast::Or(x, y) => fv(*x).union(fv(*y)),
        Ast::Imp(x, y) => fv(*x).union(fv(*y)),
        Ast::Iff(x, y) => fv(*x).union(fv(*y)),
        Ast::Forall(vs, x) => fv(*x).difference(names(vs@).to_set()),
        Ast::Exists(vs, x) => fv(*x).difference(names(vs@).to_set()),
    }
}

/// Add `x` to a list of distinct names.
fn add_name(acc: &mut Vec<String>, x: &str)
    requires
        distinct(names(old(acc)@)),
    ensures
        distinct(names(final(acc)@)),
        names(final(acc)@).to_set() == names(old(acc)@).to_set().insert(x@),
{
    let ghost pre = names(acc@);
    if !vec_contains(acc, x) {
        acc.push(str_to_string(x));
        proof {
            assert(names(acc@) =~= pre.push(x@));
            pre.lemma_push_to_set_commute(x@);
        }
    } else {
        proof {
            assert(pre.to_set() =~= pre.to_set().insert(x@));
        }
    }
}

/// Add the variables of `l`.
fn add_lin(acc: &mut Vec<String>, l: &Lin)
    requires
        distinct(names(old(acc)@)),
    ensures
        distinct(names(final(acc)@)),
        names(final(acc)@).to_set() == names(old(acc)@).to_set().union(lin_vars(*l)),
{
    let ghost start = names(acc@).to_set();
    let mut i: usize = 0;
    while i < l.coef.len()
        invariant
            i <= l.coef.len(),
            distinct(names(acc@)),
            names(acc@).to_set() == start.union(keys(l.coef@).take(i as int).to_set()),
        decreases l.coef.len() - i,
    {
        let ghost pre = names(acc@).to_set();
        add_name(acc, l.coef[i].0.as_str());
        proof {
            assert(keys(l.coef@).take(i + 1) =~= keys(l.coef@).take(i as int).push(keys(l.coef@)[i as int]));
            keys(l.coef@).take(i as int).lemma_push_to_set_commute(keys(l.coef@)[i as int]);
            assert(names(acc@).to_set() =~= start.union(keys(l.coef@).take(i + 1).to_set()));
        }
        i = i + 1;
    }
    proof {
        assert(keys(l.coef@).take(l.coef.len() as int) =~= keys(l.coef@));
    }
}

/// Add the free variables of `a`.
fn fv_into(a: &Ast, acc: &mut Vec<String>)
    requires
        distinct(names(old(acc)@)),
    ensures
        distinct(names(final(acc)@)),
        names(final(acc)@).to_set() == names(old(acc)@).to_set().union(fv(*a)),
    decreases a,
{
    let ghost start = names(acc@).to_set();
    match a {
        Ast::Bool(_) => {
            proof {
                assert(start.union(fv(*a)) =~= start);
            }
        },
        Ast::Cmp(l, _, r) => {
            add_lin(acc, l);
            add_lin(acc, r);
            proof {
                assert(names(acc@).to_set() =~= start.union(fv(*a)));
            }
        },
        Ast::SeqLetter(t, _, _) => {
            add_lin(acc, t);
        },
        Ast::SeqSeq(t1, _, t2) => {
            add_lin(acc, t1);
            add_lin(acc, t2);
            proof {
                assert(names(acc@).to_set() =~= start.union(fv(*a)));
            }
        },
        Ast::IsPow(t) => {
            add_lin(acc, t);
        },
        Ast::Call(_, args) => {
            let mut i: usize = 0;
            proof {
                assert(args@.take(0) =~= Seq::<Lin>::empty());
                assert(start.union(args_vars(args@.take(0))) =~= start);
            }
            while i < args.len()
                invariant
                    i <= args.len(),
                    distinct(names(acc@)),
                    names(acc@).to_set() == start.union(args_vars(args@.take(i as int))),
                decreases args.len() - i,
            {
                add_lin(acc, &args[i]);
                proof {
                    assert(args@.take(i + 1).drop_last() =~= args@.take(i as int));
                    assert(args@.take(i + 1).last() == args@[i as int]);
                    assert(names(acc@).to_set() =~= start.union(args_vars(args@.take(i + 1))));
                }
                i = i + 1;
            }
            proof {
                assert(args@.take(args.len() as int) =~= args@);
            }
        },
        Ast::Not(x) => {
            fv_into(x, acc);
        },
        Ast::And(x, y) | Ast::Or(x, y) | Ast::Imp(x, y) | Ast::Iff(x, y) => {
            fv_into(x, acc);
            fv_into(y, acc);
            proof {
                assert(names(acc@).to_set() =~= start.union(fv(*a)));
            }
        },
        Ast::Forall(vs, x) | Ast::Exists(vs, x) => {
            let mut inner: Vec<String> = Vec::new();
            proof {
                assert(names(inner@).to_set() =~= Set::<Seq<char>>::empty());
            }
            fv_into(x, &mut inner);
            let ghost body = fv(**x);
            assert(names(inner@).to_set() =~= body);
            let mut i: usize = 0;
            while i < inner.len()
                invariant
                    i <= inner.len(),
                    distinct(names(acc@)),
                    names(inner@).to_set() == body,
                    names(acc@).to_set() == start.union(names(inner@).take(i as int).to_set().difference(names(vs@).to_set())),
                decreases inner.len() - i,
            {
                let ghost pre = names(acc@).to_set();
                let bound = vec_contains(vs, inner[i].as_str());
                if !bound {
                    add_name(acc, inner[i].as_str());
                }
                proof {
                    assert(names(inner@).take(i + 1) =~= names(inner@).take(i as int).push(names(inner@)[i as int]));
                    names(inner@).take(i as int).lemma_push_to_set_commute(names(inner@)[i as int]);
                    assert(names(acc@).to_set() =~= start.union(names(inner@).take(i + 1).to_set().difference(names(vs@).to_set())));
                }
                i = i + 1;
            }
            proof {
                assert(names(inner@).take(inner.len() as int) =~= names(inner@));
                assert(names(acc@).to_set() =~= start.union(fv(*a)));
            }
        },
    }
}

/// The free variables of a formula, in increasing order.
pub fn free_vars(a: &Ast) -> (r: Vec<String>)
    ensures
        strictly_sorted(names(r@)),
        names(r@).to_set() == fv(*a),
{
    let mut acc: Vec<String> = Vec::new();
    proof {
        assert(names(acc@).to_set() =~= Set::<Seq<char>>::empty());
    }
    fv_into(a, &mut acc);
    proof {
        assert(names(acc@).to_set() =~= fv(*a));
    }
    match crate::strs::sort_distinct(&acc) {
        Some(s) => {
            proof {
                assert(names(s@).to_set() =~= names(acc@).to_set()) by {
                    assert forall|x: Seq<char>| names(s@).to_set().contains(x) <==> names(acc@).to_set().contains(x) by {
                        assert(names(s@).contains(x) <==> names(acc@).contains(x));
                    }
                }
            }
            s
        },
        None => {
            proof {
                let (i, j) = choose|i: int, j: int| 0 <= i < j < acc.len() && names(acc@)[i] == names(acc@)[j];
                assert(false);
            }
            Vec::new()
        },
    }
}
} // verus!
