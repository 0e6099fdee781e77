use lib::compiler::{compile_str, Defs};
use lib::dfao::Dfao;
use lib::learner::{cmd_learn, learn_fe, lin_eval, sat_pow, LearnConfig, Rng};
use lib::logic::Lin;
use lib::ops::Ctx;

fn thue_morse() -> Dfao {
    let sigma = vec![vec![0u8, 1], vec![1u8, 0]];
    Dfao::from_morphism(2, 2, &sigma, &[0, 1], 0, "T").unwrap()
}

/// The value of `n` in the three-track msd word of `(i, j, n)` over width `w`.
fn word3(i: u64, j: u64, n: u64, w: usize) -> Vec<usize> {
    (0..w)
        .map(|p| {
            let s = w - 1 - p;
            ((i >> s) & 1) as usize + 2 * (((j >> s) & 1) as usize) + 4 * (((n >> s) & 1) as usize)
        })
        .collect()
}

fn fe_direct(t: &Dfao, i: u64, j: u64, n: u64) -> bool {
    (0..n).all(|x| t.at(i + x) == t.at(j + x))
}

#[test]
fn learned_equal_factors_of_thue_morse() {
    let t = thue_morse();
    let defs = Defs::new();
    let cx = Ctx::new(false, None);
    let (d, st) = learn_fe(&t, &defs, &cx).unwrap();
    assert_eq!(d.vars.len(), 3);
    assert!(st.states >= 2);
    assert_eq!(st.states, d.nstates);
    for i in 0..12u64 {
        for j in 0..12u64 {
            for n in 0..8u64 {
                assert_eq!(d.run(&word3(i, j, n, 6)), fe_direct(&t, i, j, n), "FE({},{},{})", i, j, n);
            }
        }
    }
}

#[test]
fn learn_command_reply_and_errors() {
    let t = thue_morse();
    let defs = Defs::new();
    let cx = Ctx::new(false, None);
    let cfg = LearnConfig::defaults();
    let (name, params, d, msg) = cmd_learn(&t, &defs, "E fe", &cfg, &cx).unwrap();
    assert_eq!(name, "E");
    assert_eq!(params, vec!["i".to_string(), "j".to_string(), "l".to_string()]);
    assert!(msg.starts_with("OK learn E(i,j,l) kind=fe states="));
    assert!(d.nstates >= 2);
    assert!(cmd_learn(&t, &defs, "E", &cfg, &cx).unwrap_err().starts_with("usage: learn"));
    assert!(cmd_learn(&t, &defs, "E bogus", &cfg, &cx).unwrap_err().starts_with("unknown kind \"bogus\""));
    assert!(cmd_learn(&t, &defs, "E (i,n) init:i=i step:i=i", &cfg, &cx).is_err());
}

#[test]
fn learned_automaton_agrees_with_the_compiler() {
    let t = thue_morse();
    let defs = Defs::new();
    let cx = Ctx::new(false, None);
    let (d, _) = learn_fe(&t, &defs, &cx).unwrap();
    let c = compile_str(2, &t, &defs, &cx, "A x (x<l) => T[i+x]=T[j+x]").unwrap();
    assert_eq!(c.vars, d.vars);
    for i in 0..8u64 {
        for j in 0..8u64 {
            for n in 0..6u64 {
                let w = word3(i, j, n, 5);
                assert_eq!(d.run(&w), c.run(&w));
            }
        }
    }
}

#[test]
fn linear_terms_evaluate_under_an_environment() {
    let t = Lin { c: 3, coef: vec![("i".to_string(), 2), ("n".to_string(), -1)] };
    let env = vec![("i".to_string(), 5i64), ("n".to_string(), 4i64)];
    assert_eq!(lin_eval(&t, &env), Some(9));
    let env = vec![("i".to_string(), 5i64)];
    assert_eq!(lin_eval(&t, &env), None);
    let big = Lin { c: 0, coef: vec![("i".to_string(), i64::MAX)] };
    assert_eq!(lin_eval(&big, &vec![("i".to_string(), 2i64)]), None);
}

#[test]
fn saturating_powers_and_the_generator() {
    assert_eq!(sat_pow(2, 10), 1024);
    assert_eq!(sat_pow(3, 0), 1);
    assert_eq!(sat_pow(2, 64), u64::MAX);
    let mut r = Rng { state: 1 };
    let a = r.next();
    assert_eq!(a, 1082269761);
    for _ in 0..100 {
        assert!(r.below(7) < 7);
    }
    assert_eq!(r.below(0), 0);
}

#[test]
fn equal_factors_are_symmetric_reflexive_and_prefix_closed() {
    let t = thue_morse();
    let mut o = lib::oracle::Oracle::new(&t, 1000);
    for i in 0..20u64 {
        for j in 0..20u64 {
            for l in 0..10u64 {
                let a = o.fe(i, j, l);
                assert_eq!(a, o.fe(j, i, l));
                if a {
                    for m in 0..=l {
                        assert!(o.fe(i, j, m));
                    }
                }
            }
            assert!(o.fe(i, j, 0));
        }
        assert!(o.fe(i, i, 30));
    }
}

#[test]
fn borders_are_periods() {
    let t = thue_morse();
    let mut o = lib::oracle::Oracle::new(&t, 1000);
    for i in 0..16u64 {
        for l in 1..12u64 {
            for b in 1..=l {
                assert_eq!(o.border(i, l, b), o.period(i, l, l - b), "i={} l={} b={}", i, l, b);
            }
        }
    }
}
