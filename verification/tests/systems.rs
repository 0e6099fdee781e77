use lib::compiler::{compile_str, Def, Defs};
use lib::dfao::Dfao;
use lib::ops::Ctx;
use lib::picture::{cmd, encode_row};
use lib::transducer::{parse_inline, transduce};
use lib::learn::Kind;
use lib::negbase::{addition_txt, base_of, less_than_txt, parsed, validity_txt};
use lib::oracle::Oracle;
use lib::ostrowski::{addition, system, to_walnut, validity, Cf};
use lib::walnut::{build, parse_walnut};

fn thue_morse() -> Dfao {
    let sigma = vec![vec![0u8, 1], vec![1u8, 0]];
    Dfao::from_morphism(2, 2, &sigma, &[0, 1], 0, "T").unwrap()
}

/// The letter of a three-track word over `d` digits.
fn sym3(x: usize, y: usize, z: usize, d: usize) -> usize {
    x + y * d + z * d * d
}

#[test]
fn golden_ratio_fraction_is_normalised() {
    let cf = Cf::new(&[], &[1]).unwrap();
    assert_eq!(cf.alpha, vec![0, 2, 1]);
    assert_eq!(cf.period_index, 2);
    assert_eq!(cf.dmax, 1);
    // the convergent denominators are the Fibonacci numbers
    assert_eq!(cf.q(6), vec![1, 2, 3, 5, 8, 13, 21]);
    assert_eq!(cf.a(1), 2);
    assert_eq!(cf.a(7), 1);
}

#[test]
fn continued_fraction_normalisation() {
    let cf = Cf::new(&[0, 3], &[2]).unwrap();
    assert_eq!(cf.alpha, vec![0, 3, 2]);
    assert_eq!(cf.dmax, 2);
    let cf = Cf::new(&[1, 2], &[3]).unwrap();
    assert_eq!(cf.alpha, vec![0, 3, 3]);
    assert_eq!(cf.period_index, 2);
    let cf = Cf::new(&[1], &[4, 5]).unwrap();
    assert_eq!(cf.alpha, vec![0, 5, 5, 4]);
    assert_eq!(cf.period_index, 2);
    // sqrt(2) - 1 = [0; 2, 2, 2, ...]
    let cf = Cf::new(&[], &[2]).unwrap();
    assert_eq!(cf.q(4), vec![1, 2, 5, 12, 29]);
    assert_eq!(cf.a(100), 2);
}

#[test]
fn continued_fraction_errors() {
    assert!(Cf::new(&[1], &[]).is_err());
    assert!(Cf::new(&[], &[0]).is_err());
    assert!(Cf::new(&[0, 2, 0], &[1]).is_err());
    // leading zeros of the preperiod are dropped, not refused
    assert!(Cf::new(&[0, 0], &[3]).is_ok());
}

#[test]
fn zeckendorf_validity() {
    let cf = Cf::new(&[], &[1]).unwrap();
    let v = validity(&cf).unwrap();
    assert!(v.run(&[1]));
    assert!(v.run(&[1, 0]));
    assert!(v.run(&[1, 0, 1]));
    assert!(v.run(&[0, 1, 0, 0]));
    assert!(!v.run(&[1, 1]));
    assert!(!v.run(&[1, 1, 0]));
    assert!(!v.run(&[]));
}

#[test]
fn zeckendorf_adder() {
    let cf = Cf::new(&[], &[1]).unwrap();
    let a = addition(&cf, 16).unwrap();
    let d = 2;
    // 1 + 1 = 2: x = 01, y = 01, z = 10
    assert!(a.run(&[sym3(0, 0, 1, d), sym3(1, 1, 0, d)]));
    // 1 + 1 = 1 is false
    assert!(!a.run(&[sym3(0, 0, 0, d), sym3(1, 1, 1, d)]));
    // 2 + 3 = 5: 010 + 100 = 1000
    assert!(a.run(&[
        sym3(0, 0, 1, d),
        sym3(0, 1, 0, d),
        sym3(1, 0, 0, d),
        sym3(0, 0, 0, d)
    ]));
    // 2 + 2 = 4: 10 + 10 = 101
    assert!(a.run(&[sym3(0, 0, 1, d), sym3(1, 1, 0, d), sym3(0, 0, 1, d)]));
    assert!(!a.run(&[sym3(0, 0, 1, d), sym3(1, 1, 0, d), sym3(0, 0, 0, d)]));
}

#[test]
fn ostrowski_system_round_trips_through_walnut_text() {
    let (cf, v, a) = system(&[], &[1]).unwrap();
    assert_eq!(cf.dmax, 1);
    // the empty word (the representation of 0) is accepted by both
    assert!(v.run(&[]));
    assert!(a.run(&[]));
    let vt = to_walnut(&v, 1, "Zeckendorf\nvalid words");
    assert!(vt.starts_with("# Zeckendorf\n# valid words\n\n{0,1}\n"));
    let at = to_walnut(&a, 3, "Zeckendorf adder");
    let pv = parse_walnut(&vt, None).unwrap();
    let pa = parse_walnut(&at, Some(2)).unwrap();
    let ns = build("zeck", &pv, &pa, None).unwrap();
    assert_eq!(ns.digits, 2);
    // Zeckendorf representations: 4 = 101, 7 = 1010, 12 = 10101
    assert_eq!(ns.rep(4), vec![1, 0, 1]);
    assert_eq!(ns.rep(7), vec![1, 0, 1, 0]);
    assert_eq!(ns.rep(12), vec![1, 0, 1, 0, 1]);
    assert_eq!(ns.value(&[1, 0, 0, 1]), Some(6));
    assert_eq!(ns.value(&[1, 1]), None);
    // there are q_l valid words of each length l: the Fibonacci numbers
    assert_eq!(ns.weight(0), 1);
    assert_eq!(ns.weight(1), 2);
    assert_eq!(ns.weight(4), 8);
}

#[test]
fn zeckendorf_successor_of_fixed_width_words() {
    let (_, v, a) = system(&[], &[1]).unwrap();
    let pv = parse_walnut(&to_walnut(&v, 1, "v"), None).unwrap();
    let pa = parse_walnut(&to_walnut(&a, 3, "a"), Some(2)).unwrap();
    let ns = build("zeck", &pv, &pa, None).unwrap();
    let mut w = vec![0usize, 0, 0];
    let mut st = ns.vstates(&w);
    let mut seen = vec![w.clone()];
    while ns.succ(&mut w, &mut st).is_some() {
        assert_eq!(st, ns.vstates(&w));
        seen.push(w.clone());
    }
    assert_eq!(
        seen,
        vec![
            vec![0, 0, 0],
            vec![0, 0, 1],
            vec![0, 1, 0],
            vec![1, 0, 0],
            vec![1, 0, 1]
        ]
    );
    // the largest word of its width has no successor and is left alone
    assert_eq!(w, vec![1, 0, 1]);
}

#[test]
fn negative_base_names() {
    assert_eq!(base_of("neg_2"), Some(2));
    assert_eq!(base_of("msd_neg_10"), Some(10));
    assert_eq!(base_of("lsd_neg_3"), Some(3));
    assert_eq!(base_of("neg_+4"), Some(4));
    assert_eq!(base_of("neg_1"), None);
    assert_eq!(base_of("neg_"), None);
    assert_eq!(base_of("msd_neg_x"), None);
    assert_eq!(base_of("msd_2"), None);
    assert_eq!(base_of("neg_99999999999"), None);
}

#[test]
fn negative_base_texts() {
    assert_eq!(
        validity_txt(2),
        "# msd_neg_2: base -2, digits {0..1}, place values (-2)^i.\n\
# Every word is a representation, so the language is all of {0..1}*.\n\n{0,1}\n\n0 1\n0 -> 0\n1 -> 0\n"
    );
    let lt = less_than_txt(2);
    assert!(lt.contains("{0,1} {0,1}\n\n0 0\n0 0 -> 0\n0 1 -> 1\n1 0 -> 2\n1 1 -> 0\n"));
    let add = addition_txt(2);
    assert!(add.contains("{0,1} {0,1} {0,1}\n\n0 1\n0 0 0 -> 0\n"));
    let (v, a, l) = parsed(3).unwrap();
    assert_eq!(v.ntracks, 1);
    assert_eq!(a.ntracks, 3);
    assert_eq!(l.ntracks, 2);
    assert_eq!(a.digits, 3);
}

#[test]
fn oracle_common_extensions_on_thue_morse() {
    let t = thue_morse();
    let mut o = Oracle::new(&t, 1000);
    // T = 0110100110010110...
    assert_eq!(o.lcp_upto(0, 3, 10), 2);
    assert_eq!(o.lcp_upto(5, 5, 7), 7);
    assert_eq!(o.lcp_upto(0, 3, 1), 1);
    assert!(o.fe(0, 3, 2));
    assert!(!o.fe(0, 3, 3));
    assert!(o.fe(4, 4, 100));
    // T[0..4] = 0110 is a palindrome, T[0..3] = 011 is not
    assert!(o.rev(0, 0, 4));
    assert!(!o.rev(0, 0, 3));
    assert_eq!(o.rlce_upto(0, 3, 10), 4);
    assert!(o.period(0, 4, 3));
    assert!(!o.period(0, 4, 1));
    assert!(o.border(0, 4, 1));
    assert!(!o.border(0, 4, 2));
    assert!(!o.border(0, 2, 3));
}

#[test]
fn oracle_hard_cap_assumes_long_agreement() {
    let t = thue_morse();
    let mut o = Oracle::new(&t, 2);
    // a length past the cap only needs the capped prefix to agree
    assert!(o.fe(0, 3, 50));
    assert_eq!(o.assumed_inf, 1);
    assert!(!o.fe(0, 1, 50));
}

#[test]
fn oracle_builtin_classes() {
    let t = thue_morse();
    let mut o = Oracle::for_kind(&t, 1000, Kind::Period, vec![0, 1, 2]);
    assert!(o.eval(&[0, 4, 3]));
    assert!(!o.eval(&[0, 4, 1]));
    assert_eq!(o.mqs, 2);
}

#[test]
fn running_parity_of_thue_morse_by_transducer() {
    let t = thue_morse();
    // state = parity of the letters read so far; output = parity including this one
    let tr = parse_inline("par", &["2", "0:0/0,1/1", "1:1/1,0/0"]).unwrap();
    let cx = Ctx::new(false, None);
    let y = transduce(&t, &tr, "Y", &cx).unwrap();
    let x = t.prefix(64);
    let want: Vec<u8> = tr.apply(&x).unwrap().iter().map(|&v| v as u8).collect();
    assert_eq!(y.prefix(64), want);
}

#[test]
fn picture_of_the_sequence_and_of_a_predicate() {
    let t = thue_morse();
    let cx = Ctx::new(false, None);
    let mut defs = Defs::new();
    // T[i+j] on a 4x4 square
    let p = cmd(Some(&t), &defs, "T 4 4", &cx).unwrap();
    assert_eq!(p.rows, vec!["0110", "1101", "1010", "0100"]);
    assert_eq!(p.vals, 2);
    let body = compile_str(2, &t, &defs, &cx, "i < j").unwrap();
    defs.entries.push(Def { name: "lt".to_string(), params: vec!["i".to_string(), "j".to_string()], body });
    let p = cmd(Some(&t), &defs, "lt 3 3", &cx).unwrap();
    assert_eq!(p.rows, vec!["011", "001", "000"]);
    assert!(cmd(Some(&t), &defs, "lt 0 3", &cx).is_err());
    assert!(cmd(None, &defs, "lt 3 3", &cx).is_err());
    assert!(cmd(Some(&t), &defs, "nope 3 3", &cx).is_err());
    // a long constant row is written run-length encoded
    assert_eq!(encode_row(&[1u8; 20]), "~120");
    assert_eq!(encode_row(&[0u8, 1, 10]), "01a");
}
