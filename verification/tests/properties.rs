use lib::compiler::{compile_str, Defs};
use lib::dfa::Dfa;
use lib::ops::Ctx;
use lib::dfao::Dfao;
use lib::oracle::Oracle;
use lib::picture::encode_row;
use lib::logic::{lex, Tok};
use lib::finite::{accepted_words, canonical, finiteness, Finiteness};

fn thue_morse_named(name: &str) -> Dfao {
    let sigma = vec![vec![0u8, 1], vec![1u8, 0]];
    Dfao::from_morphism(2, 2, &sigma, &[0, 1], 0, name).unwrap()
}

/// Words over {0,1} whose first letter is 1 (a language not closed under reversal).
fn starts_with_one() -> Dfa {
    Dfa::new(2, vec!["x".to_string()], 3, vec![2, 1, 1, 1, 2, 2], vec![false, true, false])
}

#[test]
fn lcp_cap_is_clamped_to_the_hard_cap() {
    let t = thue_morse_named("T");
    let mut o = Oracle::new(&t, 100);
    assert_eq!(o.lcp_upto(5, 5, 1000), 100);
    assert_eq!(o.lcp_upto(0, 3, 1000), 2);
    assert_eq!(o.lcp_upto(3, 0, 1000), 2);
    assert_eq!(o.lcp_upto(5, 5, 7), 7);
}

#[test]
fn reverse_determinize_keeps_the_language() {
    let d = starts_with_one();
    let r = d.reverse_determinize().unwrap();
    for w in [vec![1usize, 0], vec![0, 1], vec![1], vec![0], vec![], vec![1, 1, 0, 0]] {
        assert_eq!(r.run(&w), d.run(&w), "word {:?}", w);
    }
    assert!(r.run(&[1, 0]));
    assert!(!r.run(&[0, 1]));
}

#[test]
fn reverse_dfa_accepts_the_reversed_language() {
    let d = starts_with_one();
    let r = d.reverse_dfa().unwrap();
    assert!(r.run(&[0, 1]));
    assert!(!r.run(&[1, 0]));
    assert!(r.run(&[0, 0, 1]));
}

#[test]
fn minimize_ref_merges_equivalent_states() {
    let d = Dfa::new(2, vec!["x".to_string()], 3, vec![1, 2, 1, 1, 2, 2], vec![false, true, true]);
    let m = d.minimize_ref();
    assert_eq!(m.k, 2);
    assert_eq!(m.vars, vec!["x".to_string()]);
    assert_eq!(m.alpha, 2);
    assert_eq!(m.nstates, 2);
    assert_eq!(m.trans, vec![1, 1, 1, 1]);
    assert_eq!(m.accept, vec![false, true]);
    let m2 = d.minimize();
    assert_eq!(m2.trans, m.trans);
    assert_eq!(m2.accept, m.accept);
}

#[test]
fn minimize_drops_unreachable_states() {
    // state 2 is unreachable; state 3 is reachable and equivalent to state 1
    let d = Dfa::new(2, vec!["x".to_string()], 4, vec![1, 3, 1, 1, 0, 0, 3, 3], vec![false, true, false, true]);
    let m = d.minimize();
    assert_eq!(m.nstates, 2);
    assert!(!m.run(&[]));
    assert!(m.run(&[0]));
    assert!(m.run(&[1, 0, 1]));
}

#[test]
fn out_alphabet_lists_only_values_taken() {
    // state 2 is unreachable and carries output 5
    let d = Dfao::from_tables(2, 3, vec![0, 1, 1, 0, 2, 2], vec![0, 1, 5], "U").unwrap();
    assert_eq!(d.out_alphabet(), vec![0, 1]);
}

#[test]
fn compile_reads_the_current_sequence_name() {
    let w = thue_morse_named("W");
    let cx = Ctx::new(false, None);
    let defs = Defs::new();
    let d = compile_str(2, &w, &defs, &cx, "W[0] = 0 & W[1] = 1").unwrap();
    assert_eq!(d.vars.len(), 0);
    assert!(d.accepts_epsilon());
    let e = compile_str(2, &w, &defs, &cx, "W[3] = 1").unwrap();
    assert!(!e.accepts_epsilon());
}

#[test]
fn prefix_in_base_k_is_the_plain_prefix() {
    let t = thue_morse_named("T");
    let cx = Ctx::new(false, None);
    assert_eq!(t.prefix_in(8, &cx), t.prefix(8));
    assert_eq!(t.term_in(11, &cx), 1);
}

#[test]
fn lex_tokens_and_error_texts() {
    let v = lex("i<=j+1").unwrap();
    let shown: Vec<String> = v.iter().map(|t| match t {
        Tok::Id(s) => format!("Id({})", s),
        Tok::Num(n) => format!("Num({})", n),
        Tok::Sym(s) => format!("Sym({})", s),
    }).collect();
    assert_eq!(shown, vec!["Id(i)", "Sym(<=)", "Id(j)", "Sym(+)", "Num(1)"]);
    assert_eq!(lex("i @ j").unwrap_err(), "unexpected character '@' at 2");
    assert_eq!(lex("(@").unwrap_err(), "unexpected character '@' at 1");
    assert_eq!(lex("x + 99999999999999999999").unwrap_err(), "bad number");
}

fn finite_report(src: &str, lsd: bool) -> (lib::finite::Finiteness, usize, u64) {
    let t = thue_morse_named("T");
    let cx = Ctx::new(lsd, None);
    let defs = Defs::new();
    let a = compile_str(2, &t, &defs, &cx, src).unwrap();
    let c = canonical(&a, lsd).minimize();
    let f = finiteness(&c);
    if f != Finiteness::Finite {
        return (f, 0, 0);
    }
    let words = accepted_words(&c, c.nstates, 200000);
    let mx = words.iter().map(|w| lib::learn::decode(2, c.vars.len(), w, &cx).unwrap()[0]).max().unwrap_or(0);
    (f, words.len(), mx)
}

#[test]
fn finite_sets_in_msd() {
    assert_eq!(finite_report("i<3", false), (Finiteness::Finite, 3, 2));
    assert_eq!(finite_report("i<1", false), (Finiteness::Finite, 1, 0));
    assert_eq!(finite_report("T[i]=5", false).0, Finiteness::Empty);
    assert_eq!(finite_report("T[i]=1", false).0, Finiteness::Infinite);
    assert_eq!(finite_report("T[i]=1 & i<10", false), (Finiteness::Finite, 5, 8));
}

#[test]
fn finite_sets_in_lsd() {
    assert_eq!(finite_report("i<3", true), (Finiteness::Finite, 3, 2));
    assert_eq!(finite_report("T[i]=1", true).0, Finiteness::Infinite);
}

#[test]
fn finiteness_of_small_automata() {
    // words starting with 1: infinite
    assert_eq!(finiteness(&starts_with_one()), Finiteness::Infinite);
    // only the word "1": finite
    let one = Dfa::new(2, vec!["x".to_string()], 3, vec![2, 1, 2, 2, 2, 2], vec![false, true, false]);
    assert_eq!(finiteness(&one), Finiteness::Finite);
    // nothing accepted
    let none = Dfa::new(2, vec!["x".to_string()], 1, vec![0, 0], vec![false]);
    assert_eq!(finiteness(&none), Finiteness::Empty);
}

#[test]
fn encode_row_prefers_the_shorter_form() {
    assert_eq!(encode_row(&[1, 1, 1, 1, 1, 1, 2]), "~16.21");
    assert_eq!(encode_row(&[1, 2, 3]), "123");
    assert_eq!(encode_row(&[10, 10]), "aa");
}

#[test]
fn reorder_and_back_reads_words_as_before() {
    // two tracks x, y over base 2; letter = x + 2*y; accept words whose first letter has x=1, y=0
    let d = Dfa::new(2, vec!["x".to_string(), "y".to_string()], 3,
        vec![2, 1, 2, 2, 1, 1, 1, 1, 2, 2, 2, 2], vec![false, true, false]);
    let r = d.reorder(&vec!["y".to_string(), "x".to_string()]);
    // over (y, x) the letter with y=0, x=1 is 2
    assert!(r.run(&[2]));
    assert!(!r.run(&[1]));
    let back = r.reorder(&vec!["x".to_string(), "y".to_string()]);
    for w in [vec![1usize], vec![2], vec![1, 3], vec![3, 1], vec![]] {
        assert_eq!(back.run(&w), d.run(&w), "word {:?}", w);
    }
}

#[test]
fn walnut_text_with_the_first_declared_state_as_start() {
    let text = ["{0,1}", "1 1", "0 -> 1", "1 -> 1", "0 0", "* -> 0"].join("\n");
    let p = lib::walnut::parse_walnut(&text, None).unwrap();
    assert_eq!(p.ntracks, 1);
    assert_eq!(p.digits, 2);
    assert_eq!(p.nstates, 2);
    assert_eq!(p.start, 1);
    assert_eq!(p.out, vec![0, 1]);
    let mut t = p.trans.clone();
    t.sort();
    t.dedup();
    assert_eq!(t, vec![(0, 0, 0), (0, 1, 0), (1, 0, 1), (1, 1, 1)]);
    assert!(p.ns_tokens.is_empty());
}
