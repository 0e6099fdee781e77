use lib::compiler::{compile_str, Defs};
use lib::dfao::Dfao;
use lib::ops::Ctx;

fn thue_morse() -> Dfao {
    let sigma = vec![vec![0u8, 1], vec![1u8, 0]];
    Dfao::from_morphism(2, 2, &sigma, &[0, 1], 0, "T").unwrap()
}

fn decide(src: &str, lsd: bool) -> bool {
    let t = thue_morse();
    let cx = Ctx::new(lsd, None);
    let defs = Defs::new();
    let d = compile_str(2, &t, &defs, &cx, src).unwrap();
    assert_eq!(d.vars.len(), 0);
    d.accepts_epsilon()
}

#[test]
fn thue_morse_prefix() {
    let t = thue_morse();
    assert_eq!(t.prefix(8), vec![0, 1, 1, 0, 1, 0, 0, 1]);
    assert_eq!(t.at(11), 1);
    assert_eq!(t.out_alphabet(), vec![0, 1]);
}

#[test]
fn thue_morse_lsd_form_agrees() {
    let t = thue_morse();
    assert!(t.zero_stable(false));
    assert!(t.zero_stable(true));
    for n in 0u64..64 {
        // least significant digit first
        let mut s = 0usize;
        let mut m = n;
        while m > 0 {
            s = t.ltrans[s * 2 + (m % 2) as usize] as usize;
            m /= 2;
        }
        assert_eq!(t.lout[s], t.at(n));
    }
}

#[test]
fn morphism_errors() {
    let sigma = vec![vec![1u8, 0], vec![0u8, 1]];
    assert!(Dfao::from_morphism(2, 2, &sigma, &[0, 1], 0, "X").is_err());
    let short = vec![vec![0u8, 1]];
    assert!(Dfao::from_morphism(2, 2, &short, &[0, 1], 0, "X").is_err());
    let ragged = vec![vec![0u8, 1], vec![1u8]];
    assert!(Dfao::from_morphism(2, 2, &ragged, &[0, 1], 0, "X").is_err());
}

#[test]
fn tm_squares_still_true() {
    assert!(decide("E i,l. l > 0 & (A t. t < l => T[i+t] = T[i+l+t])", false));
}

#[test]
fn tm_has_no_cubes() {
    assert!(!decide("E i,l. l > 0 & (A t. t < 2*l => T[i+t] = T[i+l+t])", false));
}

#[test]
fn presburger_sentences() {
    assert!(decide("E x. x + x = 4", false));
    assert!(!decide("E x. x + x = 5", false));
    assert!(decide("A x. x < x + 1", false));
    assert!(!decide("E x. x < 0", false));
    assert!(decide("E x. x + x = 4", true));
    assert!(decide("A x, y. x + y = y + x", true));
}

#[test]
fn sequence_terms() {
    assert!(decide("T[0] = 0", false));
    assert!(decide("T[3] = 0", false));
    assert!(decide("E i. T[i] = 1", true));
    assert!(decide("A i. T[2*i+1] != T[i]", false));
}

#[test]
fn parse_errors_are_errors() {
    let t = thue_morse();
    let cx = Ctx::new(false, None);
    let defs = Defs::new();
    assert!(compile_str(2, &t, &defs, &cx, "E i.").is_err());
    assert!(compile_str(2, &t, &defs, &cx, "x ? y").is_err());
    assert!(compile_str(2, &t, &defs, &cx, "$Q(x)").is_err());
}
