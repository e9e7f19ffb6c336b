use glc::{
    Derivation, Expression, Grammar, NonTerminal, Or, Rule, RuleBody, Sequence, Symbol, Terminal,
};

fn nt(name: &str) -> NonTerminal {
    NonTerminal(String::from(name))
}

fn ntsym(name: &str) -> Symbol {
    Symbol::NonTerminal(NonTerminal(String::from(name)))
}

fn tsym(text: &str) -> Symbol {
    Symbol::Terminal(Terminal(String::from(text)))
}

fn or_of_terminals(texts: &[&str]) -> RuleBody {
    let mut alts = Vec::new();
    for t in texts {
        alts.push(Sequence(vec![tsym(t)]));
    }
    RuleBody::Or(Or(alts))
}

fn build_grammar() -> Grammar {
    Grammar(
        nt("S"),
        vec![
            Rule(
                nt("S"),
                RuleBody::Sequence(Sequence(vec![ntsym("A"), ntsym("B")])),
            ),
            Rule(
                nt("B"),
                RuleBody::Or(Or(vec![
                    Sequence(vec![ntsym("A"), ntsym("B"), ntsym("N")]),
                    Sequence(vec![ntsym("E")]),
                ])),
            ),
            Rule(nt("E"), or_of_terminals(&[""])),
            Rule(
                nt("A"),
                or_of_terminals(&[
                    "a", "b", "c", "d", "e", "f", "g", "h", "i", "j", "k", "l", "m", "n", "o",
                    "p", "q", "r", "s", "t", "u", "v", "w", "x", "y", "z",
                ]),
            ),
            Rule(
                nt("N"),
                or_of_terminals(&["0", "1", "2", "3", "4", "5", "6", "7", "8", "9"]),
            ),
        ],
    )
}

#[test]
fn it_works() {
    let grammar = build_grammar();
    let mut strings = Vec::new();

    for _ in 0..10 {
        strings.push(grammar.gen().unwrap());
    }
    assert_eq!(strings.len(), 10);
}

#[test]
fn test() {
    let grammar = build_grammar();
    let mut strings = Vec::new();

    for _ in 0..100 {
        strings.push(grammar.gen().unwrap());
    }

    for s in strings {
        assert!(!s.is_empty());
        assert!(s.chars().next().unwrap().is_ascii_alphabetic());
    }
}

#[test]
fn test_derivation() {
    let grammar = build_grammar();
    let mut derivation = grammar.start_derivation();

    while !derivation.is_done() {
        derivation.derive_step(&grammar).unwrap();
        println!("{derivation:?}");
    }

    let expr: Expression = Expression::from_derivation(derivation).unwrap();
    println!("{expr:?}");
}

#[test]
fn epsilon_branch_terminates() {
    let grammar = build_grammar();
    for _ in 0..20 {
        assert!(grammar.gen().is_ok());
    }
}

#[test]
fn stepping_and_generating_agree_on_vocabulary() {
    let grammar = build_grammar();
    let mut derivation = grammar.start_derivation();
    while !derivation.is_done() {
        derivation.derive_step(&grammar).unwrap();
    }
    let d = Derivation(derivation.0);
    let expr = Expression::from_derivation(d).unwrap();
    let s = expr.render();
    for c in s.chars() {
        assert!(c.is_ascii_lowercase() || c.is_ascii_digit());
    }
}
