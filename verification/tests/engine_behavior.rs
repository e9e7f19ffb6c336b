use glc::{
    DeriveError, Derivation, Expression, Grammar, NonTerminal, Or, Rule, RuleBody, Sequence,
    Symbol, Terminal,
};

fn nt(name: &str) -> NonTerminal {
    NonTerminal(String::from(name))
}

fn ntsym(name: &str) -> Symbol {
    Symbol::NonTerminal(NonTerminal(String::from(name)))
}

fn tsym(text: &str) -> Symbol {
    Symbol::Terminal(Terminal(String::from(text)))
}

fn seq_rule(lhs: &str, syms: Vec<Symbol>) -> Rule {
    Rule(nt(lhs), RuleBody::Sequence(Sequence(syms)))
}

fn or_of_terminals(texts: &[&str]) -> RuleBody {
    let mut alts = Vec::new();
    for t in texts {
        alts.push(Sequence(vec![tsym(t)]));
    }
    RuleBody::Or(Or(alts))
}

#[test]
fn two_char_sentence() {
    let grammar = Grammar(
        nt("S"),
        vec![
            seq_rule("S", vec![ntsym("A"), ntsym("N")]),
            Rule(nt("A"), or_of_terminals(&["a", "b", "c", "d", "e", "f", "g"])),
            Rule(
                nt("N"),
                or_of_terminals(&["0", "1", "2", "3", "4", "5", "6", "7", "8", "9"]),
            ),
        ],
    );
    for _ in 0..50 {
        let s = grammar.gen().unwrap();
        assert_eq!(s.len(), 2);
        let first = s.chars().next().unwrap();
        let second = s.chars().nth(1).unwrap();
        assert!(('a'..='g').contains(&first));
        assert!(second.is_ascii_digit());
    }
}

#[test]
fn unresolved_nonterminal_fails() {
    let grammar = Grammar(nt("S"), vec![seq_rule("S", vec![ntsym("X")])]);
    assert_eq!(grammar.gen(), Err(DeriveError::UnresolvedNonTerminal));
}

#[test]
fn empty_alternation_fails() {
    let grammar = Grammar(nt("A"), vec![Rule(nt("A"), RuleBody::Or(Or(vec![])))]);
    assert_eq!(grammar.gen(), Err(DeriveError::EmptyAlternation));
}

#[test]
fn incomplete_conversion_fails() {
    let d = Derivation(vec![tsym("x"), ntsym("B")]);
    let r = Expression::from_derivation(d);
    assert!(matches!(r, Err(DeriveError::IncompleteDerivation)));
}

#[test]
fn nonterminating_grammar_hits_step_limit() {
    let grammar = Grammar(nt("S"), vec![seq_rule("S", vec![ntsym("S")])]);
    assert_eq!(grammar.gen(), Err(DeriveError::StepLimitExceeded));
}

#[test]
fn manual_step_replaces_leftmost() {
    let grammar = Grammar(
        nt("S"),
        vec![
            seq_rule("S", vec![ntsym("A"), ntsym("B")]),
            seq_rule("A", vec![tsym("x")]),
            seq_rule("B", vec![tsym("y")]),
        ],
    );
    let mut d = grammar.start_derivation();
    assert!(!d.is_done());
    d.derive_step(&grammar).unwrap();
    assert_eq!(d.0.len(), 2);
    assert_eq!(d.0[0], ntsym("A"));
    assert_eq!(d.0[1], ntsym("B"));
    assert!(!d.is_done());
    d.derive_step(&grammar).unwrap();
    assert_eq!(d.0.len(), 2);
    assert_eq!(d.0[0], tsym("x"));
    assert_eq!(d.0[1], ntsym("B"));
    assert!(!d.is_done());
    d.derive_step(&grammar).unwrap();
    assert!(d.is_done());
    let expr = Expression::from_derivation(d).unwrap();
    assert_eq!(expr.render(), "xy");
}

#[test]
fn epsilon_removes_symbol() {
    let grammar = Grammar(
        nt("S"),
        vec![
            seq_rule("S", vec![ntsym("E"), tsym("z")]),
            seq_rule("E", vec![]),
        ],
    );
    let mut d = grammar.start_derivation();
    d.derive_step(&grammar).unwrap();
    assert_eq!(d.0.len(), 2);
    d.derive_step(&grammar).unwrap();
    assert_eq!(d.0.len(), 1);
    assert_eq!(d.0[0], tsym("z"));
    assert!(d.is_done());
    assert_eq!(grammar.gen(), Ok(String::from("z")));
}

#[test]
fn finished_step_is_a_no_op() {
    let grammar = Grammar(nt("S"), vec![seq_rule("S", vec![tsym("k")])]);
    let mut d = Derivation(vec![tsym("a"), tsym("b")]);
    d.derive_step(&grammar).unwrap();
    assert_eq!(d.0.len(), 2);
    assert_eq!(d.0[0], tsym("a"));
    assert_eq!(d.0[1], tsym("b"));
    assert!(d.is_done());
}

#[test]
fn render_concatenates_in_order() {
    let e = Expression(vec![
        Terminal(String::from("ab")),
        Terminal(String::from("")),
        Terminal(String::from("cd")),
    ]);
    assert_eq!(e.render(), "abcd");
    assert_eq!(e.render(), "abcd");
}

#[test]
fn alternation_picks_offered_branch() {
    let grammar = Grammar(nt("A"), vec![Rule(nt("A"), or_of_terminals(&["p", "q"]))]);
    for _ in 0..50 {
        let s = grammar.gen().unwrap();
        assert!(s == "p" || s == "q");
    }
}

#[test]
fn multiple_rules_for_one_nonterminal() {
    let grammar = Grammar(
        nt("S"),
        vec![seq_rule("S", vec![tsym("u")]), seq_rule("S", vec![tsym("v")])],
    );
    let mut seen_u = false;
    let mut seen_v = false;
    for _ in 0..200 {
        let s = grammar.gen().unwrap();
        assert!(s == "u" || s == "v");
        if s == "u" {
            seen_u = true;
        } else {
            seen_v = true;
        }
    }
    assert!(seen_u && seen_v);
}
