//! A context-free-grammar random sentence generator.
//!
//! A `Grammar` pairs a start nonterminal with a list of rewrite rules. A
//! `Derivation` starts from the start symbol and repeatedly rewrites its
//! leftmost nonterminal with a randomly chosen rule until only terminals
//! remain; the finished sequence converts to an `Expression`, whose
//! rendering concatenates the terminal texts in order.

mod engine;
mod model;
mod render;

pub use model::{
    BodyModel, DeriveError, Derivation, Expression, Grammar, GrammarModel, NonTerminal, Or, Rule,
    RuleBody, RuleModel, Sequence, Symbol, SymbolModel, Terminal,
};
pub use model::{
    all_terminal, body_alternatives, can_expand_to, concat_texts, covered, derives, derives_in,
    expr_syms, first_occurrence_at, has_rule, leftmost_nt_at, nt_rules_ok,
    reaches_empty_alternation, reaches_unresolved, splice_at, step_rewrites, wf_grammar,
};
pub use model::{
    lemma_derives_extend, lemma_derives_in_extend, lemma_derives_refl, lemma_epsilon_removes,
    lemma_leftmost_is_minimal, lemma_step_preserves_covered,
};
pub use engine::MAX_STEPS;
