//! The derivation engine: leftmost rewriting with random rule selection.

use crate::model::{
    all_terminal, body_alternatives, can_expand_to, concat_texts, covered, derives, derives_in,
    expr_syms, first_occurrence_at, has_rule, leftmost_nt_at, lemma_derives_in_extend,
    lemma_step_preserves_covered, nt_rules_ok, reaches_empty_alternation, reaches_unresolved,
    splice_at, step_rewrites, wf_grammar, DeriveError, Derivation, Expression, Grammar,
    NonTerminal, Or, Rule, RuleBody, Sequence, Symbol, SymbolModel,
};
use rand::Rng;
use vstd::prelude::*;

verus! {

/// The most rewrite steps one derivation may take: a guard against grammars
/// whose recursion never reaches a terminating alternative.
pub const MAX_STEPS: usize = 1000000;

/// Relies on rand::Rng::gen_range over rand::thread_rng: for the non-empty
/// range `0..n` it returns a value of the range, uniformly distributed.
#[verifier::external_body]
fn random_below(n: usize) -> (r: usize)
    requires
        n > 0,
    ensures
        r < n,
{
    rand::thread_rng().gen_range(0..n)
}

impl Grammar {
    /// Generate a random sentence: derive from the start symbol until only
    /// terminals remain, then render them in order.
    pub fn gen(&self) -> (r: Result<String, DeriveError>)
        ensures
            r matches Ok(s) ==> exists|texts: Seq<Seq<char>>|
                derives(
                    self@,
                    seq![SymbolModel::NonTerminal { name: self@.start }],
                    expr_syms(texts),
                ) && s@ == concat_texts(texts),
            r matches Err(e) ==> e != DeriveError::IncompleteDerivation,
            r matches Err(e) ==> (e == DeriveError::StepLimitExceeded ==> exists|s: Seq<
                SymbolModel,
            >|
                derives_in(
                    self@,
                    seq![SymbolModel::NonTerminal { name: self@.start }],
                    s,
                    MAX_STEPS as nat,
                ) && !all_terminal(s)),
            r matches Err(e) ==> (e == DeriveError::UnresolvedNonTerminal ==> reaches_unresolved(
                self@,
                seq![SymbolModel::NonTerminal { name: self@.start }],
            )),
            r matches Err(e) ==> (e == DeriveError::EmptyAlternation
                ==> reaches_empty_alternation(
                self@,
                seq![SymbolModel::NonTerminal { name: self@.start }],
            )),
            wf_grammar(self@) ==> (r matches Err(e) ==> e == DeriveError::StepLimitExceeded),
    {
        let d = self.start_derivation();
        proof {
            if wf_grammar(self@) {
                assert(covered(d@, self@));
            }
        }
        let expr = match d.derive(self) {
            Ok(e) => e,
            Err(e) => {
                return Err(e);
            },
        };
        Ok(expr.render())
    }

    /// Start a derivation holding the start symbol alone.
    pub fn start_derivation(&self) -> (d: Derivation)
        ensures
            d@ == seq![SymbolModel::NonTerminal { name: self@.start }],
    {
        let d = Derivation(vec![Symbol::NonTerminal(self.0.clone())]);
        proof {
            assert(d@ =~= seq![SymbolModel::NonTerminal { name: self@.start }]);
        }
        d
    }

    /// Choose uniformly at random one rule whose left-hand side is `nt`.
    #[verifier::loop_isolation(false)]
    fn choose_rule<'a>(&'a self, nt: &NonTerminal) -> (r: Result<&'a Rule, DeriveError>)
        ensures
            r is Ok <==> has_rule(self@, nt@),
            r matches Ok(rule) ==> rule@.lhs == nt@ && exists|i: int|
                0 <= i < self@.rules.len() && self@.rules[i] == rule@,
            r matches Err(e) ==> e == DeriveError::UnresolvedNonTerminal,
    {
        let mut candidates: Vec<usize> = Vec::new();
        let n = self.1.len();
        for idx in 0..n
            invariant
                n == self.1.len(),
                forall|j: int|
                    0 <= j < candidates@.len() ==> (#[trigger] candidates@[j]) < n
                        && self@.rules[candidates@[j] as int].lhs == nt@,
                (exists|j: int| 0 <= j < idx && (#[trigger] self@.rules[j]).lhs == nt@)
                    ==> candidates@.len() > 0,
        {
            if self.1[idx].0 == *nt {
                candidates.push(idx);
            }
        }
        if candidates.len() == 0 {
            proof {
                assert(!has_rule(self@, nt@));
            }
            Err(DeriveError::UnresolvedNonTerminal)
        } else {
            let k = random_below(candidates.len());
            let chosen = candidates[k];
            Ok(&self.1[chosen])
        }
    }
}

impl Or {
    /// Choose one alternative uniformly at random; an empty alternation is
    /// a malformed rule body and fails.
    fn choose_seq(&self) -> (r: Result<&Sequence, DeriveError>)
        ensures
            r is Ok <==> self@.len() > 0,
            r matches Ok(s) ==> exists|i: int| 0 <= i < self@.len() && self@[i] == s@,
            r matches Err(e) ==> e == DeriveError::EmptyAlternation,
    {
        if self.0.len() == 0 {
            Err(DeriveError::EmptyAlternation)
        } else {
            let k = random_below(self.0.len());
            let s = &self.0[k];
            proof {
                assert(self@[k as int] == s@);
            }
            Ok(s)
        }
    }
}

impl Derivation {
    /// Rewrite until no nonterminal remains, then convert to an expression.
    ///
    /// A malformed grammar fails with the error of the step that found it; a
    /// well-formed grammar whose nonterminals are all covered fails only by
    /// running out of the step budget, the guard against grammars whose
    /// recursion offers no terminating alternative.
    #[verifier::loop_isolation(false)]
    pub fn derive(self, grammar: &Grammar) -> (r: Result<Expression, DeriveError>)
        ensures
            r matches Ok(e) ==> derives(grammar@, self@, expr_syms(e@)) && all_terminal(
                expr_syms(e@),
            ),
            all_terminal(self@) ==> r is Ok,
            r matches Err(e) ==> e != DeriveError::IncompleteDerivation,
            r matches Err(e) ==> (e == DeriveError::StepLimitExceeded ==> exists|s: Seq<
                SymbolModel,
            >| derives_in(grammar@, self@, s, MAX_STEPS as nat) && !all_terminal(s)),
            r matches Err(e) ==> (e == DeriveError::UnresolvedNonTerminal ==> reaches_unresolved(
                grammar@,
                self@,
            )),
            r matches Err(e) ==> (e == DeriveError::EmptyAlternation
                ==> reaches_empty_alternation(grammar@, self@)),
            wf_grammar(grammar@) && covered(self@, grammar@) ==> (r matches Err(e) ==> e
                == DeriveError::StepLimitExceeded),
    {
        let mut d = self;
        let ghost init = d@;
        proof {
            assert(derives_in(grammar@, init, init, 0));
        }
        let mut fuel: usize = MAX_STEPS;
        let mut done = d.is_done();
        while !done && fuel > 0
            invariant
                fuel <= MAX_STEPS,
                done == all_terminal(d@),
                derives_in(grammar@, init, d@, (MAX_STEPS - fuel) as nat),
                wf_grammar(grammar@) && covered(init, grammar@) ==> covered(d@, grammar@),
            decreases fuel,
        {
            let ghost before = d@;
            let ghost steps = (MAX_STEPS - fuel) as nat;
            match d.derive_step(grammar) {
                Ok(()) => {
                    proof {
                        lemma_derives_in_extend(grammar@, init, before, d@, steps);
                        if wf_grammar(grammar@) && covered(init, grammar@) {
                            lemma_step_preserves_covered(grammar@, before, d@);
                        }
                    }
                },
                Err(e) => {
                    proof {
                        assert(derives(grammar@, init, before));
                        if e == DeriveError::UnresolvedNonTerminal {
                            let i = choose|i: int|
                                leftmost_nt_at(before, i) && !has_rule(
                                    grammar@,
                                    before[i]->name,
                                );
                            assert(before[i] is NonTerminal);
                            assert(reaches_unresolved(grammar@, init));
                            if wf_grammar(grammar@) && covered(init, grammar@) {
                                assert(false);
                            }
                        } else {
                            let (i, ri) = choose|i: int, ri: int|
                                leftmost_nt_at(before, i) && 0 <= ri < grammar@.rules.len()
                                    && grammar@.rules[ri].lhs == before[i]->name
                                    && body_alternatives(grammar@.rules[ri].body).len() == 0;
                            assert(reaches_empty_alternation(grammar@, init));
                            if wf_grammar(grammar@) && covered(init, grammar@) {
                                assert(false);
                            }
                        }
                    }
                    return Err(e);
                },
            }
            fuel = fuel - 1;
            done = d.is_done();
        }
        if !done {
            proof {
                assert(derives_in(grammar@, init, d@, MAX_STEPS as nat));
            }
            return Err(DeriveError::StepLimitExceeded);
        }
        proof {
            assert(derives(grammar@, init, d@));
        }
        match Expression::from_derivation(d) {
            Ok(e) => Ok(e),
            Err(e) => {
                proof {
                    assert(false);
                }
                Err(e)
            },
        }
    }

    /// Rewrite the leftmost nonterminal, if any, with a randomly chosen rule
    /// and alternative; a finished derivation is left unchanged.
    pub fn derive_step(&mut self, grammar: &Grammar) -> (r: Result<(), DeriveError>)
        ensures
            all_terminal(old(self)@) ==> r is Ok && final(self)@ == old(self)@,
            r is Ok && !all_terminal(old(self)@) ==> step_rewrites(
                grammar@,
                old(self)@,
                final(self)@,
            ),
            r is Err ==> final(self)@ == old(self)@,
            r matches Err(e) ==> e == DeriveError::UnresolvedNonTerminal || e
                == DeriveError::EmptyAlternation,
            r matches Err(e) ==> (e == DeriveError::UnresolvedNonTerminal ==> exists|i: int|
                leftmost_nt_at(old(self)@, i) && !has_rule(grammar@, old(self)@[i]->name)),
            r matches Err(e) ==> (e == DeriveError::EmptyAlternation ==> exists|i: int, ri: int|
                leftmost_nt_at(old(self)@, i) && 0 <= ri < grammar@.rules.len()
                    && grammar@.rules[ri].lhs == old(self)@[i]->name && body_alternatives(
                    grammar@.rules[ri].body,
                ).len() == 0),
            (exists|i: int|
                leftmost_nt_at(old(self)@, i) && nt_rules_ok(grammar@, old(self)@[i]->name))
                ==> r is Ok,
    {
        let nt_opt = self.find_nt();
        match nt_opt {
            None => Ok(()),
            Some(nt) => {
                match grammar.choose_rule(&nt) {
                    Err(e) => Err(e),
                    Ok(rule) => {
                        let ghost i0 = choose|i: int|
                            leftmost_nt_at(self@, i) && self@[i] == (SymbolModel::NonTerminal {
                                name: nt@,
                            });
                        proof {
                            assert(first_occurrence_at(self@, rule@.lhs, i0));
                        }
                        let r = self.apply(rule);
                        proof {
                            if r is Ok {
                                let (i, rep) = choose|i: int, rep: Seq<SymbolModel>|
                                    first_occurrence_at(old(self)@, rule@.lhs, i)
                                        && body_alternatives(rule@.body).contains(rep) && self@
                                        == #[trigger] splice_at(old(self)@, i, rep);
                                assert(i == i0);
                                assert(can_expand_to(grammar@, old(self)@[i0]->name, rep));
                                assert(step_rewrites(grammar@, old(self)@, self@));
                            }
                        }
                        r
                    },
                }
            },
        }
    }

    /// A derivation is done when no nonterminal remains.
    #[verifier::loop_isolation(false)]
    pub fn is_done(&self) -> (b: bool)
        ensures
            b == all_terminal(self@),
    {
        let n = self.0.len();
        for i in 0..n
            invariant
                n == self.0.len(),
                forall|j: int| 0 <= j < i ==> (#[trigger] self@[j]) is Terminal,
        {
            match &self.0[i] {
                Symbol::NonTerminal(_) => {
                    proof {
                        assert(self@[i as int] is NonTerminal);
                    }
                    return false;
                },
                Symbol::Terminal(_) => {},
            }
        }
        true
    }

    /// The leftmost nonterminal of the derivation, if any.
    #[verifier::loop_isolation(false)]
    fn find_nt(&self) -> (r: Option<NonTerminal>)
        ensures
            r matches Some(nt) ==> exists|i: int|
                leftmost_nt_at(self@, i) && self@[i] == (SymbolModel::NonTerminal { name: nt@ }),
            r is None <==> all_terminal(self@),
    {
        let n = self.0.len();
        for i in 0..n
            invariant
                n == self.0.len(),
                forall|j: int| 0 <= j < i ==> (#[trigger] self@[j]) is Terminal,
        {
            match &self.0[i] {
                Symbol::NonTerminal(nt) => {
                    let found = nt.clone();
                    proof {
                        assert(leftmost_nt_at(self@, i as int));
                        assert(self@[i as int] == (SymbolModel::NonTerminal { name: found@ }));
                    }
                    return Some(found);
                },
                Symbol::Terminal(_) => {},
            }
        }
        None
    }

    /// The first position holding the nonterminal `nt`, if any.
    #[verifier::loop_isolation(false)]
    fn find(&self, nt: &NonTerminal) -> (r: Option<usize>)
        ensures
            r matches Some(i) ==> first_occurrence_at(self@, nt@, i as int),
            r is None ==> forall|j: int|
                0 <= j < self@.len() ==> (#[trigger] self@[j]) != (SymbolModel::NonTerminal {
                    name: nt@,
                }),
    {
        let n = self.0.len();
        for i in 0..n
            invariant
                n == self.0.len(),
                forall|j: int|
                    0 <= j < i ==> (#[trigger] self@[j]) != (SymbolModel::NonTerminal {
                        name: nt@,
                    }),
        {
            match &self.0[i] {
                Symbol::NonTerminal(el) => {
                    if el == nt {
                        proof {
                            assert(self@[i as int] == (SymbolModel::NonTerminal { name: nt@ }));
                        }
                        return Some(i);
                    }
                },
                Symbol::Terminal(_) => {},
            }
        }
        None
    }

    /// Apply `rule` at the first occurrence of its left-hand side.
    fn apply(&mut self, rule: &Rule) -> (r: Result<(), DeriveError>)
        requires
            exists|i: int|
                0 <= i < old(self)@.len() && old(self)@[i] == (SymbolModel::NonTerminal {
                    name: rule@.lhs,
                }),
        ensures
            r is Ok ==> exists|i: int, rep: Seq<SymbolModel>|
                first_occurrence_at(old(self)@, rule@.lhs, i) && body_alternatives(
                    rule@.body,
                ).contains(rep) && final(self)@ == #[trigger] splice_at(old(self)@, i, rep),
            r is Err ==> final(self)@ == old(self)@,
            r matches Err(e) ==> e == DeriveError::EmptyAlternation && body_alternatives(
                rule@.body,
            ).len() == 0,
            body_alternatives(rule@.body).len() > 0 ==> r is Ok,
    {
        match self.find(&rule.0) {
            Some(index) => self.apply_at(rule, index),
            None => {
                proof {
                    assert(false);
                }
                Err(DeriveError::EmptyAlternation)
            },
        }
    }

    /// Replace the symbol at `index` by the body of `rule`, choosing one
    /// alternative at random when the body is an alternation. The
    /// replacement may hold zero, one, or many symbols.
    #[verifier::loop_isolation(false)]
    fn apply_at(&mut self, rule: &Rule, index: usize) -> (r: Result<(), DeriveError>)
        requires
            index < old(self)@.len(),
        ensures
            r is Ok ==> exists|rep: Seq<SymbolModel>|
                #[trigger] body_alternatives(rule@.body).contains(rep) && final(self)@
                    == splice_at(old(self)@, index as int, rep),
            r is Err ==> final(self)@ == old(self)@,
            r matches Err(e) ==> e == DeriveError::EmptyAlternation && body_alternatives(
                rule@.body,
            ).len() == 0,
            body_alternatives(rule@.body).len() > 0 ==> r is Ok,
    {
        let replacement: &Sequence = match &rule.1 {
            RuleBody::Sequence(s) => {
                proof {
                    assert(body_alternatives(rule@.body)[0] == s@);
                }
                s
            },
            RuleBody::Or(o) => {
                match o.choose_seq() {
                    Ok(s) => {
                        proof {
                            let i = choose|i: int| 0 <= i < o@.len() && o@[i] == s@;
                            assert(body_alternatives(rule@.body)[i] == s@);
                        }
                        s
                    },
                    Err(e) => {
                        return Err(e);
                    },
                }
            },
        };
        proof {
            assert(body_alternatives(rule@.body).contains(replacement@));
        }
        let mut out: Vec<Symbol> = Vec::new();
        for i in 0..index
            invariant
                out@.len() == i,
                forall|j: int| 0 <= j < i ==> (#[trigger] out@[j])@ == self@[j],
        {
            out.push(self.0[i].clone());
        }
        let m = replacement.0.len();
        for i in 0..m
            invariant
                m == replacement.0.len(),
                out@.len() == index + i,
                forall|j: int| 0 <= j < index ==> (#[trigger] out@[j])@ == self@[j],
                forall|j: int|
                    index <= j < index + i ==> (#[trigger] out@[j])@ == replacement@[j - index],
        {
            out.push(replacement.0[i].clone());
        }
        let n = self.0.len();
        for i in (index + 1)..n
            invariant
                m == replacement.0.len(),
                out@.len() == m + i - 1,
                forall|j: int| 0 <= j < index ==> (#[trigger] out@[j])@ == self@[j],
                forall|j: int|
                    index <= j < index + m ==> (#[trigger] out@[j])@ == replacement@[j - index],
                forall|j: int|
                    index + m <= j < out@.len() ==> (#[trigger] out@[j])@ == self@[j - m + 1],
        {
            out.push(self.0[i].clone());
        }
        proof {
            assert(out@.map_values(|s: Symbol| s@) =~= splice_at(
                self@,
                index as int,
                replacement@,
            ));
        }
        self.0 = out;
        Ok(())
    }
}

} // verus!
