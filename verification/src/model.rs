//! The symbol vocabulary, its mathematical model, and the rewrite relation.

use vstd::prelude::*;

verus! {

/// The kinds of failure a generation attempt can surface.
#[derive(Clone, Copy, Debug, PartialEq, Eq, Structural)]
pub enum DeriveError {
    /// No rule exists for a nonterminal that must be expanded.
    UnresolvedNonTerminal,
    /// An alternation offers zero candidate sequences.
    EmptyAlternation,
    /// A derivation was converted while a nonterminal remained.
    IncompleteDerivation,
    /// The step budget ran out before the derivation finished; a guard
    /// against grammars whose recursion offers no terminating alternative.
    StepLimitExceeded,
}

/// An atomic output fragment: literal text that is never rewritten.
#[derive(Debug)]
pub struct Terminal(pub String);

/// A named placeholder that some rule must rewrite.
#[derive(Debug)]
pub struct NonTerminal(pub String);

/// One element of a derivation: either a terminal or a nonterminal.
#[derive(Debug)]
pub enum Symbol {
    NonTerminal(NonTerminal),
    Terminal(Terminal),
}

/// An ordered replacement option; empty means the epsilon production.
#[derive(Debug)]
pub struct Sequence(pub Vec<Symbol>);

/// An alternation: candidate sequences, one chosen at random at use time.
#[derive(Debug)]
pub struct Or(pub Vec<Sequence>);

/// The right-hand side of a rule: a plain sequence or an alternation.
#[derive(Debug)]
pub enum RuleBody {
    Or(Or),
    Sequence(Sequence),
}

/// A rewrite rule: a left-hand nonterminal and its replacement body.
#[derive(Debug)]
pub struct Rule(pub NonTerminal, pub RuleBody);

/// A start nonterminal and an ordered collection of rules.
#[derive(Debug)]
pub struct Grammar(pub NonTerminal, pub Vec<Rule>);

/// The mutable rewrite state between the start symbol and an expression.
#[derive(Debug)]
pub struct Derivation(pub Vec<Symbol>);

/// The finished, fully terminal output of a derivation.
#[derive(Debug)]
pub struct Expression(pub Vec<Terminal>);

/// The mathematical value of a symbol: a terminal text or a nonterminal name.
pub enum SymbolModel {
    Terminal { text: Seq<char> },
    NonTerminal { name: Seq<char> },
}

/// The mathematical value of a rule body.
pub enum BodyModel {
    Single { syms: Seq<SymbolModel> },
    Choice { alts: Seq<Seq<SymbolModel>> },
}

/// The mathematical value of a rule.
pub struct RuleModel {
    pub lhs: Seq<char>,
    pub body: BodyModel,
}

/// The mathematical value of a grammar.
pub struct GrammarModel {
    pub start: Seq<char>,
    pub rules: Seq<RuleModel>,
}

impl View for Terminal {
    type V = Seq<char>;

    open spec fn view(&self) -> Seq<char> {
        self.0@
    }
}

impl View for NonTerminal {
    type V = Seq<char>;

    open spec fn view(&self) -> Seq<char> {
        self.0@
    }
}

impl View for Symbol {
    type V = SymbolModel;

    open spec fn view(&self) -> SymbolModel {
        match self {
            Symbol::Terminal(t) => SymbolModel::Terminal { text: t@ },
            Symbol::NonTerminal(n) => SymbolModel::NonTerminal { name: n@ },
        }
    }
}

impl View for Sequence {
    type V = Seq<SymbolModel>;

    open spec fn view(&self) -> Seq<SymbolModel> {
        self.0@.map_values(|s: Symbol| s@)
    }
}

impl View for Or {
    type V = Seq<Seq<SymbolModel>>;

    open spec fn view(&self) -> Seq<Seq<SymbolModel>> {
        self.0@.map_values(|s: Sequence| s@)
    }
}

impl View for RuleBody {
    type V = BodyModel;

    open spec fn view(&self) -> BodyModel {
        match self {
            RuleBody::Sequence(s) => BodyModel::Single { syms: s@ },
            RuleBody::Or(o) => BodyModel::Choice { alts: o@ },
        }
    }
}

impl View for Rule {
    type V = RuleModel;

    open spec fn view(&self) -> RuleModel {
        RuleModel { lhs: self.0@, body: self.1@ }
    }
}

impl View for Grammar {
    type V = GrammarModel;

    open spec fn view(&self) -> GrammarModel {
        GrammarModel { start: self.0@, rules: self.1@.map_values(|r: Rule| r@) }
    }
}

impl View for Derivation {
    type V = Seq<SymbolModel>;

    open spec fn view(&self) -> Seq<SymbolModel> {
        self.0@.map_values(|s: Symbol| s@)
    }
}

impl View for Expression {
    type V = Seq<Seq<char>>;

    open spec fn view(&self) -> Seq<Seq<char>> {
        self.0@.map_values(|t: Terminal| t@)
    }
}

impl Clone for Terminal {
    fn clone(&self) -> (r: Self)
        ensures
            r == *self,
    {
        Terminal(self.0.clone())
    }
}

impl Clone for NonTerminal {
    fn clone(&self) -> (r: Self)
        ensures
            r == *self,
    {
        NonTerminal(self.0.clone())
    }
}

impl Clone for Symbol {
    fn clone(&self) -> (r: Self)
        ensures
            r == *self,
    {
        match self {
            Symbol::Terminal(t) => Symbol::Terminal(t.clone()),
            Symbol::NonTerminal(n) => Symbol::NonTerminal(n.clone()),
        }
    }
}

impl PartialEq for Terminal {
    fn eq(&self, other: &Self) -> (r: bool) {
        self.0 == other.0
    }
}

impl vstd::std_specs::cmp::PartialEqSpecImpl for Terminal {
    open spec fn obeys_eq_spec() -> bool {
        true
    }

    open spec fn eq_spec(&self, other: &Self) -> bool {
        self@ == other@
    }
}

impl PartialEq for NonTerminal {
    fn eq(&self, other: &Self) -> (r: bool) {
        self.0 == other.0
    }
}

impl vstd::std_specs::cmp::PartialEqSpecImpl for NonTerminal {
    open spec fn obeys_eq_spec() -> bool {
        true
    }

    open spec fn eq_spec(&self, other: &Self) -> bool {
        self@ == other@
    }
}

impl PartialEq for Symbol {
    fn eq(&self, other: &Self) -> (r: bool) {
        match (self, other) {
            (Symbol::Terminal(a), Symbol::Terminal(b)) => a == b,
            (Symbol::NonTerminal(a), Symbol::NonTerminal(b)) => a == b,
            _ => false,
        }
    }
}

impl vstd::std_specs::cmp::PartialEqSpecImpl for Symbol {
    open spec fn obeys_eq_spec() -> bool {
        true
    }

    open spec fn eq_spec(&self, other: &Self) -> bool {
        self@ == other@
    }
}

/// The replacement options a rule body offers: a plain sequence offers itself.
pub open spec fn body_alternatives(b: BodyModel) -> Seq<Seq<SymbolModel>> {
    match b {
        BodyModel::Single { syms } => seq![syms],
        BodyModel::Choice { alts } => alts,
    }
}

/// Some rule of the grammar has `name` as its left-hand side.
pub open spec fn has_rule(g: GrammarModel, name: Seq<char>) -> bool {
    exists|i: int| 0 <= i < g.rules.len() && (#[trigger] g.rules[i]).lhs == name
}

/// Some rule for `name` offers `rep` among its alternatives.
pub open spec fn can_expand_to(g: GrammarModel, name: Seq<char>, rep: Seq<SymbolModel>) -> bool {
    exists|i: int|
        0 <= i < g.rules.len() && (#[trigger] g.rules[i]).lhs == name
            && body_alternatives(g.rules[i].body).contains(rep)
}

/// There is a rule for `name`, and every rule for it offers an alternative.
pub open spec fn nt_rules_ok(g: GrammarModel, name: Seq<char>) -> bool {
    &&& has_rule(g, name)
    &&& forall|i: int|
        0 <= i < g.rules.len() && (#[trigger] g.rules[i]).lhs == name ==> body_alternatives(
            g.rules[i].body,
        ).len() > 0
}

/// No nonterminal remains: the termination predicate of a derivation.
pub open spec fn all_terminal(s: Seq<SymbolModel>) -> bool {
    forall|i: int| 0 <= i < s.len() ==> (#[trigger] s[i]) is Terminal
}

/// `i` is the position of the leftmost nonterminal of `s`.
pub open spec fn leftmost_nt_at(s: Seq<SymbolModel>, i: int) -> bool {
    &&& 0 <= i < s.len()
    &&& s[i] is NonTerminal
    &&& forall|j: int| 0 <= j < i ==> (#[trigger] s[j]) is Terminal
}

/// `i` is the first position of `s` that holds the nonterminal `name`.
pub open spec fn first_occurrence_at(s: Seq<SymbolModel>, name: Seq<char>, i: int) -> bool {
    &&& 0 <= i < s.len()
    &&& s[i] == (SymbolModel::NonTerminal { name: name })
    &&& forall|j: int| 0 <= j < i ==> (#[trigger] s[j]) != (SymbolModel::NonTerminal { name: name })
}

/// Every nonterminal of `s` has at least one rule in `g`.
pub open spec fn covered(s: Seq<SymbolModel>, g: GrammarModel) -> bool {
    forall|i: int|
        0 <= i < s.len() && (#[trigger] s[i]) is NonTerminal ==> has_rule(g, s[i]->name)
}

/// A well-formed grammar: the start symbol has a rule, every alternation
/// offers a choice, and every nonterminal named in any rule body has a rule.
pub open spec fn wf_grammar(g: GrammarModel) -> bool {
    &&& has_rule(g, g.start)
    &&& forall|i: int|
        0 <= i < g.rules.len() ==> body_alternatives((#[trigger] g.rules[i]).body).len() > 0
    &&& forall|i: int, k: int|
        0 <= i < g.rules.len() && 0 <= k < body_alternatives(g.rules[i].body).len() ==> covered(
            #[trigger] body_alternatives(g.rules[i].body)[k],
            g,
        )
}

/// `s` with the element at `i` replaced by the symbols of `rep`.
pub open spec fn splice_at(s: Seq<SymbolModel>, i: int, rep: Seq<SymbolModel>) -> Seq<SymbolModel> {
    s.subrange(0, i) + rep + s.subrange(i + 1, s.len() as int)
}

/// One leftmost rewrite: the leftmost nonterminal of `s1` is replaced by an
/// alternative that some rule for it offers, yielding `s2`.
pub open spec fn step_rewrites(g: GrammarModel, s1: Seq<SymbolModel>, s2: Seq<SymbolModel>) -> bool {
    exists|i: int, rep: Seq<SymbolModel>|
        leftmost_nt_at(s1, i) && #[trigger] can_expand_to(g, s1[i]->name, rep) && s2 == splice_at(
            s1,
            i,
            rep,
        )
}

/// `to` is reachable from `from` in exactly `n` leftmost rewrites.
pub open spec fn derives_in(
    g: GrammarModel,
    from: Seq<SymbolModel>,
    to: Seq<SymbolModel>,
    n: nat,
) -> bool
    decreases n,
{
    if n == 0 {
        from == to
    } else {
        exists|mid: Seq<SymbolModel>|
            #[trigger] step_rewrites(g, from, mid) && derives_in(g, mid, to, (n - 1) as nat)
    }
}

/// `to` is reachable from `from` by zero or more leftmost rewrites.
pub open spec fn derives(g: GrammarModel, from: Seq<SymbolModel>, to: Seq<SymbolModel>) -> bool {
    exists|n: nat| derives_in(g, from, to, n)
}

/// Some sequence reachable from `from` has a leftmost nonterminal for which
/// the grammar holds no rule: rewriting from `from` can run into a
/// nonterminal that cannot be resolved.
pub open spec fn reaches_unresolved(g: GrammarModel, from: Seq<SymbolModel>) -> bool {
    exists|s: Seq<SymbolModel>, i: int|
        derives(g, from, s) && #[trigger] leftmost_nt_at(s, i) && !has_rule(g, s[i]->name)
}

/// Some sequence reachable from `from` has a leftmost nonterminal one of
/// whose rules is an alternation with zero branches: rewriting from `from`
/// can run into a malformed rule body.
pub open spec fn reaches_empty_alternation(g: GrammarModel, from: Seq<SymbolModel>) -> bool {
    exists|s: Seq<SymbolModel>, i: int, ri: int|
        #![trigger leftmost_nt_at(s, i), g.rules[ri]]
        derives(g, from, s) && leftmost_nt_at(s, i) && 0 <= ri < g.rules.len()
            && g.rules[ri].lhs == s[i]->name && body_alternatives(g.rules[ri].body).len() == 0
}

/// The symbol sequence an expression denotes: each text as a terminal.
pub open spec fn expr_syms(ts: Seq<Seq<char>>) -> Seq<SymbolModel> {
    ts.map_values(|t: Seq<char>| SymbolModel::Terminal { text: t })
}

/// The text of a finished expression: its terminal texts concatenated in order.
pub open spec fn concat_texts(ts: Seq<Seq<char>>) -> Seq<char>
    decreases ts.len(),
{
    if ts.len() == 0 {
        Seq::empty()
    } else {
        ts[0] + concat_texts(ts.skip(1))
    }
}

/// Zero rewrites reach a sequence from itself.
pub proof fn lemma_derives_refl(g: GrammarModel, s: Seq<SymbolModel>)
    ensures
        derives(g, s, s),
{
    assert(derives_in(g, s, s, 0));
}

/// A sequence reached in `n` rewrites followed by one more rewrite is
/// reached in `n + 1` rewrites.
pub proof fn lemma_derives_in_extend(
    g: GrammarModel,
    a: Seq<SymbolModel>,
    b: Seq<SymbolModel>,
    c: Seq<SymbolModel>,
    n: nat,
)
    requires
        derives_in(g, a, b, n),
        step_rewrites(g, b, c),
    ensures
        derives_in(g, a, c, n + 1),
    decreases n,
{
    if n == 0 {
        assert(derives_in(g, c, c, 0));
        assert(step_rewrites(g, a, c) && derives_in(g, c, c, (n + 1 - 1) as nat));
    } else {
        let mid = choose|mid: Seq<SymbolModel>|
            #[trigger] step_rewrites(g, a, mid) && derives_in(g, mid, b, (n - 1) as nat);
        lemma_derives_in_extend(g, mid, b, c, (n - 1) as nat);
        assert(step_rewrites(g, a, mid) && derives_in(g, mid, c, (n + 1 - 1) as nat));
    }
}

/// A reachable sequence followed by one more rewrite is still reachable.
pub proof fn lemma_derives_extend(
    g: GrammarModel,
    a: Seq<SymbolModel>,
    b: Seq<SymbolModel>,
    c: Seq<SymbolModel>,
)
    requires
        derives(g, a, b),
        step_rewrites(g, b, c),
    ensures
        derives(g, a, c),
{
    let n = choose|n: nat| derives_in(g, a, b, n);
    lemma_derives_in_extend(g, a, b, c, n);
}

/// A leftmost rewrite in a well-formed grammar keeps every nonterminal of the
/// derivation covered by a rule.
pub proof fn lemma_step_preserves_covered(
    g: GrammarModel,
    s1: Seq<SymbolModel>,
    s2: Seq<SymbolModel>,
)
    requires
        wf_grammar(g),
        covered(s1, g),
        step_rewrites(g, s1, s2),
    ensures
        covered(s2, g),
{
    let (i, rep) = choose|i: int, rep: Seq<SymbolModel>|
        leftmost_nt_at(s1, i) && #[trigger] can_expand_to(g, s1[i]->name, rep) && s2 == splice_at(
            s1,
            i,
            rep,
        );
    let ri = choose|ri: int|
        0 <= ri < g.rules.len() && (#[trigger] g.rules[ri]).lhs == s1[i]->name
            && body_alternatives(g.rules[ri].body).contains(rep);
    let k = choose|k: int|
        0 <= k < body_alternatives(g.rules[ri].body).len() && body_alternatives(
            g.rules[ri].body,
        )[k] == rep;
    assert(covered(body_alternatives(g.rules[ri].body)[k], g));
    assert forall|j: int| 0 <= j < s2.len() && (#[trigger] s2[j]) is NonTerminal implies has_rule(
        g,
        s2[j]->name,
    ) by {
        if j < i {
            assert(s2[j] == s1[j]);
        } else if j < i + rep.len() {
            assert(s2[j] == rep[j - i]);
        } else {
            assert(s2[j] == s1[j - rep.len() + 1]);
        }
    }
}

/// The rewritten position is minimal: no nonterminal stands left of the
/// leftmost one.
pub proof fn lemma_leftmost_is_minimal(s: Seq<SymbolModel>, i: int, j: int)
    requires
        leftmost_nt_at(s, i),
        0 <= j < s.len(),
        s[j] is NonTerminal,
    ensures
        i <= j,
{
}

/// An epsilon production: splicing an empty replacement at `i` removes
/// exactly the symbol at `i` and inserts nothing.
pub proof fn lemma_epsilon_removes(s: Seq<SymbolModel>, i: int)
    requires
        0 <= i < s.len(),
    ensures
        splice_at(s, i, Seq::empty()) == s.remove(i),
{
    assert(splice_at(s, i, Seq::<SymbolModel>::empty()) =~= s.remove(i));
}

} // verus!
