//! Converting a finished derivation to an expression and rendering it.

use crate::model::{
    all_terminal, concat_texts, expr_syms, DeriveError, Derivation, Expression, Symbol, SymbolModel,
    Terminal,
};
use vstd::prelude::*;
use vstd::string::StringExecFns;

verus! {

/// Appending one more text concatenates it at the end.
proof fn lemma_concat_texts_push(ts: Seq<Seq<char>>, t: Seq<char>)
    ensures
        concat_texts(ts.push(t)) == concat_texts(ts) + t,
    decreases ts.len(),
{
    if ts.len() == 0 {
        assert(ts.push(t).skip(1) =~= Seq::<Seq<char>>::empty());
        assert(concat_texts(Seq::<Seq<char>>::empty()) == Seq::<char>::empty());
        assert(concat_texts(ts.push(t)) =~= t);
        assert(concat_texts(ts) + t =~= t);
    } else {
        assert(ts.push(t).skip(1) =~= ts.skip(1).push(t));
        lemma_concat_texts_push(ts.skip(1), t);
        assert(ts.push(t)[0] == ts[0]);
        assert(ts[0] + (concat_texts(ts.skip(1)) + t) =~= (ts[0] + concat_texts(ts.skip(1))) + t);
        assert(concat_texts(ts.push(t)) =~= concat_texts(ts) + t);
    }
}

impl Expression {
    /// Convert a finished derivation into an expression; a derivation that
    /// still holds a nonterminal is rejected, never silently truncated.
    #[verifier::loop_isolation(false)]
    pub fn from_derivation(d: Derivation) -> (r: Result<Expression, DeriveError>)
        ensures
            r is Ok <==> all_terminal(d@),
            r matches Ok(e) ==> expr_syms(e@) == d@,
            r matches Err(e) ==> e == DeriveError::IncompleteDerivation,
    {
        let mut terminals: Vec<Terminal> = Vec::new();
        let n = d.0.len();
        for i in 0..n
            invariant
                n == d.0.len(),
                terminals@.len() == i,
                forall|j: int|
                    0 <= j < i ==> d@[j] == (SymbolModel::Terminal {
                        text: #[trigger] terminals@[j]@,
                    }),
        {
            match &d.0[i] {
                Symbol::Terminal(t) => {
                    terminals.push(t.clone());
                },
                Symbol::NonTerminal(_) => {
                    proof {
                        assert(d@[i as int] is NonTerminal);
                    }
                    return Err(DeriveError::IncompleteDerivation);
                },
            }
        }
        let e = Expression(terminals);
        proof {
            assert(expr_syms(e@) =~= d@);
        }
        Ok(e)
    }

    /// The expression's text: its terminal texts concatenated in order with
    /// no separator. Rendering is deterministic: the result is a function of
    /// the expression's value alone.
    #[verifier::loop_isolation(false)]
    pub fn render(&self) -> (r: String)
        ensures
            r@ == concat_texts(self@),
    {
        let mut out = String::new();
        let n = self.0.len();
        for i in 0..n
            invariant
                n == self.0.len(),
                out@ == concat_texts(self@.subrange(0, i as int)),
        {
            proof {
                assert(self@.subrange(0, i + 1) =~= self@.subrange(0, i as int).push(
                    self@[i as int],
                ));
                lemma_concat_texts_push(self@.subrange(0, i as int), self@[i as int]);
            }
            out.append(self.0[i].0.as_str());
        }
        proof {
            assert(self@.subrange(0, n as int) =~= self@);
        }
        out
    }
}

} // verus!
