use crate::context::Env;
use crate::error::EvalError;
use crate::eval::{evaluate_each, evaluate_text, Semantics};
use crate::grammar::{
    all_blank, grammatical, infix, law_lexer_reads_spelling, law_parser_reads_grammar,
    law_postfix_value, lemma_join_apart, lemma_split_formula, lemma_written_literals,
    lemma_written_shape, lexable, literals_apart, literals_run, postfix_of, spelled, spelling,
    value, well_called, written, Formula,
};
use crate::parse::{paren_at, postfix_each, split_upto, statements, Split};
use crate::token::{PreToken, Token, Value};
use vstd::prelude::*;

verus! {

/// A lexeme that ends a statement outside parentheses.
pub open spec fn separator(p: PreToken<Seq<char>>) -> bool {
    p is Comma || p is SemiColon
}

/// A series of formulas of the grammar with a separator between each two.
pub open spec fn series(es: Seq<Formula>, seps: Seq<PreToken<Seq<char>>>) -> bool {
    &&& es.len() > 0
    &&& seps.len() + 1 == es.len()
    &&& forall|i: int| 0 <= i < es.len() ==> grammatical(#[trigger] es[i])
    &&& forall|i: int| 0 <= i < seps.len() ==> separator(#[trigger] seps[i])
}

/// The lexemes that a series is written as: `seps[i]` stands after the
/// formula `es[i]`.
pub open spec fn written_series(es: Seq<Formula>, seps: Seq<PreToken<Seq<char>>>) -> Seq<
    PreToken<Seq<char>>,
>
    decreases es.len(),
{
    if es.len() == 0 {
        Seq::empty()
    } else if es.len() == 1 || seps.len() == 0 {
        written(es[0])
    } else {
        written_series(es.drop_last(), seps.drop_last()) + seq![seps.last()] + written(es.last())
    }
}

/// The tokens of each formula, in the order of the text.
pub open spec fn infix_each(es: Seq<Formula>) -> Seq<Seq<Token<Seq<char>>>> {
    Seq::new(es.len(), |i: int| infix(es[i]))
}

/// The postfix form of each formula.
pub open spec fn postfix_of_each(es: Seq<Formula>) -> Seq<Seq<Token<Seq<char>>>> {
    Seq::new(es.len(), |i: int| postfix_of(es[i]))
}

/// The values of the formulas, each computed along its structure, or the
/// error of the first formula that has one.
pub open spec fn values_each(sem: Semantics, env: Env, es: Seq<Formula>) -> Result<
    Seq<Value>,
    EvalError<Seq<char>>,
>
    decreases es.len(),
{
    if es.len() == 0 {
        Ok(Seq::empty())
    } else {
        match values_each(sem, env, es.drop_last()) {
            Ok(vs) => match value(sem, env, es.last()) {
                Ok(v) => Ok(vs.push(v)),
                Err(err) => Err(err),
            },
            Err(err) => Err(err),
        }
    }
}

/// A shorter series.
proof fn lemma_series_front(es: Seq<Formula>, seps: Seq<PreToken<Seq<char>>>)
    requires
        series(es, seps),
        es.len() > 1,
    ensures
        series(es.drop_last(), seps.drop_last()),
{
    assert forall|i: int| 0 <= i < es.drop_last().len() implies grammatical(
        #[trigger] es.drop_last()[i],
    ) by {
        assert(es.drop_last()[i] == es[i]);
    }
    assert forall|i: int| 0 <= i < seps.drop_last().len() implies separator(
        #[trigger] seps.drop_last()[i],
    ) by {
        assert(seps.drop_last()[i] == seps[i]);
    }
}

/// The tokenizer looks at the lexemes that it has read and at whether the
/// next one is a `(`, and at nothing else.
proof fn lemma_split_local(
    num: spec_fn(Seq<char>) -> Option<Value>,
    ps: Seq<PreToken<Seq<char>>>,
    qs: Seq<PreToken<Seq<char>>>,
    n: nat,
)
    requires
        n <= ps.len(),
        n <= qs.len(),
        forall|i: int| 0 <= i < n ==> ps[i] == qs[i],
        paren_at(ps, n as int) == paren_at(qs, n as int),
    ensures
        split_upto(num, ps, n) == split_upto(num, qs, n),
    decreases n,
{
    if n > 0 {
        assert(ps[n - 1] == qs[n - 1]);
        lemma_split_local(num, ps, qs, (n - 1) as nat);
    }
}

/// The tokenizer after a series holds the tokens of the last formula in
/// the open statement, and those of each formula before it in a closed one.
proof fn lemma_split_series(
    num: spec_fn(Seq<char>) -> Option<Value>,
    es: Seq<Formula>,
    seps: Seq<PreToken<Seq<char>>>,
)
    requires
        series(es, seps),
        forall|i: int| 0 <= i < es.len() ==> spelled(num, #[trigger] es[i]),
    ensures
        split_upto(num, written_series(es, seps), written_series(es, seps).len()) == Ok::<
            Split,
            EvalError<Seq<char>>,
        >(Split { closed: infix_each(es.drop_last()), open: infix(es.last()), depth: 0 }),
    decreases es.len(),
{
    let w = written_series(es, seps);
    let e = es.last();
    assert(e == es[es.len() - 1]);
    assert(grammatical(e) && spelled(num, e));
    let none = Seq::<Token<Seq<char>>>::empty();
    if es.len() == 1 {
        let start = Split { closed: Seq::empty(), open: none, depth: 0 };
        lemma_split_formula(num, w, 0, e, start);
        assert(none + infix(e) =~= infix(e));
        assert(infix_each(es.drop_last()) =~= Seq::empty());
    } else {
        let front = es.drop_last();
        let prev = written_series(front, seps.drop_last());
        let sep = seps.last();
        assert(sep == seps[seps.len() - 1]);
        assert(separator(sep));
        lemma_series_front(es, seps);
        assert forall|i: int| 0 <= i < front.len() implies spelled(num, #[trigger] front[i]) by {
            assert(front[i] == es[i]);
        }
        lemma_split_series(num, front, seps.drop_last());
        let n = prev.len();
        assert(w =~= prev + seq![sep] + written(e));
        assert(w[n as int] == sep);
        lemma_split_local(num, w, prev, n);
        let s1 = Split { closed: infix_each(front.drop_last()), open: infix(front.last()), depth: 0 };
        let s2 = Split { closed: s1.closed.push(s1.open), open: none, depth: 0 };
        assert(split_upto(num, w, (n + 1) as nat) == Ok::<Split, EvalError<Seq<char>>>(s2));
        assert(s2.closed =~= infix_each(front));
        assert forall|i: int| 0 <= i < written(e).len() implies w[n + 1 + i] == #[trigger] written(
            e,
        )[i] by {}
        lemma_split_formula(num, w, (n + 1) as int, e, s2);
        assert(none + infix(e) =~= infix(e));
    }
}

/// The tokenizer splits a series into its statements: the lexemes of
/// formulas with separators between them make one statement for each
/// formula, which holds the formula's tokens.
pub proof fn law_tokenizer_splits_series(
    num: spec_fn(Seq<char>) -> Option<Value>,
    es: Seq<Formula>,
    seps: Seq<PreToken<Seq<char>>>,
)
    requires
        series(es, seps),
        forall|i: int| 0 <= i < es.len() ==> spelled(num, #[trigger] es[i]),
    ensures
        statements(num, written_series(es, seps)) == Ok::<
            Seq<Seq<Token<Seq<char>>>>,
            EvalError<Seq<char>>,
        >(infix_each(es)),
{
    lemma_split_series(num, es, seps);
    assert(grammatical(es[es.len() - 1]));
    lemma_written_shape(es.last());
    assert(infix_each(es.drop_last()).push(infix(es.last())) =~= infix_each(es));
}

/// The parser makes of the tokens of each formula its postfix form.
proof fn lemma_postfix_series(es: Seq<Formula>)
    requires
        forall|i: int| 0 <= i < es.len() ==> grammatical(#[trigger] es[i]),
    ensures
        postfix_each(infix_each(es)) == Ok::<Seq<Seq<Token<Seq<char>>>>, EvalError<Seq<char>>>(
            postfix_of_each(es),
        ),
    decreases es.len(),
{
    if es.len() == 0 {
        assert(infix_each(es) =~= Seq::empty());
        assert(postfix_of_each(es) =~= Seq::empty());
    } else {
        let front = es.drop_last();
        assert forall|i: int| 0 <= i < front.len() implies grammatical(#[trigger] front[i]) by {
            assert(front[i] == es[i]);
        }
        lemma_postfix_series(front);
        assert(grammatical(es[es.len() - 1]));
        law_parser_reads_grammar(es.last());
        assert(infix_each(es).drop_last() =~= infix_each(front));
        assert(infix_each(es).last() == infix(es.last()));
        assert(postfix_of_each(front).push(postfix_of(es.last())) =~= postfix_of_each(es));
    }
}

/// The postfix forms of the formulas evaluate to the formulas' values.
proof fn lemma_values_series(sem: Semantics, env: Env, es: Seq<Formula>)
    requires
        forall|i: int| 0 <= i < es.len() ==> grammatical(#[trigger] es[i]) && well_called(env, es[i]),
    ensures
        evaluate_each(sem, env, postfix_of_each(es)) == values_each(sem, env, es),
    decreases es.len(),
{
    if es.len() == 0 {
        assert(postfix_of_each(es) =~= Seq::empty());
    } else {
        let front = es.drop_last();
        assert forall|i: int| 0 <= i < front.len() implies grammatical(#[trigger] front[i])
            && well_called(env, front[i]) by {
            assert(front[i] == es[i]);
        }
        lemma_values_series(sem, env, front);
        assert(grammatical(es[es.len() - 1]) && well_called(env, es[es.len() - 1]));
        law_postfix_value(sem, env, es.last());
        assert(postfix_of_each(es).drop_last() =~= postfix_of_each(front));
        assert(postfix_of_each(es).last() == postfix_of(es.last()));
    }
}

/// In the writing of a series every literal is a run of literal
/// characters, and no literal follows another.
proof fn lemma_series_literals(es: Seq<Formula>, seps: Seq<PreToken<Seq<char>>>)
    requires
        series(es, seps),
        forall|i: int| 0 <= i < es.len() ==> lexable(#[trigger] es[i]),
    ensures
        literals_run(written_series(es, seps)),
        literals_apart(written_series(es, seps)),
    decreases es.len(),
{
    let e = es.last();
    assert(e == es[es.len() - 1]);
    assert(grammatical(e) && lexable(e));
    lemma_written_literals(e);
    if es.len() > 1 {
        let front = es.drop_last();
        lemma_series_front(es, seps);
        assert forall|i: int| 0 <= i < front.len() implies lexable(#[trigger] front[i]) by {
            assert(front[i] == es[i]);
        }
        lemma_series_literals(front, seps.drop_last());
        assert(separator(seps[seps.len() - 1]));
        lemma_join_apart(written_series(front, seps.drop_last()), seps.last(), written(e));
    }
}

/// A text of formulas of the grammar with a `,` or a `;` between each
/// two, and any white space around its lexemes, evaluates to the values of
/// the formulas, in the order of the text, or to the error of the first
/// formula that has one.
pub proof fn law_series_text_value(
    num: spec_fn(Seq<char>) -> Option<Value>,
    sem: Semantics,
    env: Env,
    es: Seq<Formula>,
    seps: Seq<PreToken<Seq<char>>>,
    gaps: Seq<Seq<char>>,
)
    requires
        series(es, seps),
        forall|i: int|
            0 <= i < es.len() ==> spelled(num, #[trigger] es[i]) && lexable(es[i]) && well_called(
                env,
                es[i],
            ),
        gaps.len() == written_series(es, seps).len() + 1,
        forall|i: int| 0 <= i < gaps.len() ==> all_blank(#[trigger] gaps[i]),
    ensures
        evaluate_text(num, sem, env, spelling(written_series(es, seps), gaps)) == values_each(
            sem,
            env,
            es,
        ),
{
    lemma_series_literals(es, seps);
    law_lexer_reads_spelling(written_series(es, seps), gaps);
    law_tokenizer_splits_series(num, es, seps);
    lemma_postfix_series(es);
    lemma_values_series(sem, env, es);
}

} // verus!
