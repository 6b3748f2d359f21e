use crate::context::Env;
use crate::error::EvalError;
use crate::eval::{
    all_values, arity, eval_token, evaluate, folded, lemma_same_shape_top, reduce_token, reduced,
    run, same_shape, values_of, Semantics,
};
use crate::expr::joined;
use crate::grammar::{lemma_run_is_run_on, lemma_run_on_concat, lemma_run_on_one, run_on};
use crate::token::{BinaryOp, Function, Token, UnaryOp, Value};
use vstd::prelude::*;

verus! {

/// Every binding of `small` is a binding of `large`.
pub open spec fn extends(large: Env, small: Env) -> bool {
    &&& small.values.submap_of(large.values)
    &&& small.funcs.submap_of(large.funcs)
}

/// Running a program that ends in numbers runs what comes before them and
/// then pushes the numbers.
pub proof fn lemma_run_values(sem: Semantics, env: Env, tokens: Seq<Token<Seq<char>>>, k: int)
    requires
        0 <= k <= tokens.len(),
        all_values(tokens.skip(k)),
    ensures
        run(sem, env, tokens) == match run(sem, env, tokens.take(k)) {
            Ok(stack) => Ok(stack + values_of(tokens.skip(k))),
            Err(e) => Err(e),
        },
    decreases tokens.len() - k,
{
    if k == tokens.len() {
        assert(tokens.take(k) =~= tokens);
        match run(sem, env, tokens) {
            Ok(stack) => {
                assert(stack + values_of(tokens.skip(k)) =~= stack);
            },
            Err(_) => {},
        }
    } else {
        let shorter = tokens.drop_last();
        assert(tokens.skip(k)[tokens.len() - 1 - k] is Value);
        assert(tokens.last() is Value);
        assert forall|i: int| 0 <= i < shorter.skip(k).len() implies #[trigger] shorter.skip(
            k,
        )[i] is Value by {
            assert(tokens.skip(k)[i] is Value);
        }
        lemma_run_values(sem, env, shorter, k);
        assert(shorter.take(k) =~= tokens.take(k));
        match run(sem, env, tokens.take(k)) {
            Ok(stack) => {
                assert((stack + values_of(shorter.skip(k))).push(tokens.last()->Value_0) =~= stack
                    + values_of(tokens.skip(k)));
            },
            Err(_) => {},
        }
    }
}

/// Partial evaluation keeps the value: a program that was reduced against
/// some bindings evaluates, against any bindings that extend them, to what
/// the program itself evaluates to, be it a value or an error.
pub proof fn law_reduction_keeps_value(
    sem: Semantics,
    known: Env,
    later: Env,
    program: Seq<Token<Seq<char>>>,
)
    requires
        extends(later, known),
        reduced(sem, known, program) is Ok,
    ensures
        evaluate(sem, later, reduced(sem, known, program)->Ok_0) == evaluate(sem, later, program),
{
    lemma_reduction_keeps_run(sem, known, later, program);
}

/// The stack machine cannot tell a program from its reduction.
pub proof fn lemma_reduction_keeps_run(
    sem: Semantics,
    known: Env,
    later: Env,
    program: Seq<Token<Seq<char>>>,
)
    requires
        extends(later, known),
        reduced(sem, known, program) is Ok,
    ensures
        run(sem, later, reduced(sem, known, program)->Ok_0) == run(sem, later, program),
    decreases program.len(),
{
    if program.len() > 0 {
        let t = program.last();
        let before = reduced(sem, known, program.drop_last())->Ok_0;
        let after = reduced(sem, known, program)->Ok_0;
        lemma_reduction_keeps_run(sem, known, later, program.drop_last());
        assert(after == reduce_token(sem, known, before, t)->Ok_0);
        if after == before.push(t) {
            assert(after.drop_last() =~= before);
        } else {
            match t {
                Token::Var(name) => {
                    assert(known.values.contains_key(name));
                    assert(later.values.contains_key(name));
                    assert(after.drop_last() =~= before);
                },
                _ => {
                    let n = arity(known, t)->Some_0 as int;
                    let below = before.len() - n;
                    match t {
                        Token::Function(Function::Custom(name)) => {
                            assert(known.funcs.contains_key(name));
                            assert(later.funcs.contains_key(name));
                        },
                        _ => {},
                    }
                    assert(arity(later, t) == arity(known, t));
                    assert(after == folded(sem, before, t, n));
                    assert(after.drop_last() =~= before.take(below));
                    lemma_run_values(sem, later, before, below);
                    match run(sem, later, before.take(below)) {
                        Ok(stack) => {
                            let full = stack + values_of(before.skip(below));
                            assert(full.take(full.len() - n) =~= stack);
                            assert(full.skip(full.len() - n) =~= values_of(before.skip(below)));
                        },
                        Err(_) => {},
                    }
                },
            }
        }
    }
}

/// A program that came out of partial evaluation is reduced: partial
/// evaluation against the same bindings leaves it as it is.
pub proof fn law_reduction_idempotent(sem: Semantics, env: Env, program: Seq<Token<Seq<char>>>)
    requires
        reduced(sem, env, program) is Ok,
    ensures
        reduced(sem, env, reduced(sem, env, program)->Ok_0) == reduced(sem, env, program),
    decreases program.len(),
{
    if program.len() > 0 {
        let t = program.last();
        let before = reduced(sem, env, program.drop_last())->Ok_0;
        let after = reduced(sem, env, program)->Ok_0;
        law_reduction_idempotent(sem, env, program.drop_last());
        assert(after == reduce_token(sem, env, before, t)->Ok_0);
        if after == before.push(t) {
            assert(after.drop_last() =~= before);
        } else {
            match t {
                Token::Var(name) => {
                    assert(after.drop_last() =~= before);
                },
                _ => {
                    let n = arity(env, t)->Some_0 as int;
                    let below = before.len() - n;
                    assert(after == folded(sem, before, t, n));
                    assert(after.drop_last() =~= before.take(below));
                    lemma_reduced_prefix(sem, env, before, below);
                },
            }
        }
    }
}

/// If a program that ends in numbers is reduced, so is what comes before them.
pub proof fn lemma_reduced_prefix(sem: Semantics, env: Env, tokens: Seq<Token<Seq<char>>>, k: int)
    requires
        0 <= k <= tokens.len(),
        all_values(tokens.skip(k)),
        reduced(sem, env, tokens) == Ok::<Seq<Token<Seq<char>>>, EvalError<Seq<char>>>(tokens),
    ensures
        reduced(sem, env, tokens.take(k)) == Ok::<Seq<Token<Seq<char>>>, EvalError<Seq<char>>>(
            tokens.take(k),
        ),
    decreases tokens.len() - k,
{
    if k == tokens.len() {
        assert(tokens.take(k) =~= tokens);
    } else {
        let shorter = tokens.drop_last();
        assert(tokens.skip(k)[tokens.len() - 1 - k] is Value);
        assert(tokens.last() is Value);
        let inner = reduced(sem, env, shorter);
        assert(inner is Ok);
        assert(inner->Ok_0.push(tokens.last()) == tokens);
        assert(inner->Ok_0 =~= tokens.drop_last());
        assert forall|i: int| 0 <= i < shorter.skip(k).len() implies #[trigger] shorter.skip(
            k,
        )[i] is Value by {
            assert(tokens.skip(k)[i] is Value);
        }
        lemma_reduced_prefix(sem, env, shorter, k);
        assert(shorter.take(k) =~= tokens.take(k));
    }
}

/// A program that runs from the empty stack runs from every stack, and
/// leaves below its values what was there.
pub proof fn lemma_run_framed(
    sem: Semantics,
    env: Env,
    below: Seq<Value>,
    program: Seq<Token<Seq<char>>>,
)
    requires
        run(sem, env, program) is Ok,
    ensures
        run_on(sem, env, below, program) == Ok::<Seq<Value>, EvalError<Seq<char>>>(
            below + run(sem, env, program)->Ok_0,
        ),
    decreases program.len(),
{
    if program.len() == 0 {
        assert(below + run(sem, env, program)->Ok_0 =~= below);
    } else {
        let t = program.last();
        let s = run(sem, env, program.drop_last())->Ok_0;
        lemma_run_framed(sem, env, below, program.drop_last());
        let after = eval_token(sem, env, s, t)->Ok_0;
        match arity(env, t) {
            Some(n) => {
                let full = below + s;
                assert(full.take(full.len() - n) =~= below + s.take(s.len() - n));
                assert(full.skip(full.len() - n) =~= s.skip(s.len() - n));
                assert(eval_token(sem, env, full, t)->Ok_0 =~= below + after);
            },
            None => {
                assert(eval_token(sem, env, below + s, t)->Ok_0 =~= below + after);
            },
        }
    }
}

/// Two programs that have values, followed by a binary operator, are a
/// program whose value is that of the operator on the two values.
pub proof fn law_joined_value(
    sem: Semantics,
    env: Env,
    left: Seq<Token<Seq<char>>>,
    right: Seq<Token<Seq<char>>>,
    op: BinaryOp,
)
    requires
        evaluate(sem, env, left) is Ok,
        evaluate(sem, env, right) is Ok,
    ensures
        evaluate(sem, env, joined(left, right, Token::Binary(op))) == Ok::<
            Value,
            EvalError<Seq<char>>,
        >(
            sem(
                Token::Binary(op),
                seq![evaluate(sem, env, left)->Ok_0, evaluate(sem, env, right)->Ok_0],
            ),
        ),
{
    let t = Token::Binary(op);
    let a = evaluate(sem, env, left)->Ok_0;
    let b = evaluate(sem, env, right)->Ok_0;
    let whole = joined(left, right, t);
    assert(whole =~= (left + right) + seq![t]);
    lemma_run_is_run_on(sem, env, whole);
    lemma_run_is_run_on(sem, env, left);
    lemma_run_on_concat(sem, env, Seq::empty(), left + right, seq![t]);
    lemma_run_on_concat(sem, env, Seq::empty(), left, right);
    assert(run(sem, env, left)->Ok_0 =~= seq![a]);
    assert(run(sem, env, right)->Ok_0 =~= seq![b]);
    lemma_run_framed(sem, env, seq![a], right);
    let both = seq![a] + seq![b];
    lemma_run_on_one(sem, env, both, t);
    assert(both.take(both.len() - 2) =~= Seq::empty());
    assert(both.skip(both.len() - 2) =~= seq![a, b]);
}

/// A program that has a value, followed by a unary minus, is a program
/// whose value is the negation of that value.
pub proof fn law_negated_value(sem: Semantics, env: Env, program: Seq<Token<Seq<char>>>)
    requires
        evaluate(sem, env, program) is Ok,
    ensures
        evaluate(sem, env, program.push(Token::Unary(UnaryOp::Neg))) == Ok::<
            Value,
            EvalError<Seq<char>>,
        >(sem(Token::Unary(UnaryOp::Neg), seq![evaluate(sem, env, program)->Ok_0])),
{
    let t = Token::Unary(UnaryOp::Neg);
    let a = evaluate(sem, env, program)->Ok_0;
    let whole = program.push(t);
    assert(whole.drop_last() =~= program);
    let s = run(sem, env, program)->Ok_0;
    assert(s =~= seq![a]);
    assert(s.take(s.len() - 1) =~= Seq::empty());
    assert(s.skip(s.len() - 1) =~= seq![a]);
}

/// Whether a program runs, and how high it leaves the stack, does not
/// depend on the arithmetic; nor does the error of one that fails.
pub proof fn lemma_run_shape(
    first: Semantics,
    second: Semantics,
    env: Env,
    program: Seq<Token<Seq<char>>>,
)
    ensures
        match run(first, env, program) {
            Ok(s) => run(second, env, program) is Ok && run(second, env, program)->Ok_0.len()
                == s.len(),
            Err(e) => run(second, env, program) == Err::<Seq<Value>, EvalError<Seq<char>>>(e),
        },
    decreases program.len(),
{
    if program.len() > 0 {
        lemma_run_shape(first, second, env, program.drop_last());
    }
}

/// Whether a program has a value does not depend on the arithmetic, and
/// the error of one that has none does not either.
pub proof fn law_failure_is_not_arithmetic(
    first: Semantics,
    second: Semantics,
    env: Env,
    program: Seq<Token<Seq<char>>>,
)
    ensures
        evaluate(first, env, program) is Ok <==> evaluate(second, env, program) is Ok,
        evaluate(first, env, program) is Err ==> evaluate(second, env, program) == Err::<
            Value,
            EvalError<Seq<char>>,
        >(evaluate(first, env, program)->Err_0),
{
    lemma_run_shape(first, second, env, program);
}

/// Partial evaluation fails only where the stack is too short for a token
/// or the token is none that a program can hold: a name that is not bound
/// is never an error.
pub proof fn law_reduction_fails_on_shape_only(
    sem: Semantics,
    env: Env,
    program: Seq<Token<Seq<char>>>,
)
    requires
        reduced(sem, env, program) is Err,
    ensures
        reduced(sem, env, program) == Err::<Seq<Token<Seq<char>>>, EvalError<Seq<char>>>(
            EvalError::WrongExpression,
        ),
    decreases program.len(),
{
    if program.len() > 0 && reduced(sem, env, program.drop_last()) is Err {
        law_reduction_fails_on_shape_only(sem, env, program.drop_last());
    }
}

/// Whether partial evaluation fails, and where the reduced program holds
/// numbers, does not depend on the arithmetic.
pub proof fn law_reduction_shape_is_not_arithmetic(
    first: Semantics,
    second: Semantics,
    env: Env,
    program: Seq<Token<Seq<char>>>,
)
    ensures
        match reduced(first, env, program) {
            Ok(s) => reduced(second, env, program) is Ok && same_shape(
                s,
                reduced(second, env, program)->Ok_0,
            ),
            Err(e) => reduced(second, env, program) == Err::<
                Seq<Token<Seq<char>>>,
                EvalError<Seq<char>>,
            >(e),
        },
    decreases program.len(),
{
    if program.len() > 0 {
        let t = program.last();
        law_reduction_shape_is_not_arithmetic(first, second, env, program.drop_last());
        match reduced(first, env, program.drop_last()) {
            Ok(a) => {
                let b = reduced(second, env, program.drop_last())->Ok_0;
                match arity(env, t) {
                    Some(n) => {
                        if a.len() >= n {
                            lemma_same_shape_top(a, b, n as int);
                        }
                    },
                    None => {},
                }
            },
            Err(_) => {},
        }
    }
}

} // verus!
