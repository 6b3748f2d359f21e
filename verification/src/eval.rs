use crate::context::{empty_env, Context, Env};
use crate::error::{outcome, EvalError};
use crate::parse::{parse_str_to_rpn, programs, reads_as};
use crate::token::{builtin_arity, Function, Token, Value};
use vstd::prelude::*;

verus! {

/// The arithmetic: the value of an operator or a function applied to its
/// arguments, which come in the order of the text.
pub type Semantics = spec_fn(Token<Seq<char>>, Seq<Value>) -> Value;

/// The function `kernel` computes what `sem` says.
pub open spec fn computes<K: Fn(&Token, &[Value]) -> Value>(kernel: K, sem: Semantics) -> bool {
    forall|t: &Token, args: &[Value], r: Value| #[trigger]
        call_ensures(kernel, (t, args), r) ==> r == sem(t@, args@)
}

/// The function `kernel` can be called with every operator and function
/// that `env` knows, on as many arguments as it takes.
pub open spec fn accepts<K: Fn(&Token, &[Value]) -> Value>(kernel: K, env: Env) -> bool {
    forall|t: &Token, args: &[Value]|
        arity(env, t@) == Some(args@.len() as usize) ==> #[trigger] call_requires(
            kernel,
            (t, args),
        )
}

/// How many values a token takes from the stack: one for a unary and two
/// for a binary operator, the fixed number of a builtin function, and the
/// registered number of a custom function. `None` for every other token,
/// and for a custom function that is not registered.
pub open spec fn arity(env: Env, t: Token<Seq<char>>) -> Option<usize> {
    match t {
        Token::Unary(_) => Some(1),
        Token::Binary(_) => Some(2),
        Token::Function(Function::Custom(name)) => if env.funcs.contains_key(name) {
            Some(env.funcs[name])
        } else {
            None
        },
        Token::Function(f) => Some(builtin_arity(f)),
        _ => None,
    }
}

/// The stack with its top `n` values replaced by the value of `t` on them.
pub open spec fn applied(sem: Semantics, stack: Seq<Value>, t: Token<Seq<char>>, n: int) -> Seq<
    Value,
> {
    let below = stack.len() - n;
    stack.take(below).push(sem(t, stack.skip(below)))
}

/// One token of the stack machine. A number is pushed, and so is the value
/// of a variable. An operator or function takes its arguments from the top
/// of the stack and pushes its value.
pub open spec fn eval_token(sem: Semantics, env: Env, stack: Seq<Value>, t: Token<Seq<char>>) -> Result<
    Seq<Value>,
    EvalError<Seq<char>>,
> {
    match t {
        Token::Value(v) => Ok(stack.push(v)),
        Token::Var(name) => if env.values.contains_key(name) {
            Ok(stack.push(env.values[name]))
        } else {
            Err(EvalError::UndefinedVariable(name))
        },
        Token::Function(Function::Custom(name)) if !env.funcs.contains_key(name) => Err(
            EvalError::UndefinedFunction(name),
        ),
        _ => match arity(env, t) {
            Some(n) => if stack.len() < n {
                Err(EvalError::WrongExpression)
            } else {
                Ok(applied(sem, stack, t, n as int))
            },
            None => Err(EvalError::WrongExpression),
        },
    }
}

/// The stack after all of `tokens`, or the error of the first that fails.
pub open spec fn run(sem: Semantics, env: Env, tokens: Seq<Token<Seq<char>>>) -> Result<
    Seq<Value>,
    EvalError<Seq<char>>,
>
    decreases tokens.len(),
{
    if tokens.len() == 0 {
        Ok(Seq::empty())
    } else {
        match run(sem, env, tokens.drop_last()) {
            Ok(stack) => eval_token(sem, env, stack, tokens.last()),
            Err(e) => Err(e),
        }
    }
}

/// The value of a postfix program: the one value that it leaves on the stack.
pub open spec fn evaluate(sem: Semantics, env: Env, tokens: Seq<Token<Seq<char>>>) -> Result<
    Value,
    EvalError<Seq<char>>,
> {
    match run(sem, env, tokens) {
        Ok(stack) => if stack.len() == 1 {
            Ok(stack[0])
        } else {
            Err(EvalError::WrongExpression)
        },
        Err(e) => Err(e),
    }
}

/// Once a prefix fails to run, the whole program fails with the same error.
pub proof fn lemma_run_error_stays(sem: Semantics, env: Env, tokens: Seq<Token<Seq<char>>>, n: int)
    requires
        0 <= n <= tokens.len(),
        run(sem, env, tokens.take(n)) is Err,
    ensures
        run(sem, env, tokens) == run(sem, env, tokens.take(n)),
    decreases tokens.len() - n,
{
    if n < tokens.len() {
        let longer = tokens.take(n + 1);
        assert(longer.drop_last() =~= tokens.take(n));
        lemma_run_error_stays(sem, env, tokens, n + 1);
    } else {
        assert(tokens.take(n) =~= tokens);
    }
}

/// The number of values that the token takes from the stack.
pub fn operands(token: &Token, context: &Context) -> (r: Option<usize>)
    ensures
        r == arity(context@, token@),
{
    match token {
        Token::Unary(_) => Some(1),
        Token::Binary(_) => Some(2),
        Token::Function(Function::Custom(name)) => match context.get_func(name.as_str()) {
            Some(fc) => Some(fc.get_arg_len()),
            None => None,
        },
        Token::Function(f) => Some(f.num_args()),
        _ => None,
    }
}

/// Replaces the top `n` values of the stack by `value`, the result of the
/// operation that took them.
pub fn replace_top(stack: &mut Vec<Value>, n: usize, value: Value)
    requires
        n <= old(stack).len(),
    ensures
        final(stack)@ == old(stack)@.take(old(stack).len() - n).push(value),
{
    let below = stack.len() - n;
    stack.truncate(below);
    stack.push(value);
    assert(stack@ =~= old(stack)@.take(below as int).push(value));
}

/// The stack machine agrees with `run` on the first `i` tokens, whatever
/// the arithmetic is, as far as the height of the stack goes, and on the
/// values too for the arithmetic that the kernel computes.
pub open spec fn tracks<K: Fn(&Token, &[Value]) -> Value>(
    kernel: K,
    env: Env,
    tokens: Seq<Token<Seq<char>>>,
    stack: Seq<Value>,
) -> bool {
    forall|sem: Semantics|
        match #[trigger] run(sem, env, tokens) {
            Ok(s) => s.len() == stack.len() && (computes(kernel, sem) ==> s == stack),
            Err(_) => false,
        }
}

/// Runs a postfix program against the bindings of `context`. `kernel`
/// applies an operator or a function to its arguments.
///
/// For every arithmetic that the kernel computes, the result is the value
/// of the program under it. Whether the program has a value, and with which
/// error it fails, holds for every arithmetic, whatever the kernel returns.
pub fn eval_with_context<K: Fn(&Token, &[Value]) -> Value>(
    tokens: &[Token],
    context: &Context,
    kernel: &K,
) -> (r: Result<Value, EvalError>)
    requires
        accepts(*kernel, context@),
    ensures
        forall|sem: Semantics| #[trigger]
            computes(*kernel, sem) ==> outcome(r) == evaluate(sem, context@, tokens.deep_view()),
        forall|sem: Semantics|
            r is Ok ==> (#[trigger] evaluate(sem, context@, tokens.deep_view())) is Ok,
        forall|sem: Semantics|
            r is Err ==> (#[trigger] evaluate(sem, context@, tokens.deep_view())) == Err::<
                Value,
                EvalError<Seq<char>>,
            >(r->Err_0@),
{
    let ghost ts = tokens.deep_view();
    let ghost env = context@;
    let mut output: Vec<Value> = Vec::with_capacity(8);
    let mut i: usize = 0;
    assert(ts.take(0) =~= Seq::empty());
    while i < tokens.len()
        invariant
            i <= tokens.len(),
            ts == tokens.deep_view(),
            env == context@,
            accepts(*kernel, env),
            tracks(*kernel, env, ts.take(i as int), output@),
        decreases tokens.len() - i,
    {
        let token = &tokens[i];
        let ghost before = output@;
        let ghost upto = ts.take(i + 1);
        proof {
            assert(upto.drop_last() =~= ts.take(i as int));
            assert(upto.last() == token@);
        }
        let mut failure: Option<EvalError> = None;
        match token {
            Token::Value(v) => {
                output.push(*v);
            },
            Token::Var(name) => {
                match context.get_value(name.as_str()) {
                    Some(v) => {
                        output.push(*v);
                    },
                    None => {
                        failure = Some(EvalError::UndefinedVariable(name.clone()));
                    },
                }
            },
            _ => {
                match operands(token, context) {
                    Some(n) => {
                        let len = output.len();
                        if len < n {
                            failure = Some(EvalError::WrongExpression);
                        } else {
                            let args = vstd::slice::slice_subrange(output.as_slice(), len - n, len);
                            assert(args@ =~= before.skip(len - n));
                            let value = kernel(token, args);
                            replace_top(&mut output, n, value);
                            assert forall|sem: Semantics| #[trigger]
                                computes(*kernel, sem) implies output@ == applied(
                                sem,
                                before,
                                token@,
                                n as int,
                            ) by {}
                        }
                    },
                    None => {
                        failure = Some(
                            match token {
                                Token::Function(Function::Custom(name)) => {
                                    EvalError::UndefinedFunction(name.clone())
                                },
                                _ => EvalError::WrongExpression,
                            },
                        );
                    },
                }
            },
        }
        match failure {
            Some(e) => {
                proof {
                    assert forall|sem: Semantics|
                        (#[trigger] evaluate(sem, env, ts)) == Err::<Value, EvalError<Seq<char>>>(
                            e@,
                        ) by {
                        assert(run(sem, env, ts.take(i as int)) is Ok);
                        assert(run(sem, env, upto) == Err::<Seq<Value>, EvalError<Seq<char>>>(e@));
                        lemma_run_error_stays(sem, env, ts, i + 1);
                    }
                }
                return Err(e);
            },
            None => {
                proof {
                    assert forall|sem: Semantics|
                        match #[trigger] run(sem, env, upto) {
                            Ok(s) => s.len() == output@.len() && (computes(*kernel, sem) ==> s
                                == output@),
                            Err(_) => false,
                        } by {
                        assert(run(sem, env, ts.take(i as int)) is Ok);
                    }
                }
            },
        }
        i = i + 1;
    }
    assert(ts.take(ts.len() as int) =~= ts);
    proof {
        assert forall|sem: Semantics| (#[trigger] evaluate(sem, env, ts)) is Ok <==> output.len() == 1 by {
            assert(run(sem, env, ts) is Ok);
        }
    }
    if output.len() != 1 {
        Err(EvalError::WrongExpression)
    } else {
        Ok(output[0])
    }
}

/// Every token of the list is a number.
pub open spec fn all_values(tokens: Seq<Token<Seq<char>>>) -> bool {
    forall|i: int| 0 <= i < tokens.len() ==> #[trigger] tokens[i] is Value
}

/// The numbers of a list of number tokens.
pub open spec fn values_of(tokens: Seq<Token<Seq<char>>>) -> Seq<Value> {
    Seq::new(tokens.len(), |i: int| tokens[i]->Value_0)
}

/// The stack of tokens with its top `n`, which are numbers, replaced by
/// the value of `t` on them.
pub open spec fn folded(sem: Semantics, stack: Seq<Token<Seq<char>>>, t: Token<Seq<char>>, n: int) -> Seq<
    Token<Seq<char>>,
> {
    let below = stack.len() - n;
    stack.take(below).push(Token::Value(sem(t, values_of(stack.skip(below)))))
}

/// One token of the partial evaluator, which works on a stack of tokens.
/// A number is pushed; a variable is pushed as its value if it has one,
/// and as it is otherwise. An operator or function whose arguments are all
/// numbers on top of the stack is replaced, with them, by its value. If
/// some argument is not a number, or if the function is not registered,
/// the token is pushed and the stack below stays.
pub open spec fn reduce_token(
    sem: Semantics,
    env: Env,
    stack: Seq<Token<Seq<char>>>,
    t: Token<Seq<char>>,
) -> Result<Seq<Token<Seq<char>>>, EvalError<Seq<char>>> {
    match t {
        Token::Value(_) => Ok(stack.push(t)),
        Token::Var(name) => if env.values.contains_key(name) {
            Ok(stack.push(Token::Value(env.values[name])))
        } else {
            Ok(stack.push(t))
        },
        Token::Function(Function::Custom(name)) if !env.funcs.contains_key(name) => Ok(
            stack.push(t),
        ),
        _ => match arity(env, t) {
            Some(n) => if stack.len() < n {
                Err(EvalError::WrongExpression)
            } else if all_values(stack.skip(stack.len() - n)) {
                Ok(folded(sem, stack, t, n as int))
            } else {
                Ok(stack.push(t))
            },
            None => Err(EvalError::WrongExpression),
        },
    }
}

/// The program that partial evaluation makes of `tokens`: the stack of
/// tokens after the last one, or the error of the first that fails.
pub open spec fn reduced(sem: Semantics, env: Env, tokens: Seq<Token<Seq<char>>>) -> Result<
    Seq<Token<Seq<char>>>,
    EvalError<Seq<char>>,
>
    decreases tokens.len(),
{
    if tokens.len() == 0 {
        Ok(Seq::empty())
    } else {
        match reduced(sem, env, tokens.drop_last()) {
            Ok(stack) => reduce_token(sem, env, stack, tokens.last()),
            Err(e) => Err(e),
        }
    }
}

/// Once a prefix fails to reduce, the whole program fails with the same error.
pub proof fn lemma_reduce_error_stays(
    sem: Semantics,
    env: Env,
    tokens: Seq<Token<Seq<char>>>,
    n: int,
)
    requires
        0 <= n <= tokens.len(),
        reduced(sem, env, tokens.take(n)) is Err,
    ensures
        reduced(sem, env, tokens) == reduced(sem, env, tokens.take(n)),
    decreases tokens.len() - n,
{
    if n < tokens.len() {
        let longer = tokens.take(n + 1);
        assert(longer.drop_last() =~= tokens.take(n));
        lemma_reduce_error_stays(sem, env, tokens, n + 1);
    } else {
        assert(tokens.take(n) =~= tokens);
    }
}

/// Two stacks of tokens of one height that hold numbers at the same places.
pub open spec fn same_shape(a: Seq<Token<Seq<char>>>, b: Seq<Token<Seq<char>>>) -> bool {
    &&& a.len() == b.len()
    &&& forall|i: int| 0 <= i < a.len() ==> (#[trigger] a[i] is Value <==> b[i] is Value)
}

/// The partial evaluator agrees with `reduced` on the tokens read so far,
/// whatever the arithmetic is, as far as the shape of the stack goes, and
/// on the tokens too for the arithmetic that the kernel computes.
pub open spec fn tracks_reduction<K: Fn(&Token, &[Value]) -> Value>(
    kernel: K,
    env: Env,
    tokens: Seq<Token<Seq<char>>>,
    stack: Seq<Token<Seq<char>>>,
) -> bool {
    forall|sem: Semantics|
        match #[trigger] reduced(sem, env, tokens) {
            Ok(s) => same_shape(s, stack) && (computes(kernel, sem) ==> s == stack),
            Err(_) => false,
        }
}

fn push_token(tokens: &mut Vec<Token>, t: Token)
    ensures
        final(tokens).deep_view() == old(tokens).deep_view().push(t@),
        final(tokens).len() == old(tokens).len() + 1,
{
    tokens.push(t);
    assert(tokens.deep_view() =~= old(tokens).deep_view().push(t@));
}

/// The top `n` tokens of the stack as numbers, if all of them are numbers.
pub fn top_values(stack: &Vec<Token>, n: usize) -> (r: Option<Vec<Value>>)
    requires
        n <= stack.len(),
    ensures
        (r is Some) == all_values(stack.deep_view().skip(stack.len() - n)),
        r is Some ==> r->Some_0@ == values_of(stack.deep_view().skip(stack.len() - n)),
{
    let below = stack.len() - n;
    let ghost top = stack.deep_view().skip(below as int);
    let mut args: Vec<Value> = Vec::with_capacity(n);
    let mut j: usize = 0;
    while j < n
        invariant
            j <= n,
            below + n == stack.len(),
            top == stack.deep_view().skip(below as int),
            args@ == values_of(top.take(j as int)),
            all_values(top.take(j as int)),
        decreases n - j,
    {
        match &stack[below + j] {
            Token::Value(v) => {
                args.push(*v);
                assert(top[j as int] == stack[below + j]@);
                assert(args@ =~= values_of(top.take(j + 1)));
            },
            _ => {
                assert(top[j as int] == stack[below + j]@);
                assert(!(top[j as int] is Value));
                return None;
            },
        }
        j = j + 1;
    }
    assert(top.take(n as int) =~= top);
    Some(args)
}

/// Replaces the top `n` tokens of the stack by the number `value`, the
/// result of the operation that took them.
pub fn replace_top_tokens(stack: &mut Vec<Token>, n: usize, value: Value)
    requires
        n <= old(stack).len(),
    ensures
        final(stack).deep_view() == old(stack).deep_view().take(old(stack).len() - n).push(
            Token::Value(value),
        ),
{
    let below = stack.len() - n;
    stack.truncate(below);
    stack.push(Token::Value(value));
    assert(stack.deep_view() =~= old(stack).deep_view().take(below as int).push(
        Token::Value(value),
    ));
}

/// Reduces a postfix program against the bindings of `context`: whatever
/// can be computed from them is replaced by its value, and the rest is
/// kept as it is. `kernel` applies an operator or a function to its
/// arguments.
///
/// For every arithmetic that the kernel computes, the result is the
/// reduction of the program under it. Whether the reduction fails holds
/// for every arithmetic, whatever the kernel returns.
pub fn partial_eval_with_context<K: Fn(&Token, &[Value]) -> Value>(
    tokens: &[Token],
    context: &Context,
    kernel: &K,
) -> (r: Result<Vec<Token>, EvalError>)
    requires
        accepts(*kernel, context@),
    ensures
        forall|sem: Semantics| #[trigger]
            computes(*kernel, sem) ==> outcome(r) == reduced(sem, context@, tokens.deep_view()),
        forall|sem: Semantics|
            r is Ok ==> (#[trigger] reduced(sem, context@, tokens.deep_view())) is Ok,
        forall|sem: Semantics|
            r is Err ==> (#[trigger] reduced(sem, context@, tokens.deep_view())) == Err::<
                Seq<Token<Seq<char>>>,
                EvalError<Seq<char>>,
            >(r->Err_0@),
{
    let ghost ts = tokens.deep_view();
    let ghost env = context@;
    let mut output: Vec<Token> = Vec::with_capacity(8);
    let mut i: usize = 0;
    assert(ts.take(0) =~= Seq::empty());
    assert(output.deep_view() =~= Seq::empty());
    while i < tokens.len()
        invariant
            i <= tokens.len(),
            ts == tokens.deep_view(),
            env == context@,
            accepts(*kernel, env),
            tracks_reduction(*kernel, env, ts.take(i as int), output.deep_view()),
        decreases tokens.len() - i,
    {
        let token = &tokens[i];
        let ghost before = output.deep_view();
        let ghost upto = ts.take(i + 1);
        proof {
            assert(upto.drop_last() =~= ts.take(i as int));
            assert(upto.last() == token@);
        }
        let mut failed = false;
        match token {
            Token::Value(_) => {
                push_token(&mut output, token.duplicate());
            },
            Token::Var(name) => {
                match context.get_value(name.as_str()) {
                    Some(v) => {
                        push_token(&mut output, Token::Value(*v));
                    },
                    None => {
                        push_token(&mut output, token.duplicate());
                    },
                }
            },
            _ => {
                match operands(token, context) {
                    Some(n) => {
                        let len = output.len();
                        if len < n {
                            failed = true;
                        } else {
                            match top_values(&output, n) {
                                Some(args) => {
                                    let value = kernel(token, args.as_slice());
                                    replace_top_tokens(&mut output, n, value);
                                    proof {
                                        assert forall|sem: Semantics|
                                            match #[trigger] reduced(sem, env, upto) {
                                                Ok(s) => same_shape(s, output.deep_view()) && (
                                                computes(*kernel, sem) ==> s == output.deep_view()),
                                                Err(_) => false,
                                            } by {
                                            let s = reduced(sem, env, ts.take(i as int))->Ok_0;
                                            assert(reduced(sem, env, ts.take(i as int)) is Ok);
                                            lemma_same_shape_top(s, before, n as int);
                                        }
                                    }
                                },
                                None => {
                                    push_token(&mut output, token.duplicate());
                                    proof {
                                        assert forall|sem: Semantics|
                                            match #[trigger] reduced(sem, env, upto) {
                                                Ok(s) => same_shape(s, output.deep_view()) && (
                                                computes(*kernel, sem) ==> s == output.deep_view()),
                                                Err(_) => false,
                                            } by {
                                            let s = reduced(sem, env, ts.take(i as int))->Ok_0;
                                            assert(reduced(sem, env, ts.take(i as int)) is Ok);
                                            lemma_same_shape_top(s, before, n as int);
                                        }
                                    }
                                },
                            }
                        }
                    },
                    None => {
                        match token {
                            Token::Function(Function::Custom(_)) => {
                                push_token(&mut output, token.duplicate());
                            },
                            _ => {
                                failed = true;
                            },
                        }
                    },
                }
            },
        }
        if failed {
            proof {
                assert forall|sem: Semantics|
                    (#[trigger] reduced(sem, env, ts)) == Err::<
                        Seq<Token<Seq<char>>>,
                        EvalError<Seq<char>>,
                    >(EvalError::WrongExpression) by {
                    assert(reduced(sem, env, ts.take(i as int)) is Ok);
                    assert(reduced(sem, env, upto) is Err);
                    lemma_reduce_error_stays(sem, env, ts, i + 1);
                }
            }
            return Err(EvalError::WrongExpression);
        }
        proof {
            assert forall|sem: Semantics|
                match #[trigger] reduced(sem, env, upto) {
                    Ok(s) => same_shape(s, output.deep_view()) && (computes(*kernel, sem) ==> s
                        == output.deep_view()),
                    Err(_) => false,
                } by {
                assert(reduced(sem, env, ts.take(i as int)) is Ok);
            }
        }
        i = i + 1;
    }
    assert(ts.take(ts.len() as int) =~= ts);
    proof {
        assert forall|sem: Semantics| (#[trigger] reduced(sem, env, ts)) is Ok by {}
    }
    Ok(output)
}

/// Stacks of the same shape have numbers in the same places of their tops.
pub proof fn lemma_same_shape_top(a: Seq<Token<Seq<char>>>, b: Seq<Token<Seq<char>>>, n: int)
    requires
        same_shape(a, b),
        0 <= n <= a.len(),
    ensures
        all_values(a.skip(a.len() - n)) == all_values(b.skip(b.len() - n)),
{
    let below = a.len() - n;
    if all_values(a.skip(below)) {
        assert forall|i: int| 0 <= i < n implies #[trigger] b.skip(below)[i] is Value by {
            assert(a.skip(below)[i] is Value);
            assert(a[below + i] is Value);
        }
    }
    if all_values(b.skip(below)) {
        assert forall|i: int| 0 <= i < n implies #[trigger] a.skip(below)[i] is Value by {
            assert(b.skip(below)[i] is Value);
            assert(a[below + i] is Value <==> b[below + i] is Value);
        }
    }
}

/// Runs a postfix program that has no bindings to go by: every variable
/// and every custom function in it is undefined.
pub fn eval<K: Fn(&Token, &[Value]) -> Value>(tokens: &[Token], kernel: &K) -> (r: Result<
    Value,
    EvalError,
>)
    requires
        accepts(*kernel, empty_env()),
    ensures
        forall|sem: Semantics| #[trigger]
            computes(*kernel, sem) ==> outcome(r) == evaluate(sem, empty_env(), tokens.deep_view()),
        forall|sem: Semantics|
            r is Ok ==> (#[trigger] evaluate(sem, empty_env(), tokens.deep_view())) is Ok,
        forall|sem: Semantics|
            r is Err ==> (#[trigger] evaluate(sem, empty_env(), tokens.deep_view())) == Err::<
                Value,
                EvalError<Seq<char>>,
            >(r->Err_0@),
{
    let context = Context::new();
    eval_with_context(tokens, &context, kernel)
}

/// Reduces a postfix program that has no bindings to go by: only what is
/// made of numbers alone is replaced by its value.
pub fn partial_eval<K: Fn(&Token, &[Value]) -> Value>(tokens: &[Token], kernel: &K) -> (r: Result<
    Vec<Token>,
    EvalError,
>)
    requires
        accepts(*kernel, empty_env()),
    ensures
        forall|sem: Semantics| #[trigger]
            computes(*kernel, sem) ==> outcome(r) == reduced(sem, empty_env(), tokens.deep_view()),
        forall|sem: Semantics|
            r is Ok ==> (#[trigger] reduced(sem, empty_env(), tokens.deep_view())) is Ok,
        forall|sem: Semantics|
            r is Err ==> (#[trigger] reduced(sem, empty_env(), tokens.deep_view())) == Err::<
                Seq<Token<Seq<char>>>,
                EvalError<Seq<char>>,
            >(r->Err_0@),
{
    let context = Context::new();
    partial_eval_with_context(tokens, &context, kernel)
}

/// The values of programs: of each in turn, or the error of the first that
/// has one.
pub open spec fn evaluate_each(sem: Semantics, env: Env, programs: Seq<Seq<Token<Seq<char>>>>) -> Result<
    Seq<Value>,
    EvalError<Seq<char>>,
>
    decreases programs.len(),
{
    if programs.len() == 0 {
        Ok(Seq::empty())
    } else {
        match evaluate_each(sem, env, programs.drop_last()) {
            Ok(values) => match evaluate(sem, env, programs.last()) {
                Ok(v) => Ok(values.push(v)),
                Err(e) => Err(e),
            },
            Err(e) => Err(e),
        }
    }
}

/// Once a prefix of the programs has an error, the whole list has it.
pub proof fn lemma_evaluate_error_stays(
    sem: Semantics,
    env: Env,
    programs: Seq<Seq<Token<Seq<char>>>>,
    n: int,
)
    requires
        0 <= n <= programs.len(),
        evaluate_each(sem, env, programs.take(n)) is Err,
    ensures
        evaluate_each(sem, env, programs) == evaluate_each(sem, env, programs.take(n)),
    decreases programs.len() - n,
{
    if n < programs.len() {
        let longer = programs.take(n + 1);
        assert(longer.drop_last() =~= programs.take(n));
        lemma_evaluate_error_stays(sem, env, programs, n + 1);
    } else {
        assert(programs.take(n) =~= programs);
    }
}

/// Runs each program against the bindings of `context`, in order, up to
/// the first that fails.
pub fn evals_with_context<K: Fn(&Token, &[Value]) -> Value>(
    programs: &Vec<Vec<Token>>,
    context: &Context,
    kernel: &K,
) -> (r: Result<Vec<Value>, EvalError>)
    requires
        accepts(*kernel, context@),
    ensures
        forall|sem: Semantics| #[trigger]
            computes(*kernel, sem) ==> outcome(r) == evaluate_each(
                sem,
                context@,
                programs.deep_view(),
            ),
        forall|sem: Semantics|
            r is Ok ==> (#[trigger] evaluate_each(sem, context@, programs.deep_view())) is Ok,
        forall|sem: Semantics|
            r is Err ==> (#[trigger] evaluate_each(sem, context@, programs.deep_view())) == Err::<
                Seq<Value>,
                EvalError<Seq<char>>,
            >(r->Err_0@),
{
    let ghost ps = programs.deep_view();
    let ghost env = context@;
    let mut values: Vec<Value> = Vec::new();
    let mut i: usize = 0;
    assert(ps.take(0) =~= Seq::empty());
    while i < programs.len()
        invariant
            i <= programs.len(),
            ps == programs.deep_view(),
            env == context@,
            accepts(*kernel, env),
            forall|sem: Semantics|
                match #[trigger] evaluate_each(sem, env, ps.take(i as int)) {
                    Ok(vs) => vs.len() == values.len() && (computes(*kernel, sem) ==> vs
                        == values@),
                    Err(_) => false,
                },
        decreases programs.len() - i,
    {
        let ghost upto = ps.take(i + 1);
        let ghost before = values@;
        proof {
            assert(upto.drop_last() =~= ps.take(i as int));
            assert(upto.last() == programs[i as int].deep_view());
        }
        match eval_with_context(programs[i].as_slice(), context, kernel) {
            Ok(v) => {
                values.push(v);
                proof {
                    assert forall|sem: Semantics|
                        match #[trigger] evaluate_each(sem, env, upto) {
                            Ok(vs) => vs.len() == values.len() && (computes(*kernel, sem) ==> vs
                                == values@),
                            Err(_) => false,
                        } by {
                        assert(evaluate_each(sem, env, ps.take(i as int)) is Ok);
                        assert(evaluate(sem, env, upto.last()) is Ok);
                        if computes(*kernel, sem) {
                            assert(evaluate(sem, env, upto.last()) == Ok::<
                                Value,
                                EvalError<Seq<char>>,
                            >(v));
                        }
                    }
                }
            },
            Err(e) => {
                proof {
                    assert forall|sem: Semantics|
                        (#[trigger] evaluate_each(sem, env, ps)) == Err::<
                            Seq<Value>,
                            EvalError<Seq<char>>,
                        >(e@) by {
                        assert(evaluate_each(sem, env, ps.take(i as int)) is Ok);
                        assert(evaluate(sem, env, upto.last()) == Err::<
                            Value,
                            EvalError<Seq<char>>,
                        >(e@));
                        lemma_evaluate_error_stays(sem, env, ps, i + 1);
                    }
                }
                return Err(e);
            },
        }
        i = i + 1;
    }
    assert(ps.take(ps.len() as int) =~= ps);
    assert(values.deep_view() =~= values@);
    Ok(values)
}

/// The values of the statements of a text, where `num` reads numbers and
/// `sem` is the arithmetic.
pub open spec fn evaluate_text(
    num: spec_fn(Seq<char>) -> Option<Value>,
    sem: Semantics,
    env: Env,
    text: Seq<char>,
) -> Result<Seq<Value>, EvalError<Seq<char>>> {
    match programs(num, text) {
        Ok(ps) => evaluate_each(sem, env, ps),
        Err(e) => Err(e),
    }
}

/// Evaluates the statements of a text against the bindings of `context`.
/// `number` reads a literal's text as a number, or says that it is none;
/// `kernel` applies an operator or a function to its arguments.
pub fn eval_from_str_with_context<N: Fn(&str) -> Option<Value>, K: Fn(&Token, &[Value]) -> Value>(
    expr: &str,
    context: &Context,
    number: &N,
    kernel: &K,
) -> (r: Result<Vec<Value>, EvalError>)
    requires
        forall|text: &str| call_requires(*number, (text,)),
        accepts(*kernel, context@),
    ensures
        forall|num: spec_fn(Seq<char>) -> Option<Value>, sem: Semantics|
            #![trigger reads_as(*number, num), computes(*kernel, sem)]
            reads_as(*number, num) && computes(*kernel, sem) ==> outcome(r) == evaluate_text(
                num,
                sem,
                context@,
                expr@,
            ),
        forall|num: spec_fn(Seq<char>) -> Option<Value>, sem: Semantics|
            reads_as(*number, num) && r is Ok ==> (#[trigger] evaluate_text(
                num,
                sem,
                context@,
                expr@,
            )) is Ok,
        forall|num: spec_fn(Seq<char>) -> Option<Value>, sem: Semantics|
            reads_as(*number, num) && r is Err ==> (#[trigger] evaluate_text(
                num,
                sem,
                context@,
                expr@,
            )) == Err::<Seq<Value>, EvalError<Seq<char>>>(r->Err_0@),
{
    match parse_str_to_rpn(expr, number) {
        Ok(tokens_vec) => evals_with_context(&tokens_vec, context, kernel),
        Err(e) => Err(e),
    }
}

/// Evaluates the statements of a text that has no bindings to go by.
pub fn eval_from_str<N: Fn(&str) -> Option<Value>, K: Fn(&Token, &[Value]) -> Value>(
    expr: &str,
    number: &N,
    kernel: &K,
) -> (r: Result<Vec<Value>, EvalError>)
    requires
        forall|text: &str| call_requires(*number, (text,)),
        accepts(*kernel, empty_env()),
    ensures
        forall|num: spec_fn(Seq<char>) -> Option<Value>, sem: Semantics|
            #![trigger reads_as(*number, num), computes(*kernel, sem)]
            reads_as(*number, num) && computes(*kernel, sem) ==> outcome(r) == evaluate_text(
                num,
                sem,
                empty_env(),
                expr@,
            ),
        forall|num: spec_fn(Seq<char>) -> Option<Value>, sem: Semantics|
            reads_as(*number, num) && r is Ok ==> (#[trigger] evaluate_text(
                num,
                sem,
                empty_env(),
                expr@,
            )) is Ok,
        forall|num: spec_fn(Seq<char>) -> Option<Value>, sem: Semantics|
            reads_as(*number, num) && r is Err ==> (#[trigger] evaluate_text(
                num,
                sem,
                empty_env(),
                expr@,
            )) == Err::<Seq<Value>, EvalError<Seq<char>>>(r->Err_0@),
{
    let context = Context::new();
    eval_from_str_with_context(expr, &context, number, kernel)
}

} // verus!
