use crate::context::Env;
use crate::error::EvalError;
use crate::eval::{arity, eval_token, evaluate, evaluate_each, evaluate_text, run, Semantics};
use crate::parse::{
    ends_operand, flushed, holds_paren, is_paren, lexemes, literal_token, number_of, paren_at,
    postfix, postfix_each, programs, scan_char, scanned, shunt, shunted, split_lexeme, split_upto,
    statements, symbol_of, unwound, Scan, Split, Yard,
};
use crate::token::{binding_power, function_named, BinaryOp, PreToken, Token, UnaryOp, Value};
use crate::util::{literal_char, white_space};
use vstd::prelude::*;

verus! {

/// A formula as the grammar reads it:
///
/// ```text
/// expr    := term (("+" | "-") term)*
/// term    := factor (("*" | "/" | "%") factor)*
/// factor  := "-" factor | primary
/// primary := operand | name "(" arglist? ")" | "(" expr ")"
/// arglist := expr ("," expr)*
/// ```
///
/// An operand is a number or a variable. It is kept with the text that it
/// was written as.
pub enum Formula {
    Operand { text: Seq<char>, token: Token<Seq<char>> },
    Negative(Box<Formula>),
    Binary(BinaryOp, Box<Formula>, Box<Formula>),
    Group(Box<Formula>),
    Call { name: Seq<char>, args: Seq<Formula> },
}

/// The rule of the grammar that a formula is made by: 0 for a sum or a
/// difference, 1 for a product, a quotient or a remainder, 2 for a
/// negation, and 3 for an operand, a call or a group in parentheses.
pub open spec fn level(e: Formula) -> nat {
    match e {
        Formula::Binary(BinaryOp::Add, _, _) | Formula::Binary(BinaryOp::Sub, _, _) => 0,
        Formula::Binary(_, _, _) => 1,
        Formula::Negative(_) => 2,
        _ => 3,
    }
}

/// A bound on the number of arguments, by which the definitions over the
/// arguments of a call terminate.
pub open spec fn rank(e: Formula) -> nat {
    match e {
        Formula::Call { name, args } => args.len() + 2,
        _ => 0,
    }
}

/// The formula is one that the grammar yields. The operators of a rule
/// associate to the left, so the right operand of a binary operator comes
/// from the next rule. Every operand is a number or a variable.
pub open spec fn grammatical(e: Formula) -> bool
    decreases e,
{
    match e {
        Formula::Operand { text, token } => token is Value || token is Var,
        Formula::Negative(x) => level(*x) >= 2 && grammatical(*x),
        Formula::Binary(op, l, r) => {
            &&& level(*l) >= level(e)
            &&& level(*r) > level(e)
            &&& grammatical(*l)
            &&& grammatical(*r)
        },
        Formula::Group(x) => grammatical(*x),
        Formula::Call { name, args } => forall|i: int|
            0 <= i < args.len() ==> grammatical(#[trigger] args[i]),
    }
}

/// The token of the function that is called by a name.
pub open spec fn call_token(name: Seq<char>) -> Token<Seq<char>> {
    Token::Function(function_named(name))
}

/// The tokens of the formula in the order of the text.
pub open spec fn infix(e: Formula) -> Seq<Token<Seq<char>>>
    decreases e, rank(e),
{
    match e {
        Formula::Operand { text, token } => seq![token],
        Formula::Negative(x) => seq![Token::Unary(UnaryOp::Neg)] + infix(*x),
        Formula::Binary(op, l, r) => infix(*l) + seq![Token::Binary(op)] + infix(*r),
        Formula::Group(x) => seq![Token::LeftParen] + infix(*x) + seq![Token::RightParen],
        Formula::Call { name, args } => seq![call_token(name), Token::LeftParen] + infix_args(
            e,
            args.len(),
        ) + seq![Token::RightParen],
    }
}

/// The tokens of the first `n` arguments of a call, with commas between them.
pub open spec fn infix_args(e: Formula, n: nat) -> Seq<Token<Seq<char>>>
    decreases e, n + 1,
{
    match e {
        Formula::Call { name, args } => if n == 0 || n > args.len() {
            Seq::empty()
        } else if n == 1 {
            infix(args[0])
        } else {
            infix_args(e, (n - 1) as nat) + seq![Token::Comma] + infix(args[n - 1])
        },
        _ => Seq::empty(),
    }
}

/// The tokens of the formula in postfix order: every operator and every
/// function after its operands.
pub open spec fn postfix_of(e: Formula) -> Seq<Token<Seq<char>>>
    decreases e, rank(e),
{
    match e {
        Formula::Operand { text, token } => seq![token],
        Formula::Negative(x) => postfix_of(*x).push(Token::Unary(UnaryOp::Neg)),
        Formula::Binary(op, l, r) => (postfix_of(*l) + postfix_of(*r)).push(Token::Binary(op)),
        Formula::Group(x) => postfix_of(*x),
        Formula::Call { name, args } => postfix_args(e, args.len()).push(call_token(name)),
    }
}

/// The postfix forms of the first `n` arguments of a call, one after the other.
pub open spec fn postfix_args(e: Formula, n: nat) -> Seq<Token<Seq<char>>>
    decreases e, n + 1,
{
    match e {
        Formula::Call { name, args } => if n == 0 || n > args.len() {
            Seq::empty()
        } else {
            postfix_args(e, (n - 1) as nat) + postfix_of(args[n - 1])
        },
        _ => Seq::empty(),
    }
}

/// The parser after more tokens, starting from any state.
pub open spec fn shunt_on(yard: Yard, tokens: Seq<Token<Seq<char>>>) -> Result<
    Yard,
    EvalError<Seq<char>>,
>
    decreases tokens.len(),
{
    if tokens.len() == 0 {
        Ok(yard)
    } else {
        match shunt_on(yard, tokens.drop_last()) {
            Ok(y) => shunt(y, tokens.last()),
            Err(e) => Err(e),
        }
    }
}

proof fn lemma_shunted_is_shunt_on(tokens: Seq<Token<Seq<char>>>)
    ensures
        shunted(tokens) == shunt_on(Yard { output: Seq::empty(), stack: Seq::empty() }, tokens),
    decreases tokens.len(),
{
    if tokens.len() > 0 {
        lemma_shunted_is_shunt_on(tokens.drop_last());
    }
}

/// Parsing two lists of tokens one after the other parses their concatenation.
proof fn lemma_shunt_on_concat(yard: Yard, a: Seq<Token<Seq<char>>>, b: Seq<Token<Seq<char>>>)
    ensures
        shunt_on(yard, a + b) == match shunt_on(yard, a) {
            Ok(y) => shunt_on(y, b),
            Err(e) => Err(e),
        },
    decreases b.len(),
{
    if b.len() == 0 {
        assert(a + b =~= a);
    } else {
        assert((a + b).drop_last() =~= a + b.drop_last());
        assert((a + b).last() == b.last());
        lemma_shunt_on_concat(yard, a, b.drop_last());
    }
}

proof fn lemma_shunt_on_one(yard: Yard, t: Token<Seq<char>>)
    ensures
        shunt_on(yard, seq![t]) == shunt(yard, t),
{
    assert(seq![t].drop_last() =~= Seq::<Token<Seq<char>>>::empty());
    assert(seq![t].last() == t);
    assert(shunt_on(yard, Seq::<Token<Seq<char>>>::empty()) == Ok::<Yard, EvalError<Seq<char>>>(
        yard,
    ));
}

/// The least left binding power of the tokens that a formula of a rule,
/// or of the rules after it, puts on the stack.
pub open spec fn least_left(lv: nat) -> u8 {
    if lv == 0 {
        50
    } else if lv == 1 {
        55
    } else {
        97
    }
}

/// The least right binding power of the operators of a rule and of the
/// rules after it.
pub open spec fn least_right(lv: nat) -> u8 {
    if lv == 0 {
        51
    } else if lv == 1 {
        56
    } else {
        65
    }
}

/// The tokens are operators whose right binding power is at least `floor`.
pub open spec fn operators_from(tokens: Seq<Token<Seq<char>>>, floor: u8) -> bool {
    forall|i: int|
        0 <= i < tokens.len() ==> {
            &&& (#[trigger] tokens[i]) is Unary || tokens[i] is Binary
            &&& binding_power(tokens[i]).1 >= floor
        }
}

/// The stack lets a formula of rule `lv` be parsed on top of it: no token
/// of the formula moves its top, and its top is no function waiting for
/// its arguments.
pub open spec fn shields(stack: Seq<Token<Seq<char>>>, lv: nat) -> bool {
    stack.len() > 0 ==> {
        &&& !(stack.last() is Function)
        &&& binding_power(stack.last()).1 < least_left(lv)
    }
}

/// What the parser has put out when the last token of the formula is read.
pub open spec fn emitted(e: Formula) -> Seq<Token<Seq<char>>>
    decreases e,
{
    match e {
        Formula::Negative(x) => emitted(*x),
        Formula::Binary(op, l, r) => postfix_of(*l) + emitted(*r),
        _ => postfix_of(e),
    }
}

/// The operators that the parser still holds on its stack when the last
/// token of the formula is read, the latest last.
pub open spec fn pending(e: Formula) -> Seq<Token<Seq<char>>>
    decreases e,
{
    match e {
        Formula::Negative(x) => seq![Token::Unary(UnaryOp::Neg)] + pending(*x),
        Formula::Binary(op, l, r) => seq![Token::Binary(op)] + pending(*r),
        _ => Seq::empty(),
    }
}

proof fn lemma_pending(e: Formula)
    requires
        grammatical(e),
    ensures
        emitted(e) + pending(e).reverse() == postfix_of(e),
        operators_from(pending(e), least_right(level(e))),
    decreases e,
{
    match e {
        Formula::Negative(x) => {
            lemma_pending(*x);
            let neg = Token::Unary(UnaryOp::Neg);
            assert((seq![neg] + pending(*x)).reverse() =~= pending(*x).reverse().push(neg));
            assert(emitted(e) + pending(e).reverse() =~= (emitted(*x) + pending(
                *x,
            ).reverse()).push(neg));
            assert forall|i: int| 0 <= i < pending(e).len() implies {
                &&& (#[trigger] pending(e)[i]) is Unary || pending(e)[i] is Binary
                &&& binding_power(pending(e)[i]).1 >= least_right(level(e))
            } by {
                if i > 0 {
                    assert(pending(e)[i] == pending(*x)[i - 1]);
                }
            }
        },
        Formula::Binary(op, l, r) => {
            lemma_pending(*r);
            let t = Token::Binary(op);
            assert((seq![t] + pending(*r)).reverse() =~= pending(*r).reverse().push(t));
            assert(emitted(e) + pending(e).reverse() =~= (postfix_of(*l) + (emitted(*r) + pending(
                *r,
            ).reverse())).push(t));
            assert forall|i: int| 0 <= i < pending(e).len() implies {
                &&& (#[trigger] pending(e)[i]) is Unary || pending(e)[i] is Binary
                &&& binding_power(pending(e)[i]).1 >= least_right(level(e))
            } by {
                if i > 0 {
                    assert(pending(e)[i] == pending(*r)[i - 1]);
                }
            }
        },
        _ => {
            assert(emitted(e) + pending(e).reverse() =~= postfix_of(e));
        },
    }
}

/// Unwinding moves all of `top` to the output, the latest first, and stops
/// at the stack below.
proof fn lemma_unwind(
    output: Seq<Token<Seq<char>>>,
    stack: Seq<Token<Seq<char>>>,
    top: Seq<Token<Seq<char>>>,
    left: u8,
)
    requires
        operators_from(top, left),
        stack.len() > 0 ==> binding_power(stack.last()).1 < left,
    ensures
        unwound(Yard { output, stack: stack + top }, left) == (Yard {
            output: output + top.reverse(),
            stack,
        }),
    decreases top.len(),
{
    if top.len() == 0 {
        assert(stack + top =~= stack);
        assert(output + top.reverse() =~= output);
    } else {
        let full = stack + top;
        assert(full.last() == top.last());
        assert(binding_power(top[top.len() - 1]).1 >= left);
        assert(full.drop_last() =~= stack + top.drop_last());
        assert forall|i: int| 0 <= i < top.drop_last().len() implies {
            &&& (#[trigger] top.drop_last()[i]) is Unary || top.drop_last()[i] is Binary
            &&& binding_power(top.drop_last()[i]).1 >= left
        } by {
            assert(top.drop_last()[i] == top[i]);
        }
        lemma_unwind(output.push(top.last()), stack, top.drop_last(), left);
        assert(output.push(top.last()) + top.drop_last().reverse() =~= output + top.reverse());
    }
}

/// Unwinding what a formula left on the stack completes its postfix form.
proof fn lemma_unwind_pending(e: Formula, yard: Yard, left: u8)
    requires
        grammatical(e),
        left <= least_right(level(e)),
        yard.stack.len() > 0 ==> binding_power(yard.stack.last()).1 < left,
    ensures
        unwound(
            Yard { output: yard.output + emitted(e), stack: yard.stack + pending(e) },
            left,
        ) == (Yard { output: yard.output + postfix_of(e), stack: yard.stack }),
{
    lemma_pending(e);
    assert forall|i: int| 0 <= i < pending(e).len() implies {
        &&& (#[trigger] pending(e)[i]) is Unary || pending(e)[i] is Binary
        &&& binding_power(pending(e)[i]).1 >= left
    } by {}
    lemma_unwind(yard.output + emitted(e), yard.stack, pending(e), left);
    assert((yard.output + emitted(e)) + pending(e).reverse() =~= yard.output + postfix_of(e));
}

/// Reading a formula of the grammar puts out `emitted` and stacks `pending`.
proof fn lemma_shunt_formula(e: Formula, yard: Yard)
    requires
        grammatical(e),
        shields(yard.stack, level(e)),
    ensures
        shunt_on(yard, infix(e)) == Ok::<Yard, EvalError<Seq<char>>>(
            Yard { output: yard.output + emitted(e), stack: yard.stack + pending(e) },
        ),
    decreases e, rank(e),
{
    match e {
        Formula::Operand { text, token } => {
            lemma_shunt_on_one(yard, token);
            assert(yard.output + emitted(e) =~= yard.output.push(token));
            assert(yard.stack + pending(e) =~= yard.stack);
        },
        Formula::Negative(x) => {
            let neg = Token::Unary(UnaryOp::Neg);
            lemma_shunt_on_concat(yard, seq![neg], infix(*x));
            lemma_shunt_on_one(yard, neg);
            assert(unwound(yard, 99) == yard);
            let y1 = Yard { output: yard.output, stack: yard.stack.push(neg) };
            assert(shunt(yard, neg) == Ok::<Yard, EvalError<Seq<char>>>(y1));
            lemma_shunt_formula(*x, y1);
            assert(y1.stack + pending(*x) =~= yard.stack + pending(e));
        },
        Formula::Binary(op, l, r) => {
            let t = Token::Binary(op);
            let left = binding_power(t).0;
            lemma_shunt_on_concat(yard, infix(*l) + seq![t], infix(*r));
            lemma_shunt_on_concat(yard, infix(*l), seq![t]);
            lemma_shunt_formula(*l, yard);
            let y1 = Yard { output: yard.output + emitted(*l), stack: yard.stack + pending(*l) };
            lemma_shunt_on_one(y1, t);
            lemma_unwind_pending(*l, yard, left);
            let y2 = Yard { output: yard.output + postfix_of(*l), stack: yard.stack.push(t) };
            assert(shunt(y1, t) == Ok::<Yard, EvalError<Seq<char>>>(y2));
            lemma_shunt_formula(*r, y2);
            assert(y2.output + emitted(*r) =~= yard.output + emitted(e));
            assert(y2.stack + pending(*r) =~= yard.stack + pending(e));
        },
        Formula::Group(x) => {
            let open = Token::<Seq<char>>::LeftParen;
            let close = Token::<Seq<char>>::RightParen;
            lemma_shunt_on_concat(yard, seq![open] + infix(*x), seq![close]);
            lemma_shunt_on_concat(yard, seq![open], infix(*x));
            lemma_shunt_on_one(yard, open);
            assert(unwound(yard, 99) == yard);
            let y1 = Yard { output: yard.output, stack: yard.stack.push(open) };
            assert(shunt(yard, open) == Ok::<Yard, EvalError<Seq<char>>>(y1));
            lemma_shunt_formula(*x, y1);
            let y2 = Yard { output: y1.output + emitted(*x), stack: y1.stack + pending(*x) };
            lemma_shunt_on_one(y2, close);
            lemma_unwind_pending(*x, y1, 3);
            assert(y1.stack.drop_last() =~= yard.stack);
            assert(yard.output + emitted(e) =~= yard.output + postfix_of(*x));
            assert(yard.stack + pending(e) =~= yard.stack);
        },
        Formula::Call { name, args } => {
            let f = call_token(name);
            let open = Token::<Seq<char>>::LeftParen;
            let close = Token::<Seq<char>>::RightParen;
            let inner = infix_args(e, args.len());
            assert(seq![f, open] =~= seq![f] + seq![open]);
            lemma_shunt_on_concat(yard, seq![f, open] + inner, seq![close]);
            lemma_shunt_on_concat(yard, seq![f, open], inner);
            lemma_shunt_on_concat(yard, seq![f], seq![open]);
            lemma_shunt_on_one(yard, f);
            assert(unwound(yard, 97) == yard);
            let y1 = Yard { output: yard.output, stack: yard.stack.push(f) };
            assert(shunt(yard, f) == Ok::<Yard, EvalError<Seq<char>>>(y1));
            lemma_shunt_on_one(y1, open);
            assert(unwound(y1, 99) == y1);
            let y2 = Yard { output: yard.output, stack: y1.stack.push(open) };
            assert(shunt(y1, open) == Ok::<Yard, EvalError<Seq<char>>>(y2));
            assert(y2.stack.drop_last() =~= y1.stack);
            assert(y1.stack.drop_last() =~= yard.stack);
            let done = Yard { output: yard.output + postfix_of(e), stack: yard.stack };
            if args.len() == 0 {
                assert(shunt_on(y2, inner) == Ok::<Yard, EvalError<Seq<char>>>(y2));
                lemma_shunt_on_one(y2, close);
                assert(unwound(y2, 3) == y2);
                assert(yard.output + postfix_of(e) =~= yard.output.push(f));
                assert(shunt(y2, close) == Ok::<Yard, EvalError<Seq<char>>>(done));
            } else {
                let last = args[args.len() - 1];
                lemma_shunt_args(e, args.len(), y2);
                let y3 = Yard {
                    output: y2.output + postfix_args(e, (args.len() - 1) as nat) + emitted(last),
                    stack: y2.stack + pending(last),
                };
                lemma_shunt_on_one(y3, close);
                let y4 = Yard {
                    output: y2.output + postfix_args(e, (args.len() - 1) as nat),
                    stack: y2.stack,
                };
                lemma_unwind_pending(last, y4, 3);
                assert(y4.output + postfix_of(last) =~= yard.output + postfix_args(e, args.len()));
                assert((yard.output + postfix_args(e, args.len())).push(f) =~= yard.output
                    + postfix_of(e));
                assert(shunt(y3, close) == Ok::<Yard, EvalError<Seq<char>>>(done));
            }
            assert(yard.output + emitted(e) =~= done.output);
            assert(yard.stack + pending(e) =~= done.stack);
        },
    }
}

/// Reading the first `n` arguments of a call, after its `(`, puts out the
/// postfix forms of all but the last, and of the last what `emitted` says.
proof fn lemma_shunt_args(e: Formula, n: nat, yard: Yard)
    requires
        e is Call,
        grammatical(e),
        0 < n <= e->args.len(),
        yard.stack.len() > 0,
        yard.stack.last() is LeftParen,
    ensures
        shunt_on(yard, infix_args(e, n)) == Ok::<Yard, EvalError<Seq<char>>>(
            Yard {
                output: yard.output + postfix_args(e, (n - 1) as nat) + emitted(e->args[n - 1]),
                stack: yard.stack + pending(e->args[n - 1]),
            },
        ),
    decreases e, n + 1,
{
    let args = e->args;
    let a = args[n - 1];
    assert(grammatical(a));
    if n == 1 {
        lemma_shunt_formula(a, yard);
        assert(yard.output + postfix_args(e, 0) + emitted(a) =~= yard.output + emitted(a));
    } else {
        let before = args[n - 2];
        assert(grammatical(before));
        let comma = Token::<Seq<char>>::Comma;
        lemma_shunt_on_concat(yard, infix_args(e, (n - 1) as nat) + seq![comma], infix(a));
        lemma_shunt_on_concat(yard, infix_args(e, (n - 1) as nat), seq![comma]);
        lemma_shunt_args(e, (n - 1) as nat, yard);
        let y0 = Yard { output: yard.output + postfix_args(e, (n - 2) as nat), stack: yard.stack };
        let y1 = Yard { output: y0.output + emitted(before), stack: yard.stack + pending(before) };
        lemma_shunt_on_one(y1, comma);
        lemma_unwind_pending(before, y0, 5);
        let y2 = Yard { output: yard.output + postfix_args(e, (n - 1) as nat), stack: yard.stack };
        assert(y0.output + postfix_of(before) =~= y2.output);
        assert(shunt(y1, comma) == Ok::<Yard, EvalError<Seq<char>>>(y2));
        lemma_shunt_formula(a, y2);
    }
}

/// The parser reads the grammar: the postfix form that it makes of the
/// tokens of a formula is the formula's operands, operators and functions
/// with each operator and function after its operands. So `*`, `/` and `%`
/// bind tighter than `+` and `-`, a unary minus binds tighter still,
/// operators of one rule group from the left, parentheses group first, and
/// a function takes the arguments between its parentheses.
pub proof fn law_parser_reads_grammar(e: Formula)
    requires
        grammatical(e),
    ensures
        postfix(infix(e)) == Ok::<Seq<Token<Seq<char>>>, EvalError<Seq<char>>>(postfix_of(e)),
{
    let start = Yard { output: Seq::empty(), stack: Seq::empty() };
    lemma_shunted_is_shunt_on(infix(e));
    lemma_shunt_formula(e, start);
    lemma_pending(e);
    assert(start.output + emitted(e) =~= emitted(e));
    assert(start.stack + pending(e) =~= pending(e));
    if holds_paren(pending(e)) {
        let i = choose|i: int| 0 <= i < pending(e).len() && is_paren(#[trigger] pending(e)[i]);
        assert(pending(e)[i] is Unary || pending(e)[i] is Binary);
    }
}

/// The value of an operand: the number itself, or the value that the
/// variable is bound to.
pub open spec fn operand_value(env: Env, t: Token<Seq<char>>) -> Result<Value, EvalError<Seq<char>>> {
    match t {
        Token::Value(v) => Ok(v),
        Token::Var(name) => if env.values.contains_key(name) {
            Ok(env.values[name])
        } else {
            Err(EvalError::UndefinedVariable(name))
        },
        _ => Err(EvalError::WrongExpression),
    }
}

/// Every call of a function that the bindings know has as many arguments
/// as the function takes.
pub open spec fn well_called(env: Env, e: Formula) -> bool
    decreases e,
{
    match e {
        Formula::Operand { text, token } => true,
        Formula::Negative(x) => well_called(env, *x),
        Formula::Binary(op, l, r) => well_called(env, *l) && well_called(env, *r),
        Formula::Group(x) => well_called(env, *x),
        Formula::Call { name, args } => {
            &&& arity(env, call_token(name)) is Some ==> arity(env, call_token(name))->Some_0
                == args.len()
            &&& forall|i: int| 0 <= i < args.len() ==> well_called(env, #[trigger] args[i])
        },
    }
}

/// The value of a formula, computed along its structure: the operands of
/// an operator and the arguments of a function from left to right, then
/// the operator or the function on their values. The error is that of the
/// first variable or function in this order that the bindings lack.
pub open spec fn value(sem: Semantics, env: Env, e: Formula) -> Result<Value, EvalError<Seq<char>>>
    decreases e, rank(e),
{
    match e {
        Formula::Operand { text, token } => operand_value(env, token),
        Formula::Negative(x) => match value(sem, env, *x) {
            Ok(v) => Ok(sem(Token::Unary(UnaryOp::Neg), seq![v])),
            Err(err) => Err(err),
        },
        Formula::Binary(op, l, r) => match value(sem, env, *l) {
            Ok(a) => match value(sem, env, *r) {
                Ok(b) => Ok(sem(Token::Binary(op), seq![a, b])),
                Err(err) => Err(err),
            },
            Err(err) => Err(err),
        },
        Formula::Group(x) => value(sem, env, *x),
        Formula::Call { name, args } => match values_of_args(sem, env, e, args.len()) {
            Ok(vs) => if arity(env, call_token(name)) is Some {
                Ok(sem(call_token(name), vs))
            } else {
                Err(EvalError::UndefinedFunction(name))
            },
            Err(err) => Err(err),
        },
    }
}

/// The values of the first `n` arguments of a call, or the error of the
/// first of them that has one.
pub open spec fn values_of_args(sem: Semantics, env: Env, e: Formula, n: nat) -> Result<
    Seq<Value>,
    EvalError<Seq<char>>,
>
    decreases e, n + 1,
{
    match e {
        Formula::Call { name, args } => if n == 0 || n > args.len() {
            Ok(Seq::empty())
        } else {
            match values_of_args(sem, env, e, (n - 1) as nat) {
                Ok(vs) => match value(sem, env, args[n - 1]) {
                    Ok(v) => Ok(vs.push(v)),
                    Err(err) => Err(err),
                },
                Err(err) => Err(err),
            }
        },
        _ => Ok(Seq::empty()),
    }
}

/// The stack machine after more tokens, starting from any stack.
pub open spec fn run_on(
    sem: Semantics,
    env: Env,
    stack: Seq<Value>,
    tokens: Seq<Token<Seq<char>>>,
) -> Result<Seq<Value>, EvalError<Seq<char>>>
    decreases tokens.len(),
{
    if tokens.len() == 0 {
        Ok(stack)
    } else {
        match run_on(sem, env, stack, tokens.drop_last()) {
            Ok(s) => eval_token(sem, env, s, tokens.last()),
            Err(e) => Err(e),
        }
    }
}

pub proof fn lemma_run_is_run_on(sem: Semantics, env: Env, tokens: Seq<Token<Seq<char>>>)
    ensures
        run(sem, env, tokens) == run_on(sem, env, Seq::empty(), tokens),
    decreases tokens.len(),
{
    if tokens.len() > 0 {
        lemma_run_is_run_on(sem, env, tokens.drop_last());
    }
}

/// Running two programs one after the other runs their concatenation.
pub proof fn lemma_run_on_concat(
    sem: Semantics,
    env: Env,
    stack: Seq<Value>,
    a: Seq<Token<Seq<char>>>,
    b: Seq<Token<Seq<char>>>,
)
    ensures
        run_on(sem, env, stack, a + b) == match run_on(sem, env, stack, a) {
            Ok(s) => run_on(sem, env, s, b),
            Err(e) => Err(e),
        },
    decreases b.len(),
{
    if b.len() == 0 {
        assert(a + b =~= a);
    } else {
        assert((a + b).drop_last() =~= a + b.drop_last());
        assert((a + b).last() == b.last());
        lemma_run_on_concat(sem, env, stack, a, b.drop_last());
    }
}

pub proof fn lemma_run_on_one(sem: Semantics, env: Env, stack: Seq<Value>, t: Token<Seq<char>>)
    ensures
        run_on(sem, env, stack, seq![t]) == eval_token(sem, env, stack, t),
{
    assert(seq![t].drop_last() =~= Seq::<Token<Seq<char>>>::empty());
    assert(seq![t].last() == t);
    assert(run_on(sem, env, stack, Seq::<Token<Seq<char>>>::empty()) == Ok::<
        Seq<Value>,
        EvalError<Seq<char>>,
    >(stack));
}

/// The stack machine, run on the postfix form of a formula, pushes the
/// formula's value, or fails as its evaluation does.
proof fn lemma_formula_value(sem: Semantics, env: Env, e: Formula, stack: Seq<Value>)
    requires
        grammatical(e),
        well_called(env, e),
    ensures
        run_on(sem, env, stack, postfix_of(e)) == match value(sem, env, e) {
            Ok(v) => Ok(stack.push(v)),
            Err(err) => Err(err),
        },
    decreases e, rank(e),
{
    match e {
        Formula::Operand { text, token } => {
            lemma_run_on_one(sem, env, stack, token);
        },
        Formula::Negative(x) => {
            let neg = Token::Unary(UnaryOp::Neg);
            assert(postfix_of(e) =~= postfix_of(*x) + seq![neg]);
            lemma_run_on_concat(sem, env, stack, postfix_of(*x), seq![neg]);
            lemma_formula_value(sem, env, *x, stack);
            match value(sem, env, *x) {
                Ok(v) => {
                    let s = stack.push(v);
                    lemma_run_on_one(sem, env, s, neg);
                    assert(s.take(s.len() - 1) =~= stack);
                    assert(s.skip(s.len() - 1) =~= seq![v]);
                },
                Err(_) => {},
            }
        },
        Formula::Binary(op, l, r) => {
            let t = Token::Binary(op);
            assert(postfix_of(e) =~= (postfix_of(*l) + postfix_of(*r)) + seq![t]);
            lemma_run_on_concat(sem, env, stack, postfix_of(*l) + postfix_of(*r), seq![t]);
            lemma_run_on_concat(sem, env, stack, postfix_of(*l), postfix_of(*r));
            lemma_formula_value(sem, env, *l, stack);
            match value(sem, env, *l) {
                Ok(a) => {
                    lemma_formula_value(sem, env, *r, stack.push(a));
                    match value(sem, env, *r) {
                        Ok(b) => {
                            let s = stack.push(a).push(b);
                            lemma_run_on_one(sem, env, s, t);
                            assert(s.take(s.len() - 2) =~= stack);
                            assert(s.skip(s.len() - 2) =~= seq![a, b]);
                        },
                        Err(_) => {},
                    }
                },
                Err(_) => {},
            }
        },
        Formula::Group(x) => {
            lemma_formula_value(sem, env, *x, stack);
        },
        Formula::Call { name, args } => {
            let f = call_token(name);
            assert(postfix_of(e) =~= postfix_args(e, args.len()) + seq![f]);
            lemma_run_on_concat(sem, env, stack, postfix_args(e, args.len()), seq![f]);
            lemma_args_values(sem, env, e, args.len(), stack);
            match values_of_args(sem, env, e, args.len()) {
                Ok(vs) => {
                    let s = stack + vs;
                    lemma_run_on_one(sem, env, s, f);
                    if arity(env, f) is Some {
                        assert(s.take(s.len() - vs.len()) =~= stack);
                        assert(s.skip(s.len() - vs.len()) =~= vs);
                    }
                },
                Err(_) => {},
            }
        },
    }
}

/// The stack machine, run on the postfix forms of the first `n` arguments
/// of a call, pushes their values, or fails as the first of them that fails.
proof fn lemma_args_values(sem: Semantics, env: Env, e: Formula, n: nat, stack: Seq<Value>)
    requires
        e is Call,
        grammatical(e),
        well_called(env, e),
        n <= e->args.len(),
    ensures
        run_on(sem, env, stack, postfix_args(e, n)) == match values_of_args(sem, env, e, n) {
            Ok(vs) => Ok(stack + vs),
            Err(err) => Err(err),
        },
        values_of_args(sem, env, e, n) is Ok ==> values_of_args(sem, env, e, n)->Ok_0.len() == n,
    decreases e, n + 1,
{
    if n == 0 {
        assert(stack + Seq::<Value>::empty() =~= stack);
    } else {
        let a = e->args[n - 1];
        assert(grammatical(a));
        assert(well_called(env, a));
        lemma_run_on_concat(sem, env, stack, postfix_args(e, (n - 1) as nat), postfix_of(a));
        lemma_args_values(sem, env, e, (n - 1) as nat, stack);
        match values_of_args(sem, env, e, (n - 1) as nat) {
            Ok(vs) => {
                lemma_formula_value(sem, env, a, stack + vs);
                match value(sem, env, a) {
                    Ok(v) => {
                        assert((stack + vs).push(v) =~= stack + vs.push(v));
                    },
                    Err(_) => {},
                }
            },
            Err(_) => {},
        }
    }
}

/// The postfix form of a formula evaluates to the formula's value.
pub proof fn law_postfix_value(sem: Semantics, env: Env, e: Formula)
    requires
        grammatical(e),
        well_called(env, e),
    ensures
        evaluate(sem, env, postfix_of(e)) == value(sem, env, e),
{
    lemma_run_is_run_on(sem, env, postfix_of(e));
    lemma_formula_value(sem, env, e, Seq::empty());
    match value(sem, env, e) {
        Ok(v) => {
            assert(Seq::<Value>::empty().push(v).len() == 1);
        },
        Err(_) => {},
    }
}

/// The symbol that a binary operator is written as.
pub open spec fn symbol_for(op: BinaryOp) -> PreToken<Seq<char>> {
    match op {
        BinaryOp::Add => PreToken::Plus,
        BinaryOp::Sub => PreToken::Minus,
        BinaryOp::Mul => PreToken::Asterisk,
        BinaryOp::Div => PreToken::Slash,
        BinaryOp::Rem => PreToken::Percent,
    }
}

/// The lexemes that a formula is written as.
pub open spec fn written(e: Formula) -> Seq<PreToken<Seq<char>>>
    decreases e, rank(e),
{
    match e {
        Formula::Operand { text, token } => seq![PreToken::Literal(text)],
        Formula::Negative(x) => seq![PreToken::Minus] + written(*x),
        Formula::Binary(op, l, r) => written(*l) + seq![symbol_for(op)] + written(*r),
        Formula::Group(x) => seq![PreToken::LeftParen] + written(*x) + seq![PreToken::RightParen],
        Formula::Call { name, args } => seq![PreToken::Literal(name), PreToken::LeftParen]
            + written_args(e, args.len()) + seq![PreToken::RightParen],
    }
}

/// The lexemes of the first `n` arguments of a call, with commas between them.
pub open spec fn written_args(e: Formula, n: nat) -> Seq<PreToken<Seq<char>>>
    decreases e, n + 1,
{
    match e {
        Formula::Call { name, args } => if n == 0 || n > args.len() {
            Seq::empty()
        } else if n == 1 {
            written(args[0])
        } else {
            written_args(e, (n - 1) as nat) + seq![PreToken::Comma] + written(args[n - 1])
        },
        _ => Seq::empty(),
    }
}

/// The text of every operand stands for the operand, and the name of
/// every call for a function, where `num` reads numbers.
pub open spec fn spelled(num: spec_fn(Seq<char>) -> Option<Value>, e: Formula) -> bool
    decreases e,
{
    match e {
        Formula::Operand { text, token } => literal_token(text, num(text), false) == Ok::<
            Token<Seq<char>>,
            EvalError<Seq<char>>,
        >(token),
        Formula::Negative(x) => spelled(num, *x),
        Formula::Binary(op, l, r) => spelled(num, *l) && spelled(num, *r),
        Formula::Group(x) => spelled(num, *x),
        Formula::Call { name, args } => {
            &&& literal_token(name, num(name), true) == Ok::<
                Token<Seq<char>>,
                EvalError<Seq<char>>,
            >(call_token(name))
            &&& forall|i: int| 0 <= i < args.len() ==> spelled(num, #[trigger] args[i])
        },
    }
}

/// The lexemes `w` stand in `ps` from position `k` on.
pub open spec fn occurs_at(
    ps: Seq<PreToken<Seq<char>>>,
    k: int,
    w: Seq<PreToken<Seq<char>>>,
) -> bool {
    &&& 0 <= k
    &&& k + w.len() <= ps.len()
    &&& forall|i: int| 0 <= i < w.len() ==> ps[k + i] == #[trigger] w[i]
}

proof fn lemma_occurs_parts(
    ps: Seq<PreToken<Seq<char>>>,
    k: int,
    a: Seq<PreToken<Seq<char>>>,
    b: Seq<PreToken<Seq<char>>>,
)
    requires
        occurs_at(ps, k, a + b),
    ensures
        occurs_at(ps, k, a),
        occurs_at(ps, k + a.len(), b),
{
    assert forall|i: int| 0 <= i < a.len() implies ps[k + i] == #[trigger] a[i] by {
        assert((a + b)[i] == a[i]);
    }
    assert forall|i: int| 0 <= i < b.len() implies ps[k + a.len() + i] == #[trigger] b[i] by {
        assert((a + b)[a.len() + i] == b[i]);
    }
}

/// A formula is written with at least one lexeme, and its last token ends
/// an operand.
pub proof fn lemma_written_shape(e: Formula)
    requires
        grammatical(e),
    ensures
        written(e).len() > 0,
        infix(e).len() > 0,
        ends_operand(infix(e).last()),
    decreases e,
{
    match e {
        Formula::Operand { text, token } => {},
        Formula::Negative(x) => {
            lemma_written_shape(*x);
        },
        Formula::Binary(op, l, r) => {
            lemma_written_shape(*l);
            lemma_written_shape(*r);
        },
        Formula::Group(x) => {},
        Formula::Call { name, args } => {},
    }
}

/// The tokenizer, where the writing of a formula begins at position `k`
/// and no operand ends just before it, adds the formula's tokens to the
/// open statement. What follows the formula must not be a `(`, which would
/// make a call of an operand at its end.
pub proof fn lemma_split_formula(
    num: spec_fn(Seq<char>) -> Option<Value>,
    ps: Seq<PreToken<Seq<char>>>,
    k: int,
    e: Formula,
    st: Split,
)
    requires
        grammatical(e),
        spelled(num, e),
        occurs_at(ps, k, written(e)),
        !paren_at(ps, k + written(e).len()),
        split_upto(num, ps, k as nat) == Ok::<Split, EvalError<Seq<char>>>(st),
        st.open.len() > 0 ==> !ends_operand(st.open.last()),
    ensures
        split_upto(num, ps, (k + written(e).len()) as nat) == Ok::<Split, EvalError<Seq<char>>>(
            Split { closed: st.closed, open: st.open + infix(e), depth: st.depth },
        ),
    decreases e, rank(e),
{
    match e {
        Formula::Operand { text, token } => {
            assert(ps[k] == written(e)[0]);
            assert(st.open + infix(e) =~= st.open.push(token));
        },
        Formula::Negative(x) => {
            let neg = Token::Unary(UnaryOp::Neg);
            lemma_occurs_parts(ps, k, seq![PreToken::Minus], written(*x));
            assert(ps[k] == seq![PreToken::<Seq<char>>::Minus][0]);
            let s1 = Split { closed: st.closed, open: st.open.push(neg), depth: st.depth };
            assert(split_upto(num, ps, (k + 1) as nat) == Ok::<Split, EvalError<Seq<char>>>(s1));
            lemma_split_formula(num, ps, k + 1, *x, s1);
            assert(s1.open + infix(*x) =~= st.open + infix(e));
        },
        Formula::Binary(op, l, r) => {
            let t = Token::Binary(op);
            lemma_occurs_parts(ps, k, written(*l) + seq![symbol_for(op)], written(*r));
            lemma_occurs_parts(ps, k, written(*l), seq![symbol_for(op)]);
            let m = k + written(*l).len();
            assert(ps[m] == seq![symbol_for(op)][0]);
            lemma_split_formula(num, ps, k, *l, st);
            lemma_written_shape(*l);
            let s1 = Split { closed: st.closed, open: st.open + infix(*l), depth: st.depth };
            assert(s1.open.last() == infix(*l).last());
            let s2 = Split { closed: st.closed, open: s1.open.push(t), depth: st.depth };
            assert(split_upto(num, ps, (m + 1) as nat) == Ok::<Split, EvalError<Seq<char>>>(s2));
            lemma_split_formula(num, ps, m + 1, *r, s2);
            assert(s2.open + infix(*r) =~= st.open + infix(e));
        },
        Formula::Group(x) => {
            let open = seq![PreToken::<Seq<char>>::LeftParen];
            let close = seq![PreToken::<Seq<char>>::RightParen];
            lemma_occurs_parts(ps, k, open + written(*x), close);
            lemma_occurs_parts(ps, k, open, written(*x));
            assert(ps[k] == open[0]);
            let m = k + 1 + written(*x).len();
            assert(ps[m] == close[0]);
            let s1 = Split {
                closed: st.closed,
                open: st.open.push(Token::LeftParen),
                depth: st.depth + 1,
            };
            assert(split_upto(num, ps, (k + 1) as nat) == Ok::<Split, EvalError<Seq<char>>>(s1));
            lemma_split_formula(num, ps, k + 1, *x, s1);
            let s2 = Split { closed: st.closed, open: s1.open + infix(*x), depth: st.depth + 1 };
            assert(split_upto(num, ps, (m + 1) as nat) == split_lexeme(
                s2,
                ps[m],
                number_of(num, ps[m]),
                paren_at(ps, m + 1),
            ));
            assert(s2.open.push(Token::RightParen) =~= st.open + infix(e));
        },
        Formula::Call { name, args } => {
            let f = call_token(name);
            let head = seq![PreToken::Literal(name), PreToken::LeftParen];
            let close = seq![PreToken::<Seq<char>>::RightParen];
            let inner = written_args(e, args.len());
            lemma_occurs_parts(ps, k, head + inner, close);
            lemma_occurs_parts(ps, k, head, inner);
            assert(ps[k] == head[0]);
            assert(ps[k + 1] == head[1]);
            let m = k + 2 + inner.len();
            assert(ps[m] == close[0]);
            let s1 = Split { closed: st.closed, open: st.open.push(f), depth: st.depth };
            assert(split_upto(num, ps, (k + 1) as nat) == Ok::<Split, EvalError<Seq<char>>>(s1));
            let s2 = Split {
                closed: st.closed,
                open: s1.open.push(Token::LeftParen),
                depth: st.depth + 1,
            };
            assert(split_upto(num, ps, (k + 2) as nat) == split_lexeme(
                s1,
                ps[k + 1],
                number_of(num, ps[k + 1]),
                paren_at(ps, k + 2),
            ));
            let s3 = Split {
                closed: st.closed,
                open: s2.open + infix_args(e, args.len()),
                depth: st.depth + 1,
            };
            if args.len() == 0 {
                assert(s2.open + infix_args(e, args.len()) =~= s2.open);
            } else {
                lemma_split_args(num, ps, k + 2, e, args.len(), s2);
            }
            assert(split_upto(num, ps, m as nat) == Ok::<Split, EvalError<Seq<char>>>(s3));
            assert(split_upto(num, ps, (m + 1) as nat) == split_lexeme(
                s3,
                ps[m],
                number_of(num, ps[m]),
                paren_at(ps, m + 1),
            ));
            assert(s3.open.push(Token::RightParen) =~= st.open + infix(e));
        },
    }
}

/// The tokenizer, inside the parentheses of a call, adds the tokens of the
/// first `n` arguments and of the commas between them to the open statement.
proof fn lemma_split_args(
    num: spec_fn(Seq<char>) -> Option<Value>,
    ps: Seq<PreToken<Seq<char>>>,
    k: int,
    e: Formula,
    n: nat,
    st: Split,
)
    requires
        e is Call,
        grammatical(e),
        spelled(num, e),
        0 < n <= e->args.len(),
        occurs_at(ps, k, written_args(e, n)),
        !paren_at(ps, k + written_args(e, n).len()),
        split_upto(num, ps, k as nat) == Ok::<Split, EvalError<Seq<char>>>(st),
        st.open.len() > 0 ==> !ends_operand(st.open.last()),
        st.depth > 0,
    ensures
        split_upto(num, ps, (k + written_args(e, n).len()) as nat) == Ok::<
            Split,
            EvalError<Seq<char>>,
        >(Split { closed: st.closed, open: st.open + infix_args(e, n), depth: st.depth }),
    decreases e, n + 1,
{
    let a = e->args[n - 1];
    assert(grammatical(a));
    assert(spelled(num, a));
    if n == 1 {
        lemma_split_formula(num, ps, k, a, st);
    } else {
        let comma = seq![PreToken::<Seq<char>>::Comma];
        let before = written_args(e, (n - 1) as nat);
        lemma_occurs_parts(ps, k, before + comma, written(a));
        lemma_occurs_parts(ps, k, before, comma);
        let m = k + before.len();
        assert(ps[m] == comma[0]);
        lemma_split_args(num, ps, k, e, (n - 1) as nat, st);
        let s1 = Split {
            closed: st.closed,
            open: st.open + infix_args(e, (n - 1) as nat),
            depth: st.depth,
        };
        let s2 = Split { closed: st.closed, open: s1.open.push(Token::Comma), depth: st.depth };
        assert(split_upto(num, ps, (m + 1) as nat) == Ok::<Split, EvalError<Seq<char>>>(s2));
        lemma_split_formula(num, ps, m + 1, a, s2);
        assert(s2.open + infix(a) =~= st.open + infix_args(e, n));
    }
}

/// The tokenizer reads the grammar: the lexemes that a formula is written
/// as make one statement, which holds the formula's tokens. A `-` is the
/// negation where the grammar has a factor begin, and the subtraction
/// after an operand. A name before a `(` is a function, and the commas
/// between its parentheses separate its arguments.
pub proof fn law_tokenizer_reads_grammar(num: spec_fn(Seq<char>) -> Option<Value>, e: Formula)
    requires
        grammatical(e),
        spelled(num, e),
    ensures
        statements(num, written(e)) == Ok::<
            Seq<Seq<Token<Seq<char>>>>,
            EvalError<Seq<char>>,
        >(seq![infix(e)]),
{
    let start = Split { closed: Seq::empty(), open: Seq::empty(), depth: 0 };
    lemma_split_formula(num, written(e), 0, e, start);
    lemma_written_shape(e);
    assert(start.open + infix(e) =~= infix(e));
    assert(start.closed.push(infix(e)) =~= seq![infix(e)]);
}

/// A text that is lexed into the writing of a formula of the grammar
/// evaluates to the one value that the formula has when it is computed
/// along its structure, or to the error of that computation.
pub proof fn law_text_value(
    num: spec_fn(Seq<char>) -> Option<Value>,
    sem: Semantics,
    env: Env,
    text: Seq<char>,
    e: Formula,
)
    requires
        grammatical(e),
        spelled(num, e),
        well_called(env, e),
        lexemes(text) == Ok::<Seq<PreToken<Seq<char>>>, EvalError<Seq<char>>>(written(e)),
    ensures
        programs(num, text) == Ok::<Seq<Seq<Token<Seq<char>>>>, EvalError<Seq<char>>>(
            seq![postfix_of(e)],
        ),
        evaluate_text(num, sem, env, text) == match value(sem, env, e) {
            Ok(v) => Ok(seq![v]),
            Err(err) => Err(err),
        },
{
    law_tokenizer_reads_grammar(num, e);
    law_parser_reads_grammar(e);
    law_postfix_value(sem, env, e);
    let one = seq![infix(e)];
    assert(one.drop_last() =~= Seq::<Seq<Token<Seq<char>>>>::empty());
    assert(one.last() == infix(e));
    assert(postfix_each(one.drop_last()) == Ok::<
        Seq<Seq<Token<Seq<char>>>>,
        EvalError<Seq<char>>,
    >(Seq::empty()));
    assert(Seq::<Seq<Token<Seq<char>>>>::empty().push(postfix_of(e)) =~= seq![postfix_of(e)]);
    let ps = seq![postfix_of(e)];
    assert(ps.drop_last() =~= Seq::<Seq<Token<Seq<char>>>>::empty());
    assert(ps.last() == postfix_of(e));
    assert(evaluate_each(sem, env, ps.drop_last()) == Ok::<Seq<Value>, EvalError<Seq<char>>>(
        Seq::empty(),
    ));
    match value(sem, env, e) {
        Ok(v) => {
            assert(Seq::<Value>::empty().push(v) =~= seq![v]);
        },
        Err(_) => {},
    }
}

/// The characters that a lexeme is written with.
pub open spec fn lexeme_text(p: PreToken<Seq<char>>) -> Seq<char> {
    match p {
        PreToken::Plus => seq!['+'],
        PreToken::Minus => seq!['-'],
        PreToken::Asterisk => seq!['*'],
        PreToken::Slash => seq!['/'],
        PreToken::Percent => seq!['%'],
        PreToken::LeftParen => seq!['('],
        PreToken::RightParen => seq![')'],
        PreToken::SemiColon => seq![';'],
        PreToken::Comma => seq![','],
        PreToken::Literal(text) => text,
    }
}

/// White space only.
pub open spec fn all_blank(gap: Seq<char>) -> bool {
    forall|i: int| 0 <= i < gap.len() ==> white_space(#[trigger] gap[i])
}

/// A literal that the lexer can find: at least one character, and literal
/// characters only.
pub open spec fn literal_run(text: Seq<char>) -> bool {
    text.len() > 0 && forall|i: int| 0 <= i < text.len() ==> literal_char(#[trigger] text[i])
}

/// Every literal of the list is a run of literal characters.
pub open spec fn literals_run(ps: Seq<PreToken<Seq<char>>>) -> bool {
    forall|i: int|
        0 <= i < ps.len() && (#[trigger] ps[i]) is Literal ==> literal_run(ps[i]->Literal_0)
}

/// The lexemes can be written with the gaps between them: `gaps[0]`
/// stands before the first lexeme and `gaps[i + 1]` after lexeme `i`.
/// Every gap is white space, every literal is a run of literal characters,
/// and two literals in a row have a gap between them.
pub open spec fn writable(ps: Seq<PreToken<Seq<char>>>, gaps: Seq<Seq<char>>) -> bool {
    &&& gaps.len() == ps.len() + 1
    &&& forall|i: int| 0 <= i < gaps.len() ==> all_blank(#[trigger] gaps[i])
    &&& literals_run(ps)
    &&& forall|i: int|
        0 <= i < ps.len() - 1 && (#[trigger] ps[i]) is Literal && ps[i + 1] is Literal ==> gaps[i
            + 1].len() > 0
}

/// The text of lexemes written with gaps between them.
pub open spec fn spelling(ps: Seq<PreToken<Seq<char>>>, gaps: Seq<Seq<char>>) -> Seq<char>
    decreases ps.len(),
{
    if ps.len() == 0 || gaps.len() != ps.len() + 1 {
        gaps[0]
    } else {
        spelling(ps.drop_last(), gaps.drop_last()) + lexeme_text(ps.last()) + gaps.last()
    }
}

/// The lexer after more characters, starting from any state.
pub open spec fn scan_on(scan: Scan, text: Seq<char>) -> Result<Scan, EvalError<Seq<char>>>
    decreases text.len(),
{
    if text.len() == 0 {
        Ok(scan)
    } else {
        match scan_on(scan, text.drop_last()) {
            Ok(s) => scan_char(s, text.last()),
            Err(e) => Err(e),
        }
    }
}

/// Scanning two texts one after the other scans their concatenation.
proof fn lemma_scanned_concat(a: Seq<char>, b: Seq<char>)
    requires
        scanned(a) is Ok,
    ensures
        scanned(a + b) == scan_on(scanned(a)->Ok_0, b),
    decreases b.len(),
{
    if b.len() == 0 {
        assert(a + b =~= a);
    } else {
        assert((a + b).drop_last() =~= a + b.drop_last());
        assert((a + b).last() == b.last());
        lemma_scanned_concat(a, b.drop_last());
    }
}

proof fn lemma_scan_literal(scan: Scan, text: Seq<char>)
    requires
        forall|i: int| 0 <= i < text.len() ==> literal_char(#[trigger] text[i]),
    ensures
        scan_on(scan, text) == Ok::<Scan, EvalError<Seq<char>>>(
            Scan { found: scan.found, run: scan.run + text },
        ),
    decreases text.len(),
{
    if text.len() == 0 {
        assert(scan.run + text =~= scan.run);
    } else {
        lemma_scan_literal(scan, text.drop_last());
        assert(literal_char(text[text.len() - 1]));
        assert((scan.run + text.drop_last()).push(text.last()) =~= scan.run + text);
    }
}

proof fn lemma_scan_gap(scan: Scan, gap: Seq<char>)
    requires
        all_blank(gap),
    ensures
        scan_on(scan, gap) == Ok::<Scan, EvalError<Seq<char>>>(
            if gap.len() == 0 {
                scan
            } else {
                Scan { found: flushed(scan), run: Seq::empty() }
            },
        ),
    decreases gap.len(),
{
    if gap.len() > 0 {
        assert(all_blank(gap.drop_last())) by {
            assert forall|i: int| 0 <= i < gap.drop_last().len() implies white_space(
                #[trigger] gap.drop_last()[i],
            ) by {
                assert(gap.drop_last()[i] == gap[i]);
            }
        }
        lemma_scan_gap(scan, gap.drop_last());
        assert(white_space(gap[gap.len() - 1]));
    }
}

proof fn lemma_scan_lexeme(scan: Scan, p: PreToken<Seq<char>>)
    requires
        p is Literal ==> literal_run(p->Literal_0) && scan.run.len() == 0,
    ensures
        scan_on(scan, lexeme_text(p)) is Ok,
        flushed(scan_on(scan, lexeme_text(p))->Ok_0) == flushed(scan).push(p),
        !(p is Literal) ==> scan_on(scan, lexeme_text(p))->Ok_0.run.len() == 0,
{
    match p {
        PreToken::Literal(text) => {
            lemma_scan_literal(scan, text);
            assert(scan.run + text =~= text);
        },
        _ => {
            let t = lexeme_text(p);
            assert(t.drop_last() =~= Seq::<char>::empty());
            assert(scan_on(scan, t.drop_last()) == Ok::<Scan, EvalError<Seq<char>>>(scan));
            assert(symbol_of(t.last()) == Some(p));
        },
    }
}

/// The lexer after a text that is written from lexemes and gaps holds the
/// lexemes, and an open run only where the text ends in a literal.
proof fn lemma_scan_spelling(ps: Seq<PreToken<Seq<char>>>, gaps: Seq<Seq<char>>)
    requires
        writable(ps, gaps),
    ensures
        scanned(spelling(ps, gaps)) is Ok,
        flushed(scanned(spelling(ps, gaps))->Ok_0) == ps,
        scanned(spelling(ps, gaps))->Ok_0.run.len() > 0 ==> ps.len() > 0 && ps.last() is Literal
            && gaps.last().len() == 0,
    decreases ps.len(),
{
    let start = Scan { found: Seq::empty(), run: Seq::empty() };
    if ps.len() == 0 {
        assert(scanned(Seq::<char>::empty()) == Ok::<Scan, EvalError<Seq<char>>>(start));
        lemma_scanned_concat(Seq::empty(), gaps[0]);
        assert(Seq::<char>::empty() + gaps[0] =~= gaps[0]);
        lemma_scan_gap(start, gaps[0]);
        assert(flushed(start) =~= ps);
    } else {
        let qs = ps.drop_last();
        let inner = gaps.drop_last();
        let p = ps.last();
        assert(writable(qs, inner)) by {
            assert forall|i: int| 0 <= i < inner.len() implies all_blank(#[trigger] inner[i]) by {
                assert(inner[i] == gaps[i]);
            }
            assert forall|i: int| 0 <= i < qs.len() && (#[trigger] qs[i]) is Literal implies
                literal_run(qs[i]->Literal_0) by {
                assert(qs[i] == ps[i]);
            }
            assert forall|i: int|
                0 <= i < qs.len() - 1 && (#[trigger] qs[i]) is Literal && qs[i
                    + 1] is Literal implies inner[i + 1].len() > 0 by {
                assert(qs[i] == ps[i]);
                assert(qs[i + 1] == ps[i + 1]);
            }
        }
        lemma_scan_spelling(qs, inner);
        let before = spelling(qs, inner);
        let s0 = scanned(before)->Ok_0;
        if p is Literal && s0.run.len() > 0 {
            assert(qs.last() == ps[ps.len() - 2]);
            assert(inner.last() == gaps[ps.len() - 1]);
            assert(ps[ps.len() - 2] is Literal && ps[ps.len() - 2 + 1] is Literal);
        }
        if p is Literal {
            assert(literal_run(ps[ps.len() - 1]->Literal_0));
        }
        lemma_scanned_concat(before, lexeme_text(p));
        lemma_scan_lexeme(s0, p);
        let s1 = scan_on(s0, lexeme_text(p))->Ok_0;
        lemma_scanned_concat(before + lexeme_text(p), gaps.last());
        assert(all_blank(gaps[gaps.len() - 1]));
        lemma_scan_gap(s1, gaps.last());
        assert(qs.push(p) =~= ps);
    }
}

/// Lexing gives the lexemes back: a text that is written from lexemes,
/// with or without white space between them, is lexed into those lexemes.
pub proof fn law_lexer_reads_spelling(ps: Seq<PreToken<Seq<char>>>, gaps: Seq<Seq<char>>)
    requires
        writable(ps, gaps),
    ensures
        lexemes(spelling(ps, gaps)) == Ok::<Seq<PreToken<Seq<char>>>, EvalError<Seq<char>>>(ps),
{
    lemma_scan_spelling(ps, gaps);
}

/// The text of every operand and the name of every call is a run of
/// literal characters.
pub open spec fn lexable(e: Formula) -> bool
    decreases e,
{
    match e {
        Formula::Operand { text, token } => literal_run(text),
        Formula::Negative(x) => lexable(*x),
        Formula::Binary(op, l, r) => lexable(*l) && lexable(*r),
        Formula::Group(x) => lexable(*x),
        Formula::Call { name, args } => {
            &&& literal_run(name)
            &&& forall|i: int| 0 <= i < args.len() ==> lexable(#[trigger] args[i])
        },
    }
}

/// No literal of the list is followed by a literal.
pub open spec fn literals_apart(ps: Seq<PreToken<Seq<char>>>) -> bool {
    forall|i: int| 0 <= i < ps.len() - 1 && (#[trigger] ps[i]) is Literal ==> !(ps[i + 1] is Literal)
}

/// Lists whose literals are runs and stand apart stay so when they are
/// joined by a symbol.
pub proof fn lemma_join_apart(
    a: Seq<PreToken<Seq<char>>>,
    sep: PreToken<Seq<char>>,
    b: Seq<PreToken<Seq<char>>>,
)
    requires
        literals_run(a),
        literals_apart(a),
        literals_run(b),
        literals_apart(b),
        !(sep is Literal),
    ensures
        literals_run(a + seq![sep] + b),
        literals_apart(a + seq![sep] + b),
{
    let w = a + seq![sep] + b;
    let n = a.len() as int;
    assert forall|i: int| 0 <= i < w.len() && (#[trigger] w[i]) is Literal implies literal_run(
        w[i]->Literal_0,
    ) by {
        if i < n {
            assert(w[i] == a[i]);
        } else {
            assert(w[i] == b[i - n - 1]);
        }
    }
    assert forall|i: int| 0 <= i < w.len() - 1 && (#[trigger] w[i]) is Literal implies !(w[i
        + 1] is Literal) by {
        if i < n - 1 {
            assert(w[i] == a[i]);
            assert(w[i + 1] == a[i + 1]);
        } else if i == n - 1 {
            assert(w[i + 1] == sep);
        } else {
            assert(w[i] == b[i - n - 1]);
            assert(w[i + 1] == b[i - n]);
        }
    }
}

/// In the writing of a formula every literal is a run of literal
/// characters, and no literal follows another.
pub proof fn lemma_written_literals(e: Formula)
    requires
        grammatical(e),
        lexable(e),
    ensures
        literals_run(written(e)),
        literals_apart(written(e)),
    decreases e, rank(e),
{
    let none = Seq::<PreToken<Seq<char>>>::empty();
    match e {
        Formula::Operand { text, token } => {},
        Formula::Negative(x) => {
            lemma_written_literals(*x);
            lemma_join_apart(none, PreToken::Minus, written(*x));
            assert(none + seq![PreToken::<Seq<char>>::Minus] + written(*x) =~= written(e));
        },
        Formula::Binary(op, l, r) => {
            lemma_written_literals(*l);
            lemma_written_literals(*r);
            lemma_join_apart(written(*l), symbol_for(op), written(*r));
        },
        Formula::Group(x) => {
            lemma_written_literals(*x);
            lemma_join_apart(none, PreToken::LeftParen, written(*x));
            let opened = none + seq![PreToken::<Seq<char>>::LeftParen] + written(*x);
            lemma_join_apart(opened, PreToken::RightParen, none);
            assert(opened + seq![PreToken::<Seq<char>>::RightParen] + none =~= written(e));
        },
        Formula::Call { name, args } => {
            let inner = written_args(e, args.len());
            if args.len() > 0 {
                lemma_written_args_literals(e, args.len());
            }
            let head = seq![PreToken::Literal(name)];
            lemma_join_apart(head, PreToken::LeftParen, inner);
            let opened = head + seq![PreToken::<Seq<char>>::LeftParen] + inner;
            lemma_join_apart(opened, PreToken::RightParen, none);
            assert(opened + seq![PreToken::<Seq<char>>::RightParen] + none =~= written(e));
        },
    }
}

proof fn lemma_written_args_literals(e: Formula, n: nat)
    requires
        e is Call,
        grammatical(e),
        lexable(e),
        0 < n <= e->args.len(),
    ensures
        literals_run(written_args(e, n)),
        literals_apart(written_args(e, n)),
    decreases e, n + 1,
{
    let a = e->args[n - 1];
    assert(grammatical(a));
    assert(lexable(a));
    lemma_written_literals(a);
    if n > 1 {
        lemma_written_args_literals(e, (n - 1) as nat);
        lemma_join_apart(written_args(e, (n - 1) as nat), PreToken::Comma, written(a));
    }
}

/// A formula of the grammar, written as text with any white space around
/// its operands, names, operators, commas and parentheses, evaluates to
/// the value that it has when it is computed along its structure:
/// operators of higher precedence first, operators of equal precedence
/// from the left, what stands in parentheses before what stands around
/// them, and a function on the values of its arguments.
pub proof fn law_formula_text_value(
    num: spec_fn(Seq<char>) -> Option<Value>,
    sem: Semantics,
    env: Env,
    e: Formula,
    gaps: Seq<Seq<char>>,
)
    requires
        grammatical(e),
        spelled(num, e),
        lexable(e),
        well_called(env, e),
        gaps.len() == written(e).len() + 1,
        forall|i: int| 0 <= i < gaps.len() ==> all_blank(#[trigger] gaps[i]),
    ensures
        evaluate_text(num, sem, env, spelling(written(e), gaps)) == match value(sem, env, e) {
            Ok(v) => Ok(seq![v]),
            Err(err) => Err(err),
        },
{
    lemma_written_literals(e);
    law_lexer_reads_spelling(written(e), gaps);
    law_text_value(num, sem, env, spelling(written(e), gaps), e);
}

} // verus!
