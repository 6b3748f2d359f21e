use crate::error::{outcome, EvalError};
use crate::token::{
    binding_power, constant_bits, constant_named, function_named, BinaryOp, Constant, Function,
    PreToken, Token, UnaryOp, Value,
};
use crate::util::{
    ident_text, is_identstr, is_literalchar, is_whitespace, literal_char, push_char, white_space,
};
use vstd::prelude::*;

verus! {

/// The symbol that a character outside literals stands for.
pub open spec fn symbol_of(c: char) -> Option<PreToken<Seq<char>>> {
    if c == '+' {
        Some(PreToken::Plus)
    } else if c == '-' {
        Some(PreToken::Minus)
    } else if c == '*' {
        Some(PreToken::Asterisk)
    } else if c == '/' {
        Some(PreToken::Slash)
    } else if c == '%' {
        Some(PreToken::Percent)
    } else if c == '(' {
        Some(PreToken::LeftParen)
    } else if c == ')' {
        Some(PreToken::RightParen)
    } else if c == ';' {
        Some(PreToken::SemiColon)
    } else if c == ',' {
        Some(PreToken::Comma)
    } else {
        None
    }
}

/// The lexer between two characters: the lexemes found so far, and the run
/// of literal characters that is still open.
pub struct Scan {
    pub found: Seq<PreToken<Seq<char>>>,
    pub run: Seq<char>,
}

/// The lexemes once the open run is closed: a non-empty run is one literal.
pub open spec fn flushed(scan: Scan) -> Seq<PreToken<Seq<char>>> {
    if scan.run.len() == 0 {
        scan.found
    } else {
        scan.found.push(PreToken::Literal(scan.run))
    }
}

/// One character further. A literal character extends the run. Any other
/// character closes it, and is then a lexeme of its own if it is a symbol,
/// nothing if it is white space, and an error otherwise.
pub open spec fn scan_char(scan: Scan, c: char) -> Result<Scan, EvalError<Seq<char>>> {
    if literal_char(c) {
        Ok(Scan { found: scan.found, run: scan.run.push(c) })
    } else {
        match symbol_of(c) {
            Some(p) => Ok(Scan { found: flushed(scan).push(p), run: Seq::empty() }),
            None => if white_space(c) {
                Ok(Scan { found: flushed(scan), run: Seq::empty() })
            } else {
                Err(EvalError::InvalidCharacter(c))
            },
        }
    }
}

/// The lexer after all of `text`, read from left to right.
pub open spec fn scanned(text: Seq<char>) -> Result<Scan, EvalError<Seq<char>>>
    decreases text.len(),
{
    if text.len() == 0 {
        Ok(Scan { found: Seq::empty(), run: Seq::empty() })
    } else {
        match scanned(text.drop_last()) {
            Ok(scan) => scan_char(scan, text.last()),
            Err(e) => Err(e),
        }
    }
}

/// The lexemes of a text, or the error at its first character that is none.
pub open spec fn lexemes(text: Seq<char>) -> Result<Seq<PreToken<Seq<char>>>, EvalError<Seq<char>>> {
    match scanned(text) {
        Ok(scan) => Ok(flushed(scan)),
        Err(e) => Err(e),
    }
}

fn symbol(c: char) -> (r: Option<PreToken>)
    ensures
        r.deep_view() == symbol_of(c),
{
    if c == '+' {
        Some(PreToken::Plus)
    } else if c == '-' {
        Some(PreToken::Minus)
    } else if c == '*' {
        Some(PreToken::Asterisk)
    } else if c == '/' {
        Some(PreToken::Slash)
    } else if c == '%' {
        Some(PreToken::Percent)
    } else if c == '(' {
        Some(PreToken::LeftParen)
    } else if c == ')' {
        Some(PreToken::RightParen)
    } else if c == ';' {
        Some(PreToken::SemiColon)
    } else if c == ',' {
        Some(PreToken::Comma)
    } else {
        None
    }
}

/// Closes the open run: a non-empty one becomes a literal.
fn flush(pretokens: &mut Vec<PreToken>, run: &mut String)
    ensures
        final(pretokens).deep_view() == flushed(
            Scan { found: old(pretokens).deep_view(), run: old(run)@ },
        ),
        final(run)@ == Seq::<char>::empty(),
{
    if !run.as_str().is_empty() {
        let mut text = String::new();
        std::mem::swap(run, &mut text);
        pretokens.push(PreToken::Literal(text));
        assert(pretokens.deep_view() =~= old(pretokens).deep_view().push(
            PreToken::Literal(old(run)@),
        ));
    } else {
        assert(run@ =~= Seq::<char>::empty());
    }
}

/// Splits a text into lexemes.
pub fn parse_str_to_pretokens(expr: &str) -> (r: Result<Vec<PreToken>, EvalError>)
    ensures
        outcome(r) == lexemes(expr@),
{
    let mut pretokens: Vec<PreToken> = Vec::new();
    let mut run = String::new();
    assert(pretokens.deep_view() =~= Seq::empty());
    assert(expr@.take(0) =~= Seq::empty());
    for c in it: expr.chars()
        invariant
            it.seq() == expr@,
            scanned(expr@.take(it.index() as int)) == Ok::<Scan, EvalError<Seq<char>>>(
                Scan { found: pretokens.deep_view(), run: run@ },
            ),
    {
        proof {
            let upto = expr@.take(it.index() + 1);
            assert(upto.drop_last() =~= expr@.take(it.index() as int));
            assert(upto.last() == c);
        }
        if is_literalchar(c) {
            push_char(&mut run, c);
        } else {
            flush(&mut pretokens, &mut run);
            match symbol(c) {
                Some(p) => {
                    let ghost before = pretokens.deep_view();
                    pretokens.push(p);
                    assert(pretokens.deep_view() =~= before.push(p@));
                },
                None => {
                    if !is_whitespace(c) {
                        proof {
                            lemma_scan_error_stays(expr@, it.index() + 1);
                        }
                        return Err(EvalError::InvalidCharacter(c));
                    }
                },
            }
        }
    }
    assert(expr@.take(expr@.len() as int) =~= expr@);
    flush(&mut pretokens, &mut run);
    Ok(pretokens)
}

/// Once a prefix fails to scan, the whole text fails with the same error.
proof fn lemma_scan_error_stays(text: Seq<char>, n: int)
    requires
        0 <= n <= text.len(),
        scanned(text.take(n)) is Err,
    ensures
        scanned(text) == scanned(text.take(n)),
    decreases text.len() - n,
{
    if n < text.len() {
        let longer = text.take(n + 1);
        assert(longer.drop_last() =~= text.take(n));
        lemma_scan_error_stays(text, n + 1);
    } else {
        assert(text.take(n) =~= text);
    }
}

/// The token that a literal stands for, given what the reading of numbers
/// made of it and whether a `(` follows: a number first, then a named
/// constant, then an identifier, which is a function where it is called and
/// a variable elsewhere.
pub open spec fn literal_token(text: Seq<char>, number: Option<Value>, called: bool) -> Result<
    Token<Seq<char>>,
    EvalError<Seq<char>>,
> {
    match number {
        Some(v) => Ok(Token::Value(v)),
        None => match constant_named(text) {
            Some(c) => Ok(Token::Value(constant_bits(c))),
            None => if ident_text(text) {
                if called {
                    Ok(Token::Function(function_named(text)))
                } else {
                    Ok(Token::Var(text))
                }
            } else {
                Err(EvalError::InvalidString(text))
            },
        },
    }
}

/// Turns a literal into a token; `number` is what the reading of numbers
/// returned for its text.
pub fn classify_literal(text: &str, number: Option<Value>, called: bool) -> (r: Result<
    Token,
    EvalError,
>)
    ensures
        outcome(r) == literal_token(text@, number, called),
{
    match number {
        Some(v) => Ok(Token::Value(v)),
        None => match Constant::from_str(text) {
            Ok(c) => Ok(Token::Value(c.eval())),
            Err(_) => if is_identstr(text) {
                if called {
                    match Function::from_str(text) {
                        Ok(f) => Ok(Token::Function(f)),
                        Err(e) => Err(e),
                    }
                } else {
                    Ok(Token::Var(text.to_owned()))
                }
            } else {
                Err(EvalError::InvalidString(text.to_owned()))
            },
        },
    }
}

/// A token after which a `-` subtracts: one that ends an operand.
pub open spec fn ends_operand(t: Token<Seq<char>>) -> bool {
    t is RightParen || t is Value || t is Var
}

/// The tokenizer between two lexemes: the statements that are closed, the
/// tokens of the open one, and how many parentheses are open.
pub struct Split {
    pub closed: Seq<Seq<Token<Seq<char>>>>,
    pub open: Seq<Token<Seq<char>>>,
    pub depth: nat,
}

/// The state with one more token in the open statement.
pub open spec fn with_token(st: Split, t: Token<Seq<char>>) -> Split {
    Split { closed: st.closed, open: st.open.push(t), depth: st.depth }
}

/// The state with the open statement closed and an empty one begun.
pub open spec fn with_statement_closed(st: Split) -> Split {
    Split { closed: st.closed.push(st.open), open: Seq::empty(), depth: st.depth }
}

/// One lexeme further. `number` is the reading of a literal's text as a
/// number, and `called` says whether a `(` is the next lexeme.
pub open spec fn split_lexeme(
    st: Split,
    p: PreToken<Seq<char>>,
    number: Option<Value>,
    called: bool,
) -> Result<Split, EvalError<Seq<char>>> {
    match p {
        PreToken::Literal(text) => match literal_token(text, number, called) {
            Ok(t) => Ok(with_token(st, t)),
            Err(e) => Err(e),
        },
        PreToken::Plus => Ok(with_token(st, Token::Binary(BinaryOp::Add))),
        PreToken::Minus => if st.open.len() > 0 && ends_operand(st.open.last()) {
            Ok(with_token(st, Token::Binary(BinaryOp::Sub)))
        } else {
            Ok(with_token(st, Token::Unary(UnaryOp::Neg)))
        },
        PreToken::Asterisk => Ok(with_token(st, Token::Binary(BinaryOp::Mul))),
        PreToken::Slash => Ok(with_token(st, Token::Binary(BinaryOp::Div))),
        PreToken::Percent => Ok(with_token(st, Token::Binary(BinaryOp::Rem))),
        PreToken::LeftParen => Ok(
            Split { closed: st.closed, open: st.open.push(Token::LeftParen), depth: st.depth + 1 },
        ),
        PreToken::RightParen => if st.depth == 0 {
            Err(EvalError::UnexpectedParenthesis)
        } else {
            Ok(
                Split {
                    closed: st.closed,
                    open: st.open.push(Token::RightParen),
                    depth: (st.depth - 1) as nat,
                },
            )
        },
        PreToken::SemiColon => Ok(with_statement_closed(st)),
        PreToken::Comma => if st.depth > 0 {
            Ok(with_token(st, Token::Comma))
        } else {
            Ok(with_statement_closed(st))
        },
    }
}

/// The reading of a lexeme as a number: that of its text, for a literal.
pub open spec fn number_of(num: spec_fn(Seq<char>) -> Option<Value>, p: PreToken<Seq<char>>) -> Option<
    Value,
> {
    match p {
        PreToken::Literal(text) => num(text),
        _ => None,
    }
}

/// Whether the lexeme at position `i` is a `(`.
pub open spec fn paren_at(ps: Seq<PreToken<Seq<char>>>, i: int) -> bool {
    0 <= i < ps.len() && ps[i] is LeftParen
}

/// The tokenizer after the first `n` lexemes.
pub open spec fn split_upto(
    num: spec_fn(Seq<char>) -> Option<Value>,
    ps: Seq<PreToken<Seq<char>>>,
    n: nat,
) -> Result<Split, EvalError<Seq<char>>>
    decreases n,
{
    if n == 0 {
        Ok(Split { closed: Seq::empty(), open: Seq::empty(), depth: 0 })
    } else {
        match split_upto(num, ps, (n - 1) as nat) {
            Ok(st) => split_lexeme(st, ps[n - 1], number_of(num, ps[n - 1]), paren_at(ps, n as int)),
            Err(e) => Err(e),
        }
    }
}

/// The statements of a list of lexemes, each a list of tokens in the order
/// of the text, where `num` reads numbers. A statement ends at a `;` and at
/// a `,` outside parentheses. The last one counts only if it is not empty.
/// Parentheses that do not match are an error.
pub open spec fn statements(
    num: spec_fn(Seq<char>) -> Option<Value>,
    ps: Seq<PreToken<Seq<char>>>,
) -> Result<Seq<Seq<Token<Seq<char>>>>, EvalError<Seq<char>>> {
    match split_upto(num, ps, ps.len()) {
        Ok(st) => if st.depth != 0 {
            Err(EvalError::UnexpectedParenthesis)
        } else if st.open.len() > 0 {
            Ok(st.closed.push(st.open))
        } else {
            Ok(st.closed)
        },
        Err(e) => Err(e),
    }
}

/// The function `number` reads numbers as `num` does.
pub open spec fn reads_as<N: Fn(&str) -> Option<Value>>(
    number: N,
    num: spec_fn(Seq<char>) -> Option<Value>,
) -> bool {
    forall|text: &str, r: Option<Value>| #[trigger]
        call_ensures(number, (text,), r) ==> r == num(text@)
}

/// Once a prefix fails to split, the whole list fails with the same error.
proof fn lemma_split_error_stays(
    num: spec_fn(Seq<char>) -> Option<Value>,
    ps: Seq<PreToken<Seq<char>>>,
    n: nat,
)
    requires
        n <= ps.len(),
        split_upto(num, ps, n) is Err,
    ensures
        split_upto(num, ps, ps.len()) == split_upto(num, ps, n),
    decreases ps.len() - n,
{
    if n < ps.len() {
        lemma_split_error_stays(num, ps, n + 1);
    }
}

fn push_token(tokens: &mut Vec<Token>, t: Token)
    ensures
        final(tokens).deep_view() == old(tokens).deep_view().push(t@),
{
    tokens.push(t);
    assert(tokens.deep_view() =~= old(tokens).deep_view().push(t@));
}

fn close_statement(closed: &mut Vec<Vec<Token>>, open: &mut Vec<Token>)
    ensures
        final(closed).deep_view() == old(closed).deep_view().push(old(open).deep_view()),
        final(open).deep_view() == Seq::<Token<Seq<char>>>::empty(),
{
    let mut statement: Vec<Token> = Vec::new();
    std::mem::swap(open, &mut statement);
    closed.push(statement);
    assert(closed.deep_view() =~= old(closed).deep_view().push(old(open).deep_view()));
    assert(open.deep_view() =~= Seq::<Token<Seq<char>>>::empty());
}

fn token_ends_operand(t: &Token) -> (r: bool)
    ensures
        r == ends_operand(t@),
{
    match t {
        Token::RightParen | Token::Value(_) | Token::Var(_) => true,
        _ => false,
    }
}

fn is_left_paren(p: &PreToken) -> (r: bool)
    ensures
        r == (p@ is LeftParen),
{
    match p {
        PreToken::LeftParen => true,
        _ => false,
    }
}

/// Turns lexemes into the token lists of the statements. `number` reads a
/// literal's text as a number, or says that it is none.
pub fn pretoken_to_tokens<N: Fn(&str) -> Option<Value>>(pretokens: &[PreToken], number: &N) -> (r:
    Result<Vec<Vec<Token>>, EvalError>)
    requires
        forall|text: &str| call_requires(*number, (text,)),
    ensures
        forall|num: spec_fn(Seq<char>) -> Option<Value>| #[trigger]
            reads_as(*number, num) ==> outcome(r) == statements(num, pretokens.deep_view()),
{
    let ghost ps = pretokens.deep_view();
    let mut closed: Vec<Vec<Token>> = Vec::new();
    let mut open: Vec<Token> = Vec::new();
    let mut depth: usize = 0;
    let mut i: usize = 0;
    assert(closed.deep_view() =~= Seq::empty());
    assert(open.deep_view() =~= Seq::empty());
    while i < pretokens.len()
        invariant
            i <= pretokens.len(),
            ps == pretokens.deep_view(),
            depth <= i,
            forall|text: &str| call_requires(*number, (text,)),
            forall|num: spec_fn(Seq<char>) -> Option<Value>| #[trigger]
                reads_as(*number, num) ==> split_upto(num, ps, i as nat) == Ok::<
                    Split,
                    EvalError<Seq<char>>,
                >(Split { closed: closed.deep_view(), open: open.deep_view(), depth: depth as nat }),
        decreases pretokens.len() - i,
    {
        let ghost before = Split {
            closed: closed.deep_view(),
            open: open.deep_view(),
            depth: depth as nat,
        };
        let ghost p = ps[i as int];
        assert(p == pretokens[i as int]@);
        let called = i + 1 < pretokens.len() && is_left_paren(&pretokens[i + 1]);
        assert(called == paren_at(ps, i + 1));
        let ghost mut parsed: Option<Value> = None;
        let mut failure: Option<EvalError> = None;
        match &pretokens[i] {
            PreToken::Literal(text) => {
                let number_read = number(text.as_str());
                proof {
                    parsed = number_read;
                }
                match classify_literal(text.as_str(), number_read, called) {
                    Ok(t) => {
                        push_token(&mut open, t);
                    },
                    Err(e) => {
                        failure = Some(e);
                    },
                }
            },
            PreToken::Plus => {
                push_token(&mut open, Token::Binary(BinaryOp::Add));
            },
            PreToken::Minus => {
                if open.len() > 0 && token_ends_operand(&open[open.len() - 1]) {
                    push_token(&mut open, Token::Binary(BinaryOp::Sub));
                } else {
                    push_token(&mut open, Token::Unary(UnaryOp::Neg));
                }
            },
            PreToken::Asterisk => {
                push_token(&mut open, Token::Binary(BinaryOp::Mul));
            },
            PreToken::Slash => {
                push_token(&mut open, Token::Binary(BinaryOp::Div));
            },
            PreToken::Percent => {
                push_token(&mut open, Token::Binary(BinaryOp::Rem));
            },
            PreToken::LeftParen => {
                push_token(&mut open, Token::LeftParen);
                depth = depth + 1;
            },
            PreToken::RightParen => {
                if depth == 0 {
                    failure = Some(EvalError::UnexpectedParenthesis);
                } else {
                    push_token(&mut open, Token::RightParen);
                    depth = depth - 1;
                }
            },
            PreToken::SemiColon => {
                close_statement(&mut closed, &mut open);
            },
            PreToken::Comma => {
                if depth > 0 {
                    push_token(&mut open, Token::Comma);
                } else {
                    close_statement(&mut closed, &mut open);
                }
            },
        }
        let ghost after = Split {
            closed: closed.deep_view(),
            open: open.deep_view(),
            depth: depth as nat,
        };
        match failure {
            Some(e) => {
                proof {
                    assert forall|num: spec_fn(Seq<char>) -> Option<Value>| #[trigger]
                        reads_as(*number, num) implies outcome(Err::<Vec<Vec<Token>>, EvalError>(e))
                        == statements(num, ps) by {
                        assert(split_upto(num, ps, i as nat) == Ok::<Split, EvalError<Seq<char>>>(
                            before,
                        ));
                        assert(p is Literal ==> parsed == number_of(num, p));
                        assert(split_upto(num, ps, (i + 1) as nat) == Err::<
                            Split,
                            EvalError<Seq<char>>,
                        >(e@));
                        lemma_split_error_stays(num, ps, (i + 1) as nat);
                    }
                }
                return Err(e);
            },
            None => {
                proof {
                    assert forall|num: spec_fn(Seq<char>) -> Option<Value>| #[trigger]
                        reads_as(*number, num) implies split_upto(num, ps, (i + 1) as nat) == Ok::<
                        Split,
                        EvalError<Seq<char>>,
                    >(after) by {
                        assert(split_upto(num, ps, i as nat) == Ok::<Split, EvalError<Seq<char>>>(
                            before,
                        ));
                        assert(p is Literal ==> parsed == number_of(num, p));
                    }
                }
            },
        }
        i = i + 1;
    }
    if depth != 0 {
        return Err(EvalError::UnexpectedParenthesis);
    }
    if open.len() > 0 {
        close_statement(&mut closed, &mut open);
    }
    Ok(closed)
}

/// The parser between two tokens: the output queue and the operator stack,
/// whose top is its last element.
pub struct Yard {
    pub output: Seq<Token<Seq<char>>>,
    pub stack: Seq<Token<Seq<char>>>,
}

/// Moves operators from the stack to the output for as long as the right
/// binding power of the top is at least `left`.
pub open spec fn unwound(yard: Yard, left: u8) -> Yard
    decreases yard.stack.len(),
{
    if yard.stack.len() > 0 && binding_power(yard.stack.last()).1 >= left {
        unwound(
            Yard { output: yard.output.push(yard.stack.last()), stack: yard.stack.drop_last() },
            left,
        )
    } else {
        yard
    }
}

/// One token further. An operand goes to the output. Any other token first
/// unwinds the stack by its left binding power. A `)` then needs a `(` on
/// top, which it removes, together with a function below it, which goes to
/// the output. A `,` is dropped. Every other token is pushed.
pub open spec fn shunt(yard: Yard, t: Token<Seq<char>>) -> Result<Yard, EvalError<Seq<char>>> {
    if t is Value || t is Var {
        Ok(Yard { output: yard.output.push(t), stack: yard.stack })
    } else {
        let y = unwound(yard, binding_power(t).0);
        if t is RightParen {
            if y.stack.len() > 0 && y.stack.last() is LeftParen {
                let below = y.stack.drop_last();
                if below.len() > 0 && below.last() is Function {
                    Ok(Yard { output: y.output.push(below.last()), stack: below.drop_last() })
                } else {
                    Ok(Yard { output: y.output, stack: below })
                }
            } else {
                Err(EvalError::UnexpectedParenthesis)
            }
        } else if t is Comma {
            Ok(y)
        } else {
            Ok(Yard { output: y.output, stack: y.stack.push(t) })
        }
    }
}

/// The parser after all of `tokens`, read from left to right.
pub open spec fn shunted(tokens: Seq<Token<Seq<char>>>) -> Result<Yard, EvalError<Seq<char>>>
    decreases tokens.len(),
{
    if tokens.len() == 0 {
        Ok(Yard { output: Seq::empty(), stack: Seq::empty() })
    } else {
        match shunted(tokens.drop_last()) {
            Ok(yard) => shunt(yard, tokens.last()),
            Err(e) => Err(e),
        }
    }
}

/// Some token of the list is a parenthesis.
pub open spec fn holds_paren(tokens: Seq<Token<Seq<char>>>) -> bool {
    exists|i: int| 0 <= i < tokens.len() && is_paren(#[trigger] tokens[i])
}

pub open spec fn is_paren(t: Token<Seq<char>>) -> bool {
    t is LeftParen || t is RightParen
}

/// The postfix form of a statement: the output after the last token,
/// followed by what is left on the stack, top first. A parenthesis that is
/// left on the stack was never closed.
pub open spec fn postfix(tokens: Seq<Token<Seq<char>>>) -> Result<
    Seq<Token<Seq<char>>>,
    EvalError<Seq<char>>,
> {
    match shunted(tokens) {
        Ok(yard) => if holds_paren(yard.stack) {
            Err(EvalError::UnexpectedParenthesis)
        } else {
            Ok(yard.output + yard.stack.reverse())
        },
        Err(e) => Err(e),
    }
}

/// Once a prefix fails to parse, the whole statement fails with the same error.
proof fn lemma_shunt_error_stays(tokens: Seq<Token<Seq<char>>>, n: int)
    requires
        0 <= n <= tokens.len(),
        shunted(tokens.take(n)) is Err,
    ensures
        shunted(tokens) == shunted(tokens.take(n)),
    decreases tokens.len() - n,
{
    if n < tokens.len() {
        let longer = tokens.take(n + 1);
        assert(longer.drop_last() =~= tokens.take(n));
        lemma_shunt_error_stays(tokens, n + 1);
    } else {
        assert(tokens.take(n) =~= tokens);
    }
}

fn pop_token(tokens: &mut Vec<Token>) -> (t: Token)
    requires
        old(tokens).len() > 0,
    ensures
        final(tokens).deep_view() == old(tokens).deep_view().drop_last(),
        t@ == old(tokens).deep_view().last(),
        final(tokens).len() == old(tokens).len() - 1,
{
    let t = tokens.pop().unwrap();
    assert(tokens.deep_view() =~= old(tokens).deep_view().drop_last());
    t
}

/// Converts one statement from infix to postfix order.
pub fn to_rpn(tokens: &[Token]) -> (r: Result<Vec<Token>, EvalError>)
    ensures
        outcome(r) == postfix(tokens.deep_view()),
{
    let ghost ts = tokens.deep_view();
    let mut rpn_stack: Vec<Token> = Vec::new();
    let mut op_stack: Vec<Token> = Vec::new();
    let mut i: usize = 0;
    assert(rpn_stack.deep_view() =~= Seq::empty());
    assert(op_stack.deep_view() =~= Seq::empty());
    assert(ts.take(0) =~= Seq::empty());
    while i < tokens.len()
        invariant
            i <= tokens.len(),
            ts == tokens.deep_view(),
            shunted(ts.take(i as int)) == Ok::<Yard, EvalError<Seq<char>>>(
                Yard { output: rpn_stack.deep_view(), stack: op_stack.deep_view() },
            ),
        decreases tokens.len() - i,
    {
        let token = &tokens[i];
        proof {
            let upto = ts.take(i + 1);
            assert(upto.drop_last() =~= ts.take(i as int));
            assert(upto.last() == token@);
        }
        match token {
            Token::Value(_) | Token::Var(_) => {
                push_token(&mut rpn_stack, token.duplicate());
            },
            _ => {
                let (left, _) = token.precedence();
                let ghost start = Yard {
                    output: rpn_stack.deep_view(),
                    stack: op_stack.deep_view(),
                };
                while op_stack.len() > 0 && op_stack[op_stack.len() - 1].precedence().1 >= left
                    invariant
                        unwound(start, left) == unwound(
                            Yard { output: rpn_stack.deep_view(), stack: op_stack.deep_view() },
                            left,
                        ),
                    decreases op_stack.len(),
                {
                    let top = pop_token(&mut op_stack);
                    push_token(&mut rpn_stack, top);
                }
                match token {
                    Token::RightParen => {
                        let closes = op_stack.len() > 0 && match &op_stack[op_stack.len() - 1] {
                            Token::LeftParen => true,
                            _ => false,
                        };
                        if closes {
                            let _ = pop_token(&mut op_stack);
                            let calls = op_stack.len() > 0 && match &op_stack[op_stack.len() - 1] {
                                Token::Function(_) => true,
                                _ => false,
                            };
                            if calls {
                                let function = pop_token(&mut op_stack);
                                push_token(&mut rpn_stack, function);
                            }
                        } else {
                            proof {
                                lemma_shunt_error_stays(ts, i + 1);
                            }
                            return Err(EvalError::UnexpectedParenthesis);
                        }
                    },
                    Token::Comma => {},
                    _ => {
                        push_token(&mut op_stack, token.duplicate());
                    },
                }
            },
        }
        i = i + 1;
    }
    assert(ts.take(ts.len() as int) =~= ts);
    let ghost yard = Yard { output: rpn_stack.deep_view(), stack: op_stack.deep_view() };
    while op_stack.len() > 0
        invariant
            ts == tokens.deep_view(),
            shunted(ts) == Ok::<Yard, EvalError<Seq<char>>>(yard),
            op_stack.len() <= yard.stack.len(),
            op_stack.deep_view() == yard.stack.take(op_stack.len() as int),
            rpn_stack.deep_view() == yard.output + yard.stack.skip(op_stack.len() as int).reverse(),
            !holds_paren(yard.stack.skip(op_stack.len() as int)),
        decreases op_stack.len(),
    {
        let ghost n = op_stack.len() as int;
        let top = pop_token(&mut op_stack);
        let paren = match &top {
            Token::LeftParen | Token::RightParen => true,
            _ => false,
        };
        if paren {
            assert(top@ == yard.stack.take(n).last());
            assert(is_paren(yard.stack[n - 1]));
            return Err(EvalError::UnexpectedParenthesis);
        }
        push_token(&mut rpn_stack, top);
        proof {
            let rest = yard.stack.skip(n);
            let more = yard.stack.skip(n - 1);
            assert(more =~= seq![yard.stack[n - 1]] + rest);
            assert(more.reverse() =~= rest.reverse().push(yard.stack[n - 1]));
            assert(rpn_stack.deep_view() =~= yard.output + more.reverse());
            assert(op_stack.deep_view() =~= yard.stack.take(n - 1));
            if holds_paren(more) {
                let k = choose|k: int| 0 <= k < more.len() && is_paren(#[trigger] more[k]);
                if k > 0 {
                    assert(is_paren(rest[k - 1]));
                }
            }
        }
    }
    assert(yard.stack.skip(0) =~= yard.stack);
    Ok(rpn_stack)
}

/// The postfix forms of statements: of each in turn, or the error of the
/// first that has one.
pub open spec fn postfix_each(statements: Seq<Seq<Token<Seq<char>>>>) -> Result<
    Seq<Seq<Token<Seq<char>>>>,
    EvalError<Seq<char>>,
>
    decreases statements.len(),
{
    if statements.len() == 0 {
        Ok(Seq::empty())
    } else {
        match postfix_each(statements.drop_last()) {
            Ok(programs) => match postfix(statements.last()) {
                Ok(program) => Ok(programs.push(program)),
                Err(e) => Err(e),
            },
            Err(e) => Err(e),
        }
    }
}

/// The postfix programs of a text, one for each statement, where `num`
/// reads numbers.
pub open spec fn programs(num: spec_fn(Seq<char>) -> Option<Value>, text: Seq<char>) -> Result<
    Seq<Seq<Token<Seq<char>>>>,
    EvalError<Seq<char>>,
> {
    match lexemes(text) {
        Ok(ps) => match statements(num, ps) {
            Ok(statements) => postfix_each(statements),
            Err(e) => Err(e),
        },
        Err(e) => Err(e),
    }
}

/// Once a prefix of the statements has an error, the whole list has it.
proof fn lemma_postfix_error_stays(statements: Seq<Seq<Token<Seq<char>>>>, n: int)
    requires
        0 <= n <= statements.len(),
        postfix_each(statements.take(n)) is Err,
    ensures
        postfix_each(statements) == postfix_each(statements.take(n)),
    decreases statements.len() - n,
{
    if n < statements.len() {
        let longer = statements.take(n + 1);
        assert(longer.drop_last() =~= statements.take(n));
        lemma_postfix_error_stays(statements, n + 1);
    } else {
        assert(statements.take(n) =~= statements);
    }
}

/// Parses a text into postfix programs, one for each statement. `number`
/// reads a literal's text as a number, or says that it is none.
pub fn parse_str_to_rpn<N: Fn(&str) -> Option<Value>>(expr: &str, number: &N) -> (r: Result<
    Vec<Vec<Token>>,
    EvalError,
>)
    requires
        forall|text: &str| call_requires(*number, (text,)),
    ensures
        forall|num: spec_fn(Seq<char>) -> Option<Value>| #[trigger]
            reads_as(*number, num) ==> outcome(r) == programs(num, expr@),
{
    let pretokens = match parse_str_to_pretokens(expr) {
        Ok(pretokens) => pretokens,
        Err(e) => {
            return Err(e);
        },
    };
    let tokens_vec = match pretoken_to_tokens(pretokens.as_slice(), number) {
        Ok(tokens_vec) => tokens_vec,
        Err(e) => {
            return Err(e);
        },
    };
    let ghost infix = tokens_vec.deep_view();
    let mut ret_tokens: Vec<Vec<Token>> = Vec::new();
    let mut i: usize = 0;
    assert(ret_tokens.deep_view() =~= Seq::empty());
    assert(infix.take(0) =~= Seq::empty());
    while i < tokens_vec.len()
        invariant
            i <= tokens_vec.len(),
            infix == tokens_vec.deep_view(),
            lexemes(expr@) == Ok::<Seq<PreToken<Seq<char>>>, EvalError<Seq<char>>>(
                pretokens.deep_view(),
            ),
            forall|num: spec_fn(Seq<char>) -> Option<Value>| #[trigger]
                reads_as(*number, num) ==> statements(num, pretokens.deep_view()) == Ok::<
                    Seq<Seq<Token<Seq<char>>>>,
                    EvalError<Seq<char>>,
                >(infix),
            postfix_each(infix.take(i as int)) == Ok::<
                Seq<Seq<Token<Seq<char>>>>,
                EvalError<Seq<char>>,
            >(ret_tokens.deep_view()),
        decreases tokens_vec.len() - i,
    {
        proof {
            let upto = infix.take(i + 1);
            assert(upto.drop_last() =~= infix.take(i as int));
            assert(upto.last() == tokens_vec[i as int].deep_view());
        }
        match to_rpn(tokens_vec[i].as_slice()) {
            Ok(program) => {
                let ghost before = ret_tokens.deep_view();
                ret_tokens.push(program);
                assert(ret_tokens.deep_view() =~= before.push(program.deep_view()));
            },
            Err(e) => {
                proof {
                    lemma_postfix_error_stays(infix, i + 1);
                }
                return Err(e);
            },
        }
        i = i + 1;
    }
    assert(infix.take(infix.len() as int) =~= infix);
    Ok(ret_tokens)
}

} // verus!
