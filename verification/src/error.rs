use crate::util::push_char;
use vstd::prelude::*;
use vstd::string::StringExecFns;

verus! {

/// What can go wrong while a formula is read or evaluated.
///
/// `N` is the representation of names: `String` in executable code and
/// `Seq<char>` in specifications.
#[derive(Debug, Clone, PartialEq)]
pub enum EvalError<N = String> {
    FunctionNotFound(N),
    ConstantNotFound,
    /// A literal that is neither a number, a named constant nor an identifier.
    InvalidString(N),
    /// A character outside literals that is neither a symbol nor white space.
    InvalidCharacter(char),
    UnexpectedParenthesis,
    UndefinedFunction(N),
    UndefinedVariable(N),
    /// The program underflows the stack or does not leave exactly one value.
    WrongExpression,
    WrongArguments(usize),
    /// The statement index is not below the number of statements.
    WrongExprIndex(usize),
}

impl View for EvalError {
    type V = EvalError<Seq<char>>;

    open spec fn view(&self) -> EvalError<Seq<char>> {
        match self {
            EvalError::FunctionNotFound(s) => EvalError::FunctionNotFound(s@),
            EvalError::ConstantNotFound => EvalError::ConstantNotFound,
            EvalError::InvalidString(s) => EvalError::InvalidString(s@),
            EvalError::InvalidCharacter(c) => EvalError::InvalidCharacter(*c),
            EvalError::UnexpectedParenthesis => EvalError::UnexpectedParenthesis,
            EvalError::UndefinedFunction(s) => EvalError::UndefinedFunction(s@),
            EvalError::UndefinedVariable(s) => EvalError::UndefinedVariable(s@),
            EvalError::WrongExpression => EvalError::WrongExpression,
            EvalError::WrongArguments(n) => EvalError::WrongArguments(*n),
            EvalError::WrongExprIndex(n) => EvalError::WrongExprIndex(*n),
        }
    }
}

impl DeepView for EvalError {
    type V = EvalError<Seq<char>>;

    open spec fn deep_view(&self) -> EvalError<Seq<char>> {
        self@
    }
}

/// A result in which both sides are taken by their specification-level value.
pub open spec fn outcome<T: DeepView, E: DeepView>(r: Result<T, E>) -> Result<T::V, E::V> {
    match r {
        Ok(v) => Ok(v.deep_view()),
        Err(e) => Err(e.deep_view()),
    }
}

/// The character of a decimal digit.
pub open spec fn digit_char(d: nat) -> char {
    if d == 0 {
        '0'
    } else if d == 1 {
        '1'
    } else if d == 2 {
        '2'
    } else if d == 3 {
        '3'
    } else if d == 4 {
        '4'
    } else if d == 5 {
        '5'
    } else if d == 6 {
        '6'
    } else if d == 7 {
        '7'
    } else if d == 8 {
        '8'
    } else {
        '9'
    }
}

/// A number written in decimal, without leading zeros.
pub open spec fn decimal(n: nat) -> Seq<char>
    decreases n,
{
    if n < 10 {
        seq![digit_char(n)]
    } else {
        decimal(n / 10).push(digit_char(n % 10))
    }
}

fn digit(d: usize) -> (c: char)
    requires
        d < 10,
    ensures
        c == digit_char(d as nat),
{
    if d == 0 {
        '0'
    } else if d == 1 {
        '1'
    } else if d == 2 {
        '2'
    } else if d == 3 {
        '3'
    } else if d == 4 {
        '4'
    } else if d == 5 {
        '5'
    } else if d == 6 {
        '6'
    } else if d == 7 {
        '7'
    } else if d == 8 {
        '8'
    } else {
        '9'
    }
}

fn write_decimal(n: usize, out: &mut String)
    ensures
        final(out)@ == old(out)@ + decimal(n as nat),
    decreases n,
{
    if n >= 10 {
        write_decimal(n / 10, out);
    }
    push_char(out, digit(n % 10));
    assert(out@ =~= old(out)@ + decimal(n as nat));
}

/// What an error says, in words.
pub open spec fn message_text(e: EvalError<Seq<char>>) -> Seq<char> {
    match e {
        EvalError::InvalidString(s) => "string "@ + s + " is Invalid"@,
        EvalError::InvalidCharacter(c) => "character "@.push(c) + " is invalid"@,
        EvalError::ConstantNotFound => "Consts is not found"@,
        EvalError::FunctionNotFound(s) => "function "@ + s + " is unimplemented"@,
        EvalError::UnexpectedParenthesis => "unexpected or unbalanced parehthesis"@,
        EvalError::UndefinedFunction(s) => "function "@ + s + " is undefined"@,
        EvalError::UndefinedVariable(s) => "variable "@ + s + " is undefined"@,
        EvalError::WrongExpression => "Wrong expression."@,
        EvalError::WrongArguments(n) => "Expected number of arguments is "@ + decimal(n as nat),
        EvalError::WrongExprIndex(n) => "Wrong Expr Vec index: "@ + decimal(n as nat),
    }
}

fn framed(before: &str, middle: &str, after: &str) -> (r: String)
    ensures
        r@ == before@ + middle@ + after@,
{
    let mut text = String::from_str(before);
    text.append(middle);
    text.append(after);
    text
}

impl EvalError {
    /// The error in words.
    pub fn message(&self) -> (r: String)
        ensures
            r@ == message_text(self@),
    {
        match self {
            EvalError::InvalidString(s) => framed("string ", s.as_str(), " is Invalid"),
            EvalError::InvalidCharacter(c) => {
                let mut text = String::from_str("character ");
                push_char(&mut text, *c);
                text.append(" is invalid");
                text
            },
            EvalError::ConstantNotFound => String::from_str("Consts is not found"),
            EvalError::FunctionNotFound(s) => framed("function ", s.as_str(), " is unimplemented"),
            EvalError::UnexpectedParenthesis => String::from_str(
                "unexpected or unbalanced parehthesis",
            ),
            EvalError::UndefinedFunction(s) => framed("function ", s.as_str(), " is undefined"),
            EvalError::UndefinedVariable(s) => framed("variable ", s.as_str(), " is undefined"),
            EvalError::WrongExpression => String::from_str("Wrong expression."),
            EvalError::WrongArguments(n) => {
                let mut text = String::from_str("Expected number of arguments is ");
                write_decimal(*n, &mut text);
                text
            },
            EvalError::WrongExprIndex(n) => {
                let mut text = String::from_str("Wrong Expr Vec index: ");
                write_decimal(*n, &mut text);
                text
            },
        }
    }
}

} // verus!
