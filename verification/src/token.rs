use crate::error::EvalError;
use crate::util::{is_literalchar, literal_char, str_eq};
use vstd::prelude::*;

verus! {

/// A number, held as its IEEE 754 binary64 bit pattern.
pub type Value = u64;

/// An operator of one operand.
#[derive(Debug, PartialEq, Eq, Clone, Copy, Structural)]
pub enum UnaryOp {
    Neg,
}

/// An operator of two operands.
#[derive(Debug, PartialEq, Eq, Clone, Copy, Structural)]
pub enum BinaryOp {
    Add,
    Sub,
    Mul,
    Div,
    Rem,
}

/// A constant that formulas know by name.
#[derive(Debug, PartialEq, Eq, Clone, Copy, Structural)]
pub enum Constant {
    PI,
    Tau,
    E,
}

/// A function that a formula can call: one of the builtin ones, or one that
/// the caller registers under a name.
#[derive(Debug, PartialEq, Clone)]
pub enum Function<N = String> {
    Min,
    Max,
    Powi,
    Powf,
    Sin,
    Cos,
    Tan,
    Asin,
    Acos,
    Atan,
    Sinh,
    Cosh,
    Tanh,
    Sqrt,
    Cbrt,
    Hypot,
    Exp,
    Exp2,
    Log,
    Log10,
    Log2,
    Ln,
    Floor,
    Ceil,
    Round,
    Fract,
    Trunc,
    Abs,
    Signum,
    DivEuclid,
    RemEuclid,
    Custom(N),
}

/// What a statement is made of. `N` is the representation of names:
/// `String` in executable code and `Seq<char>` in specifications.
#[derive(Debug, PartialEq, Clone)]
pub enum Token<N = String> {
    Unary(UnaryOp),
    Binary(BinaryOp),
    Function(Function<N>),
    Value(Value),
    Var(N),
    LeftParen,
    RightParen,
    Comma,
}

/// What the lexer produces: a symbol, or a run of literal characters.
#[derive(Debug, PartialEq, Clone)]
pub enum PreToken<N = String> {
    Plus,
    Minus,
    Asterisk,
    Slash,
    Percent,
    LeftParen,
    RightParen,
    SemiColon,
    Comma,
    Literal(N),
}

impl View for Function {
    type V = Function<Seq<char>>;

    open spec fn view(&self) -> Function<Seq<char>> {
        match self {
            Function::Min => Function::Min,
            Function::Max => Function::Max,
            Function::Powi => Function::Powi,
            Function::Powf => Function::Powf,
            Function::Sin => Function::Sin,
            Function::Cos => Function::Cos,
            Function::Tan => Function::Tan,
            Function::Asin => Function::Asin,
            Function::Acos => Function::Acos,
            Function::Atan => Function::Atan,
            Function::Sinh => Function::Sinh,
            Function::Cosh => Function::Cosh,
            Function::Tanh => Function::Tanh,
            Function::Sqrt => Function::Sqrt,
            Function::Cbrt => Function::Cbrt,
            Function::Hypot => Function::Hypot,
            Function::Exp => Function::Exp,
            Function::Exp2 => Function::Exp2,
            Function::Log => Function::Log,
            Function::Log10 => Function::Log10,
            Function::Log2 => Function::Log2,
            Function::Ln => Function::Ln,
            Function::Floor => Function::Floor,
            Function::Ceil => Function::Ceil,
            Function::Round => Function::Round,
            Function::Fract => Function::Fract,
            Function::Trunc => Function::Trunc,
            Function::Abs => Function::Abs,
            Function::Signum => Function::Signum,
            Function::DivEuclid => Function::DivEuclid,
            Function::RemEuclid => Function::RemEuclid,
            Function::Custom(s) => Function::Custom(s@),
        }
    }
}

impl View for Token {
    type V = Token<Seq<char>>;

    open spec fn view(&self) -> Token<Seq<char>> {
        match self {
            Token::Unary(op) => Token::Unary(*op),
            Token::Binary(op) => Token::Binary(*op),
            Token::Function(f) => Token::Function(f@),
            Token::Value(v) => Token::Value(*v),
            Token::Var(s) => Token::Var(s@),
            Token::LeftParen => Token::LeftParen,
            Token::RightParen => Token::RightParen,
            Token::Comma => Token::Comma,
        }
    }
}

impl DeepView for Token {
    type V = Token<Seq<char>>;

    open spec fn deep_view(&self) -> Token<Seq<char>> {
        self@
    }
}

impl View for PreToken {
    type V = PreToken<Seq<char>>;

    open spec fn view(&self) -> PreToken<Seq<char>> {
        match self {
            PreToken::Plus => PreToken::Plus,
            PreToken::Minus => PreToken::Minus,
            PreToken::Asterisk => PreToken::Asterisk,
            PreToken::Slash => PreToken::Slash,
            PreToken::Percent => PreToken::Percent,
            PreToken::LeftParen => PreToken::LeftParen,
            PreToken::RightParen => PreToken::RightParen,
            PreToken::SemiColon => PreToken::SemiColon,
            PreToken::Comma => PreToken::Comma,
            PreToken::Literal(s) => PreToken::Literal(s@),
        }
    }
}

impl DeepView for PreToken {
    type V = PreToken<Seq<char>>;

    open spec fn deep_view(&self) -> PreToken<Seq<char>> {
        self@
    }
}

/// The bit pattern of the constant's binary64 value.
pub open spec fn constant_bits(c: Constant) -> Value {
    match c {
        Constant::PI => 0x4009_21FB_5444_2D18,
        Constant::Tau => 0x4019_21FB_5444_2D18,
        Constant::E => 0x4005_BF0A_8B14_5769,
    }
}

/// The constant that a name stands for, if it names one. Names are case-sensitive.
pub open spec fn constant_named(s: Seq<char>) -> Option<Constant> {
    if s == "PI"@ {
        Some(Constant::PI)
    } else if s == "TAU"@ {
        Some(Constant::Tau)
    } else if s == "E"@ {
        Some(Constant::E)
    } else {
        None
    }
}

impl Constant {
    /// The value of the constant.
    pub fn eval(&self) -> (r: Value)
        ensures
            r == constant_bits(*self),
    {
        match self {
            Constant::PI => 0x4009_21FB_5444_2D18,
            Constant::Tau => 0x4019_21FB_5444_2D18,
            Constant::E => 0x4005_BF0A_8B14_5769,
        }
    }

    /// The constant of that name.
    pub fn from_str(s: &str) -> (r: Result<Constant, EvalError>)
        ensures
            match constant_named(s@) {
                Some(c) => r == Ok::<Constant, EvalError>(c),
                None => r == Err::<Constant, EvalError>(EvalError::ConstantNotFound),
            },
    {
        if str_eq(s, "PI") {
            Ok(Constant::PI)
        } else if str_eq(s, "TAU") {
            Ok(Constant::Tau)
        } else if str_eq(s, "E") {
            Ok(Constant::E)
        } else {
            Err(EvalError::ConstantNotFound)
        }
    }
}

/// How many arguments a call takes, for a builtin function.
pub open spec fn builtin_arity(f: Function<Seq<char>>) -> usize {
    match f {
        Function::Powi | Function::Powf | Function::Log => 2,
        Function::DivEuclid | Function::RemEuclid => 2,
        Function::Hypot => 2,
        Function::Min | Function::Max => 2,
        _ => 1,
    }
}

/// The function that a name followed by `(` stands for: the builtin of that
/// name, and otherwise a custom function. `pow` is a second name of `powf`.
pub open spec fn function_named(s: Seq<char>) -> Function<Seq<char>> {
    if s == "min"@ {
        Function::Min
    } else if s == "max"@ {
        Function::Max
    } else if s == "sin"@ {
        Function::Sin
    } else if s == "cos"@ {
        Function::Cos
    } else if s == "tan"@ {
        Function::Tan
    } else if s == "asin"@ {
        Function::Asin
    } else if s == "acos"@ {
        Function::Acos
    } else if s == "atan"@ {
        Function::Atan
    } else if s == "sinh"@ {
        Function::Sinh
    } else if s == "cosh"@ {
        Function::Cosh
    } else if s == "tanh"@ {
        Function::Tanh
    } else if s == "powi"@ {
        Function::Powi
    } else if s == "powf"@ {
        Function::Powf
    } else if s == "pow"@ {
        Function::Powf
    } else if s == "sqrt"@ {
        Function::Sqrt
    } else if s == "cbrt"@ {
        Function::Cbrt
    } else if s == "hypot"@ {
        Function::Hypot
    } else if s == "ln"@ {
        Function::Ln
    } else if s == "log"@ {
        Function::Log
    } else if s == "log10"@ {
        Function::Log10
    } else if s == "log2"@ {
        Function::Log2
    } else if s == "exp"@ {
        Function::Exp
    } else if s == "exp2"@ {
        Function::Exp2
    } else if s == "floor"@ {
        Function::Floor
    } else if s == "ceil"@ {
        Function::Ceil
    } else if s == "round"@ {
        Function::Round
    } else if s == "fract"@ {
        Function::Fract
    } else if s == "trunc"@ {
        Function::Trunc
    } else if s == "abs"@ {
        Function::Abs
    } else if s == "signum"@ {
        Function::Signum
    } else if s == "div_euclid"@ {
        Function::DivEuclid
    } else if s == "rem_euclid"@ {
        Function::RemEuclid
    } else {
        Function::Custom(s)
    }
}

impl Function {
    /// The number of arguments of a builtin function.
    pub fn num_args(&self) -> (r: usize)
        requires
            !(self is Custom),
        ensures
            r == builtin_arity(self@),
    {
        match self {
            Function::Powi | Function::Powf | Function::Log => 2,
            Function::DivEuclid | Function::RemEuclid => 2,
            Function::Hypot => 2,
            Function::Min | Function::Max => 2,
            _ => 1,
        }
    }

    /// The function of that name, which is a custom one unless a builtin
    /// function has the name.
    pub fn from_str(s: &str) -> (r: Result<Function, EvalError>)
        ensures
            r is Ok,
            r->Ok_0@ == function_named(s@),
    {
        if str_eq(s, "min") {
            Ok(Function::Min)
        } else if str_eq(s, "max") {
            Ok(Function::Max)
        } else if str_eq(s, "sin") {
            Ok(Function::Sin)
        } else if str_eq(s, "cos") {
            Ok(Function::Cos)
        } else if str_eq(s, "tan") {
            Ok(Function::Tan)
        } else if str_eq(s, "asin") {
            Ok(Function::Asin)
        } else if str_eq(s, "acos") {
            Ok(Function::Acos)
        } else if str_eq(s, "atan") {
            Ok(Function::Atan)
        } else if str_eq(s, "sinh") {
            Ok(Function::Sinh)
        } else if str_eq(s, "cosh") {
            Ok(Function::Cosh)
        } else if str_eq(s, "tanh") {
            Ok(Function::Tanh)
        } else if str_eq(s, "powi") {
            Ok(Function::Powi)
        } else if str_eq(s, "powf") {
            Ok(Function::Powf)
        } else if str_eq(s, "pow") {
            Ok(Function::Powf)
        } else if str_eq(s, "sqrt") {
            Ok(Function::Sqrt)
        } else if str_eq(s, "cbrt") {
            Ok(Function::Cbrt)
        } else if str_eq(s, "hypot") {
            Ok(Function::Hypot)
        } else if str_eq(s, "ln") {
            Ok(Function::Ln)
        } else if str_eq(s, "log") {
            Ok(Function::Log)
        } else if str_eq(s, "log10") {
            Ok(Function::Log10)
        } else if str_eq(s, "log2") {
            Ok(Function::Log2)
        } else if str_eq(s, "exp") {
            Ok(Function::Exp)
        } else if str_eq(s, "exp2") {
            Ok(Function::Exp2)
        } else if str_eq(s, "floor") {
            Ok(Function::Floor)
        } else if str_eq(s, "ceil") {
            Ok(Function::Ceil)
        } else if str_eq(s, "round") {
            Ok(Function::Round)
        } else if str_eq(s, "fract") {
            Ok(Function::Fract)
        } else if str_eq(s, "trunc") {
            Ok(Function::Trunc)
        } else if str_eq(s, "abs") {
            Ok(Function::Abs)
        } else if str_eq(s, "signum") {
            Ok(Function::Signum)
        } else if str_eq(s, "div_euclid") {
            Ok(Function::DivEuclid)
        } else if str_eq(s, "rem_euclid") {
            Ok(Function::RemEuclid)
        } else {
            Ok(Function::Custom(s.to_owned()))
        }
    }
}

/// The left and right binding power of a token. The parser compares the left
/// power of an incoming token with the right power of the token on top of
/// its operator stack; operands are never compared.
pub open spec fn binding_power(t: Token<Seq<char>>) -> (u8, u8) {
    match t {
        Token::Binary(BinaryOp::Add) | Token::Binary(BinaryOp::Sub) => (50, 51),
        Token::Binary(_) => (55, 56),
        Token::Unary(UnaryOp::Neg) => (99, 65),
        Token::Function(_) => (97, 10),
        Token::LeftParen => (99, 2),
        Token::RightParen => (3, 100),
        Token::Comma => (5, 5),
        _ => (100, 100),
    }
}

impl Token {
    /// The left and right binding power.
    pub fn precedence(&self) -> (r: (u8, u8))
        ensures
            r == binding_power(self@),
    {
        match self {
            Token::Binary(BinaryOp::Add) | Token::Binary(BinaryOp::Sub) => (50, 51),
            Token::Binary(_) => (55, 56),
            Token::Unary(UnaryOp::Neg) => (99, 65),
            Token::Function(_) => (97, 10),
            Token::LeftParen => (99, 2),
            Token::RightParen => (3, 100),
            Token::Comma => (5, 5),
            _ => (100, 100),
        }
    }

    /// A copy of the token.
    pub fn duplicate(&self) -> (r: Token)
        ensures
            r == *self,
    {
        match self {
            Token::Unary(op) => Token::Unary(*op),
            Token::Binary(op) => Token::Binary(*op),
            Token::Function(f) => Token::Function(f.duplicate()),
            Token::Value(v) => Token::Value(*v),
            Token::Var(s) => Token::Var(s.clone()),
            Token::LeftParen => Token::LeftParen,
            Token::RightParen => Token::RightParen,
            Token::Comma => Token::Comma,
        }
    }
}

/// The lexeme that a piece of text stands for: one of the nine symbols, or a
/// literal if every character is a literal character.
pub open spec fn lexeme_of(s: Seq<char>) -> Option<PreToken<Seq<char>>> {
    if s == "+"@ {
        Some(PreToken::Plus)
    } else if s == "-"@ {
        Some(PreToken::Minus)
    } else if s == "*"@ {
        Some(PreToken::Asterisk)
    } else if s == "/"@ {
        Some(PreToken::Slash)
    } else if s == "%"@ {
        Some(PreToken::Percent)
    } else if s == "("@ {
        Some(PreToken::LeftParen)
    } else if s == ")"@ {
        Some(PreToken::RightParen)
    } else if s == ";"@ {
        Some(PreToken::SemiColon)
    } else if s == ","@ {
        Some(PreToken::Comma)
    } else if forall|i: int| 0 <= i < s.len() ==> literal_char(#[trigger] s[i]) {
        Some(PreToken::Literal(s))
    } else {
        None
    }
}

impl PreToken {
    /// The lexeme that the text stands for.
    pub fn from_str(s: &str) -> (r: Result<PreToken, EvalError>)
        ensures
            match lexeme_of(s@) {
                Some(p) => r is Ok && r->Ok_0@ == p,
                None => r is Err && r->Err_0@ == EvalError::<Seq<char>>::InvalidString(s@),
            },
    {
        if str_eq(s, "+") {
            Ok(PreToken::Plus)
        } else if str_eq(s, "-") {
            Ok(PreToken::Minus)
        } else if str_eq(s, "*") {
            Ok(PreToken::Asterisk)
        } else if str_eq(s, "/") {
            Ok(PreToken::Slash)
        } else if str_eq(s, "%") {
            Ok(PreToken::Percent)
        } else if str_eq(s, "(") {
            Ok(PreToken::LeftParen)
        } else if str_eq(s, ")") {
            Ok(PreToken::RightParen)
        } else if str_eq(s, ";") {
            Ok(PreToken::SemiColon)
        } else if str_eq(s, ",") {
            Ok(PreToken::Comma)
        } else if all_literal(s) {
            Ok(PreToken::Literal(s.to_owned()))
        } else {
            Err(EvalError::InvalidString(s.to_owned()))
        }
    }
}

fn all_literal(s: &str) -> (r: bool)
    ensures
        r == (forall|i: int| 0 <= i < s@.len() ==> literal_char(#[trigger] s@[i])),
{
    let mut ok = true;
    for c in it: s.chars()
        invariant
            it.seq() == s@,
            ok == (forall|i: int| 0 <= i < it.index() ==> literal_char(#[trigger] s@[i])),
    {
        if !is_literalchar(c) {
            ok = false;
        }
    }
    ok
}

impl Function {
    /// A copy of the function tag.
    pub fn duplicate(&self) -> (r: Function)
        ensures
            r == *self,
    {
        match self {
            Function::Custom(s) => Function::Custom(s.clone()),
            Function::Min => Function::Min,
            Function::Max => Function::Max,
            Function::Powi => Function::Powi,
            Function::Powf => Function::Powf,
            Function::Sin => Function::Sin,
            Function::Cos => Function::Cos,
            Function::Tan => Function::Tan,
            Function::Asin => Function::Asin,
            Function::Acos => Function::Acos,
            Function::Atan => Function::Atan,
            Function::Sinh => Function::Sinh,
            Function::Cosh => Function::Cosh,
            Function::Tanh => Function::Tanh,
            Function::Sqrt => Function::Sqrt,
            Function::Cbrt => Function::Cbrt,
            Function::Hypot => Function::Hypot,
            Function::Exp => Function::Exp,
            Function::Exp2 => Function::Exp2,
            Function::Log => Function::Log,
            Function::Log10 => Function::Log10,
            Function::Log2 => Function::Log2,
            Function::Ln => Function::Ln,
            Function::Floor => Function::Floor,
            Function::Ceil => Function::Ceil,
            Function::Round => Function::Round,
            Function::Fract => Function::Fract,
            Function::Trunc => Function::Trunc,
            Function::Abs => Function::Abs,
            Function::Signum => Function::Signum,
            Function::DivEuclid => Function::DivEuclid,
            Function::RemEuclid => Function::RemEuclid,
        }
    }
}

} // verus!
