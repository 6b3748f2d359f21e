use lieval::error::EvalError;
use lieval::parse::{
    classify_literal, parse_str_to_pretokens, parse_str_to_rpn, pretoken_to_tokens, to_rpn,
};
use lieval::token::{BinaryOp, Constant, Function, PreToken, Token, UnaryOp};
use lieval::util::{is_ascii_alnum, is_ascii_letter, is_identstr, is_literalchar};

fn number(text: &str) -> Option<u64> {
    text.parse::<f64>().ok().map(f64::to_bits)
}

fn value(x: f64) -> Token {
    Token::Value(x.to_bits())
}

fn var(name: &str) -> Token {
    Token::Var(name.to_string())
}

fn lit(text: &str) -> PreToken {
    PreToken::Literal(text.to_string())
}

fn plus() -> Token {
    Token::Binary(BinaryOp::Add)
}

fn minus() -> Token {
    Token::Binary(BinaryOp::Sub)
}

fn times() -> Token {
    Token::Binary(BinaryOp::Mul)
}

fn neg() -> Token {
    Token::Unary(UnaryOp::Neg)
}

fn rpn(text: &str) -> Vec<Vec<Token>> {
    parse_str_to_rpn(text, &number).unwrap()
}

#[test]
fn literal_characters() {
    for c in ['a', 'z', 'A', 'Z', '0', '9', '_', '.'] {
        assert!(is_literalchar(c), "{}", c);
    }
    for c in ['+', '-', '*', '/', '%', '(', ')', ',', ';', ' ', '\n', '@', '`', '[', '{', ':', 'é'] {
        assert!(!is_literalchar(c), "{}", c);
    }
    assert!(is_ascii_letter('q') && is_ascii_letter('Q') && !is_ascii_letter('5'));
    assert!(is_ascii_alnum('5') && is_ascii_alnum('q') && !is_ascii_alnum('_'));
}

#[test]
fn literal_characters_agree_with_std() {
    for code in 0u32..0x3000 {
        if let Some(c) = char::from_u32(code) {
            assert_eq!(is_literalchar(c), c.is_ascii_alphanumeric() || c == '_' || c == '.');
            assert_eq!(is_ascii_letter(c), c.is_ascii_alphabetic());
            assert_eq!(is_ascii_alnum(c), c.is_ascii_alphanumeric());
        }
    }
}

#[test]
fn identifiers() {
    for s in ["x", "a1", "_a", "__a_1", "A_b", "func2", "e5", "x_"] {
        assert!(is_identstr(s), "{}", s);
    }
    for s in ["", "_", "__", "1a", "_1", "_1a", "a.b", "a b", "1", "a-b", "é"] {
        assert!(!is_identstr(s), "{}", s);
    }
}

#[test]
fn identifiers_agree_with_the_rule_on_the_first_alphanumeric() {
    let alphabet = ['a', 'Z', '3', '_', '.'];
    let mut texts = vec![String::new()];
    for _ in 0..4 {
        let mut longer = vec![];
        for t in &texts {
            for c in alphabet {
                let mut s = t.clone();
                s.push(c);
                longer.push(s);
            }
        }
        for s in &longer {
            let expected = s.chars().all(|c| c.is_ascii_alphanumeric() || c == '_')
                && s.chars()
                    .find(|c| c.is_ascii_alphanumeric())
                    .filter(|c| c.is_ascii_alphabetic())
                    .is_some();
            assert_eq!(is_identstr(s), expected, "{}", s);
        }
        texts = longer;
    }
}

#[test]
fn lexemes_of_symbols_and_literals() {
    assert_eq!(
        parse_str_to_pretokens("1+2"),
        Ok(vec![lit("1"), PreToken::Plus, lit("2")])
    );
    assert_eq!(
        parse_str_to_pretokens(" a_1 - 2.5*(x/y) % 3 ; f(1, 2) "),
        Ok(vec![
            lit("a_1"),
            PreToken::Minus,
            lit("2.5"),
            PreToken::Asterisk,
            PreToken::LeftParen,
            lit("x"),
            PreToken::Slash,
            lit("y"),
            PreToken::RightParen,
            PreToken::Percent,
            lit("3"),
            PreToken::SemiColon,
            lit("f"),
            PreToken::LeftParen,
            lit("1"),
            PreToken::Comma,
            lit("2"),
            PreToken::RightParen,
        ])
    );
}

#[test]
fn lexemes_of_empty_and_blank_text() {
    assert_eq!(parse_str_to_pretokens(""), Ok(vec![]));
    assert_eq!(parse_str_to_pretokens("  \t\n "), Ok(vec![]));
    assert_eq!(parse_str_to_pretokens("abc"), Ok(vec![lit("abc")]));
    assert_eq!(parse_str_to_pretokens("abc  "), Ok(vec![lit("abc")]));
    assert_eq!(parse_str_to_pretokens("a b"), Ok(vec![lit("a"), lit("b")]));
}

#[test]
fn lexer_skips_unicode_white_space() {
    assert_eq!(
        parse_str_to_pretokens("a\u{3000}b\u{a0}+ c"),
        Ok(vec![lit("a"), lit("b"), PreToken::Plus, lit("c")])
    );
}

#[test]
fn lexer_rejects_other_characters() {
    assert_eq!(parse_str_to_pretokens("1 # 2"), Err(EvalError::InvalidCharacter('#')));
    assert_eq!(parse_str_to_pretokens("a^2"), Err(EvalError::InvalidCharacter('^')));
    assert_eq!(parse_str_to_pretokens("x = 1"), Err(EvalError::InvalidCharacter('=')));
    assert_eq!(parse_str_to_pretokens("é"), Err(EvalError::InvalidCharacter('é')));
    assert_eq!(parse_str_to_pretokens("1 $ 2 # 3"), Err(EvalError::InvalidCharacter('$')));
}

#[test]
fn lexeme_from_str() {
    assert_eq!(PreToken::from_str("+"), Ok(PreToken::Plus));
    assert_eq!(PreToken::from_str("-"), Ok(PreToken::Minus));
    assert_eq!(PreToken::from_str("*"), Ok(PreToken::Asterisk));
    assert_eq!(PreToken::from_str("/"), Ok(PreToken::Slash));
    assert_eq!(PreToken::from_str("%"), Ok(PreToken::Percent));
    assert_eq!(PreToken::from_str("("), Ok(PreToken::LeftParen));
    assert_eq!(PreToken::from_str(")"), Ok(PreToken::RightParen));
    assert_eq!(PreToken::from_str(";"), Ok(PreToken::SemiColon));
    assert_eq!(PreToken::from_str(","), Ok(PreToken::Comma));
    assert_eq!(PreToken::from_str("x.1_"), Ok(lit("x.1_")));
    assert_eq!(PreToken::from_str(""), Ok(lit("")));
    assert_eq!(PreToken::from_str("++"), Err(EvalError::InvalidString("++".to_string())));
    assert_eq!(PreToken::from_str("a b"), Err(EvalError::InvalidString("a b".to_string())));
}

#[test]
fn constants_by_name_and_value() {
    assert_eq!(Constant::from_str("PI"), Ok(Constant::PI));
    assert_eq!(Constant::from_str("TAU"), Ok(Constant::Tau));
    assert_eq!(Constant::from_str("E"), Ok(Constant::E));
    assert_eq!(Constant::from_str("pi"), Err(EvalError::ConstantNotFound));
    assert_eq!(Constant::from_str("Pi"), Err(EvalError::ConstantNotFound));
    assert_eq!(Constant::from_str(""), Err(EvalError::ConstantNotFound));
    assert_eq!(Constant::PI.eval(), std::f64::consts::PI.to_bits());
    assert_eq!(Constant::Tau.eval(), std::f64::consts::TAU.to_bits());
    assert_eq!(Constant::E.eval(), std::f64::consts::E.to_bits());
}

#[test]
fn functions_by_name() {
    let builtin = [
        ("min", Function::Min, 2),
        ("max", Function::Max, 2),
        ("sin", Function::Sin, 1),
        ("cos", Function::Cos, 1),
        ("tan", Function::Tan, 1),
        ("asin", Function::Asin, 1),
        ("acos", Function::Acos, 1),
        ("atan", Function::Atan, 1),
        ("sinh", Function::Sinh, 1),
        ("cosh", Function::Cosh, 1),
        ("tanh", Function::Tanh, 1),
        ("powi", Function::Powi, 2),
        ("powf", Function::Powf, 2),
        ("pow", Function::Powf, 2),
        ("sqrt", Function::Sqrt, 1),
        ("cbrt", Function::Cbrt, 1),
        ("hypot", Function::Hypot, 2),
        ("ln", Function::Ln, 1),
        ("log", Function::Log, 2),
        ("log10", Function::Log10, 1),
        ("log2", Function::Log2, 1),
        ("exp", Function::Exp, 1),
        ("exp2", Function::Exp2, 1),
        ("floor", Function::Floor, 1),
        ("ceil", Function::Ceil, 1),
        ("round", Function::Round, 1),
        ("fract", Function::Fract, 1),
        ("trunc", Function::Trunc, 1),
        ("abs", Function::Abs, 1),
        ("signum", Function::Signum, 1),
        ("div_euclid", Function::DivEuclid, 2),
        ("rem_euclid", Function::RemEuclid, 2),
    ];
    for (name, function, n) in builtin {
        assert_eq!(Function::from_str(name), Ok(function.clone()), "{}", name);
        assert_eq!(function.num_args(), n, "{}", name);
        assert_eq!(function.duplicate(), function);
    }
    assert_eq!(Function::from_str("Sin"), Ok(Function::Custom("Sin".to_string())));
    assert_eq!(Function::from_str("func"), Ok(Function::Custom("func".to_string())));
    assert_eq!(
        Function::Custom("func".to_string()).duplicate(),
        Function::Custom("func".to_string())
    );
}

#[test]
fn binding_powers() {
    assert_eq!(plus().precedence(), (50, 51));
    assert_eq!(minus().precedence(), (50, 51));
    assert_eq!(times().precedence(), (55, 56));
    assert_eq!(Token::Binary(BinaryOp::Div).precedence(), (55, 56));
    assert_eq!(Token::Binary(BinaryOp::Rem).precedence(), (55, 56));
    assert_eq!(neg().precedence(), (99, 65));
    assert_eq!(Token::Function(Function::Sin).precedence(), (97, 10));
    assert_eq!(Token::Function(Function::Custom("f".to_string())).precedence(), (97, 10));
    assert_eq!(Token::LeftParen.precedence(), (99, 2));
    assert_eq!(Token::RightParen.precedence(), (3, 100));
    assert_eq!(Token::Comma.precedence(), (5, 5));
    assert_eq!(value(1.0).precedence(), (100, 100));
    assert_eq!(var("x").precedence(), (100, 100));
}

#[test]
fn token_copies_are_equal() {
    for t in [
        plus(),
        neg(),
        value(2.5),
        var("x"),
        Token::Function(Function::Custom("f".to_string())),
        Token::Function(Function::Hypot),
        Token::LeftParen,
        Token::RightParen,
        Token::Comma,
    ] {
        assert_eq!(t.duplicate(), t);
    }
}

#[test]
fn literals_become_numbers_constants_functions_and_variables() {
    assert_eq!(classify_literal("1.5", number("1.5"), false), Ok(value(1.5)));
    assert_eq!(classify_literal("1e3", number("1e3"), false), Ok(value(1000.0)));
    assert_eq!(classify_literal("inf", number("inf"), false), Ok(value(f64::INFINITY)));
    assert_eq!(classify_literal("PI", number("PI"), false), Ok(value(std::f64::consts::PI)));
    assert_eq!(classify_literal("PI", number("PI"), true), Ok(value(std::f64::consts::PI)));
    assert_eq!(classify_literal("x", None, false), Ok(var("x")));
    assert_eq!(classify_literal("sin", None, false), Ok(var("sin")));
    assert_eq!(classify_literal("sin", None, true), Ok(Token::Function(Function::Sin)));
    assert_eq!(
        classify_literal("g", None, true),
        Ok(Token::Function(Function::Custom("g".to_string())))
    );
    assert_eq!(classify_literal("x", Some(7), false), Ok(Token::Value(7)));
    assert_eq!(
        classify_literal("1x", None, false),
        Err(EvalError::InvalidString("1x".to_string()))
    );
    assert_eq!(
        classify_literal("1.2.3", number("1.2.3"), false),
        Err(EvalError::InvalidString("1.2.3".to_string()))
    );
    assert_eq!(classify_literal("_", None, true), Err(EvalError::InvalidString("_".to_string())));
}

#[test]
fn minus_is_unary_unless_an_operand_ends_before_it() {
    let lexemes = parse_str_to_pretokens("-a - -b - (-c) - 2 * -3").unwrap();
    assert_eq!(
        pretoken_to_tokens(&lexemes, &number),
        Ok(vec![vec![
            neg(),
            var("a"),
            minus(),
            neg(),
            var("b"),
            minus(),
            Token::LeftParen,
            neg(),
            var("c"),
            Token::RightParen,
            minus(),
            value(2.0),
            times(),
            neg(),
            value(3.0),
        ]])
    );
}

#[test]
fn statements_end_at_semicolons_and_outer_commas() {
    let lexemes = parse_str_to_pretokens("1, f(2, 3); x").unwrap();
    assert_eq!(
        pretoken_to_tokens(&lexemes, &number),
        Ok(vec![
            vec![value(1.0)],
            vec![
                Token::Function(Function::Custom("f".to_string())),
                Token::LeftParen,
                value(2.0),
                Token::Comma,
                value(3.0),
                Token::RightParen,
            ],
            vec![var("x")],
        ])
    );
}

#[test]
fn empty_statements_are_kept_except_the_last() {
    let split = |text: &str| pretoken_to_tokens(&parse_str_to_pretokens(text).unwrap(), &number);
    assert_eq!(split(""), Ok(vec![]));
    assert_eq!(split("1,"), Ok(vec![vec![value(1.0)]]));
    assert_eq!(split("1;;2"), Ok(vec![vec![value(1.0)], vec![], vec![value(2.0)]]));
    assert_eq!(split(",1"), Ok(vec![vec![], vec![value(1.0)]]));
    assert_eq!(split(";"), Ok(vec![vec![]]));
}

#[test]
fn a_semicolon_ends_a_statement_inside_parentheses_too() {
    let split = |text: &str| pretoken_to_tokens(&parse_str_to_pretokens(text).unwrap(), &number);
    assert_eq!(
        split("(1;2)"),
        Ok(vec![vec![Token::LeftParen, value(1.0)], vec![value(2.0), Token::RightParen]])
    );
    assert_eq!(parse_str_to_rpn("(1;2)", &number), Err(EvalError::UnexpectedParenthesis));
}

#[test]
fn tokenizer_rejects_unbalanced_parentheses() {
    let split = |text: &str| pretoken_to_tokens(&parse_str_to_pretokens(text).unwrap(), &number);
    assert_eq!(split("(1+2"), Err(EvalError::UnexpectedParenthesis));
    assert_eq!(split("1+2)"), Err(EvalError::UnexpectedParenthesis));
    assert_eq!(split(")("), Err(EvalError::UnexpectedParenthesis));
    assert_eq!(split("((1)"), Err(EvalError::UnexpectedParenthesis));
    assert_eq!(split("(1))("), Err(EvalError::UnexpectedParenthesis));
}

#[test]
fn tokenizer_rejects_what_is_no_number_constant_or_identifier() {
    let split = |text: &str| pretoken_to_tokens(&parse_str_to_pretokens(text).unwrap(), &number);
    assert_eq!(split("1 + 2x"), Err(EvalError::InvalidString("2x".to_string())));
    assert_eq!(split("_ + 1"), Err(EvalError::InvalidString("_".to_string())));
    assert_eq!(split("a.b"), Err(EvalError::InvalidString("a.b".to_string())));
    assert_eq!(split("1e-5"), Err(EvalError::InvalidString("1e".to_string())));
    assert_eq!(split("2x + )"), Err(EvalError::InvalidString("2x".to_string())));
    assert_eq!(split(") + 2x"), Err(EvalError::UnexpectedParenthesis));
}

#[test]
fn tokenizer_uses_the_reading_of_numbers_that_it_is_given() {
    let lexemes = parse_str_to_pretokens("x + 1").unwrap();
    let everything = |_: &str| Some(9u64);
    assert_eq!(
        pretoken_to_tokens(&lexemes, &everything),
        Ok(vec![vec![Token::Value(9), plus(), Token::Value(9)]])
    );
    let nothing = |_: &str| None;
    assert_eq!(
        pretoken_to_tokens(&lexemes, &nothing),
        Err(EvalError::InvalidString("1".to_string()))
    );
}

#[test]
fn postfix_by_precedence() {
    assert_eq!(rpn("1 + 2 * 3"), vec![vec![value(1.0), value(2.0), value(3.0), times(), plus()]]);
    assert_eq!(rpn("1 * 2 + 3"), vec![vec![value(1.0), value(2.0), times(), value(3.0), plus()]]);
    assert_eq!(rpn("(1 + 2) * 3"), vec![vec![value(1.0), value(2.0), plus(), value(3.0), times()]]);
}

#[test]
fn postfix_groups_from_the_left() {
    assert_eq!(rpn("a - b - c"), vec![vec![var("a"), var("b"), minus(), var("c"), minus()]]);
    assert_eq!(
        rpn("a / b * c"),
        vec![vec![var("a"), var("b"), Token::Binary(BinaryOp::Div), var("c"), times()]]
    );
    assert_eq!(
        rpn("a % b % c"),
        vec![vec![
            var("a"),
            var("b"),
            Token::Binary(BinaryOp::Rem),
            var("c"),
            Token::Binary(BinaryOp::Rem)
        ]]
    );
}

#[test]
fn postfix_of_unary_minus() {
    assert_eq!(rpn("-a * b"), vec![vec![var("a"), neg(), var("b"), times()]]);
    assert_eq!(rpn("a * -b"), vec![vec![var("a"), var("b"), neg(), times()]]);
    assert_eq!(rpn("--a"), vec![vec![var("a"), neg(), neg()]]);
    assert_eq!(rpn("-(a + b)"), vec![vec![var("a"), var("b"), plus(), neg()]]);
    assert_eq!(rpn("-a + b"), vec![vec![var("a"), neg(), var("b"), plus()]]);
}

#[test]
fn postfix_of_calls() {
    let f = || Token::Function(Function::Custom("f".to_string()));
    assert_eq!(rpn("f()"), vec![vec![f()]]);
    assert_eq!(rpn("f(a)"), vec![vec![var("a"), f()]]);
    assert_eq!(rpn("f(a + b, c * d)"), vec![vec![
        var("a"),
        var("b"),
        plus(),
        var("c"),
        var("d"),
        times(),
        f()
    ]]);
    assert_eq!(
        rpn("1 + sin(f(x, 2)) * 3"),
        vec![vec![
            value(1.0),
            var("x"),
            value(2.0),
            f(),
            Token::Function(Function::Sin),
            value(3.0),
            times(),
            plus()
        ]]
    );
    assert_eq!(rpn("-f(a)"), vec![vec![var("a"), f(), neg()]]);
}

#[test]
fn postfix_of_an_empty_statement_is_empty() {
    assert_eq!(to_rpn(&[]), Ok(vec![]));
    assert_eq!(rpn("1;;2"), vec![vec![value(1.0)], vec![], vec![value(2.0)]]);
}

#[test]
fn parser_rejects_parentheses_that_do_not_match() {
    assert_eq!(to_rpn(&[Token::RightParen]), Err(EvalError::UnexpectedParenthesis));
    assert_eq!(to_rpn(&[Token::LeftParen]), Err(EvalError::UnexpectedParenthesis));
    assert_eq!(to_rpn(&[value(1.0), Token::RightParen]), Err(EvalError::UnexpectedParenthesis));
    assert_eq!(
        to_rpn(&[plus(), Token::RightParen, Token::LeftParen]),
        Err(EvalError::UnexpectedParenthesis)
    );
    assert_eq!(
        to_rpn(&[Token::LeftParen, value(1.0), plus(), value(2.0)]),
        Err(EvalError::UnexpectedParenthesis)
    );
    assert_eq!(
        to_rpn(&[Token::LeftParen, Token::LeftParen, value(1.0), Token::RightParen]),
        Err(EvalError::UnexpectedParenthesis)
    );
}

#[test]
fn parser_drops_commas() {
    assert_eq!(to_rpn(&[value(1.0), Token::Comma, value(2.0)]), Ok(vec![value(1.0), value(2.0)]));
    assert_eq!(
        to_rpn(&[value(1.0), plus(), value(2.0), Token::Comma, value(3.0)]),
        Ok(vec![value(1.0), value(2.0), plus(), value(3.0)])
    );
}

#[test]
fn parsing_reports_the_first_error_in_the_order_of_its_stages() {
    assert_eq!(parse_str_to_rpn("(1 # 2x", &number), Err(EvalError::InvalidCharacter('#')));
    assert_eq!(parse_str_to_rpn("(1 + 2x", &number), Err(EvalError::InvalidString("2x".to_string())));
    assert_eq!(parse_str_to_rpn("(1 + 2", &number), Err(EvalError::UnexpectedParenthesis));
    assert_eq!(parse_str_to_rpn("1 + 2", &number), Ok(vec![vec![value(1.0), value(2.0), plus()]]));
}

#[test]
fn white_space_is_what_std_calls_white_space() {
    for code in 0u32..=0x10ffff {
        if let Some(c) = char::from_u32(code) {
            assert_eq!(lieval::util::is_whitespace(c), c.is_whitespace(), "U+{:04X}", code);
        }
    }
}
