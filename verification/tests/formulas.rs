use lieval::token::{BinaryOp, Function, Token, UnaryOp};
use lieval::EvalError;
use std::collections::HashMap;

type Callback = fn(&[f64]) -> f64;

fn number(text: &str) -> Option<u64> {
    text.parse::<f64>().ok().map(f64::to_bits)
}

fn builtin(function: &Function, x: &[f64]) -> f64 {
    match function {
        Function::Min => x[0].min(x[1]),
        Function::Max => x[0].max(x[1]),
        Function::Log => x[0].log(x[1]),
        Function::Powi => x[0].powi(x[1] as i32),
        Function::Powf => x[0].powf(x[1]),
        Function::DivEuclid => x[0].div_euclid(x[1]),
        Function::RemEuclid => x[0].rem_euclid(x[1]),
        Function::Hypot => x[0].hypot(x[1]),
        Function::Sin => x[0].sin(),
        Function::Cos => x[0].cos(),
        Function::Tan => x[0].tan(),
        Function::Asin => x[0].asin(),
        Function::Acos => x[0].acos(),
        Function::Atan => x[0].atan(),
        Function::Sinh => x[0].sinh(),
        Function::Cosh => x[0].cosh(),
        Function::Tanh => x[0].tanh(),
        Function::Sqrt => x[0].sqrt(),
        Function::Cbrt => x[0].cbrt(),
        Function::Ln => x[0].ln(),
        Function::Log10 => x[0].log10(),
        Function::Log2 => x[0].log2(),
        Function::Exp => x[0].exp(),
        Function::Exp2 => x[0].exp2(),
        Function::Floor => x[0].floor(),
        Function::Ceil => x[0].ceil(),
        Function::Round => x[0].round(),
        Function::Fract => x[0].fract(),
        Function::Trunc => x[0].trunc(),
        Function::Abs => x[0].abs(),
        Function::Signum => x[0].signum(),
        Function::Custom(name) => panic!("{} is no builtin function", name),
    }
}

fn apply(funcs: &HashMap<String, Callback>, token: &Token, args: &[u64]) -> u64 {
    let x: Vec<f64> = args.iter().map(|bits| f64::from_bits(*bits)).collect();
    let value = match token {
        Token::Unary(UnaryOp::Neg) => -x[0],
        Token::Binary(BinaryOp::Add) => x[0] + x[1],
        Token::Binary(BinaryOp::Sub) => x[0] - x[1],
        Token::Binary(BinaryOp::Mul) => x[0] * x[1],
        Token::Binary(BinaryOp::Div) => x[0] / x[1],
        Token::Binary(BinaryOp::Rem) => x[0] % x[1],
        Token::Function(Function::Custom(name)) => (funcs[name])(&x),
        Token::Function(function) => builtin(function, &x),
        _ => panic!("{:?} computes nothing", token),
    };
    value.to_bits()
}

fn floats(values: Vec<u64>) -> Vec<f64> {
    values.into_iter().map(f64::from_bits).collect()
}

#[derive(Clone)]
struct Context {
    bindings: lieval::Context,
    funcs: HashMap<String, Callback>,
}

impl Context {
    fn new() -> Self {
        Self { bindings: lieval::Context::new(), funcs: HashMap::new() }
    }

    fn set_value(&mut self, key: &str, val: f64) -> &mut Self {
        self.bindings.set_value(key, val.to_bits());
        self
    }

    fn set_func(&mut self, key: &str, n: usize, f: Callback) -> &mut Self {
        self.bindings.set_func(key, n);
        self.funcs.insert(key.to_owned(), f);
        self
    }
}

fn eval_from_str(expr: &str) -> Result<Vec<f64>, EvalError> {
    let funcs = HashMap::new();
    lieval::eval_from_str(expr, &number, &|t: &Token, a: &[u64]| apply(&funcs, t, a)).map(floats)
}

fn eval_from_str_with_context(expr: &str, context: &Context) -> Result<Vec<f64>, EvalError> {
    lieval::eval_from_str_with_context(expr, &context.bindings, &number, &|t: &Token, a: &[u64]| {
        apply(&context.funcs, t, a)
    })
    .map(floats)
}

#[derive(Clone)]
struct Expr {
    programs: lieval::Expr,
    funcs: HashMap<String, Callback>,
}

impl Expr {
    fn new(expr: &str) -> Result<Self, EvalError> {
        Ok(Self { programs: lieval::Expr::new(expr, &number)?, funcs: HashMap::new() })
    }

    fn set_var(&mut self, var: &str, val: f64) -> &mut Self {
        self.programs.set_var(var, val.to_bits());
        self
    }

    fn set_func(&mut self, name: &str, n: usize, f: Callback) -> &mut Self {
        self.programs.set_func(name, n);
        self.funcs.insert(name.to_owned(), f);
        self
    }

    fn eval(&self) -> Result<f64, EvalError> {
        let funcs = &self.funcs;
        self.programs.eval(&|t: &Token, a: &[u64]| apply(funcs, t, a)).map(f64::from_bits)
    }

    fn evals(&self) -> Result<Vec<f64>, EvalError> {
        let funcs = &self.funcs;
        self.programs.evals(&|t: &Token, a: &[u64]| apply(funcs, t, a)).map(floats)
    }

    fn eval_index(&self, id: usize) -> Result<f64, EvalError> {
        let funcs = &self.funcs;
        self.programs.eval_index(id, &|t: &Token, a: &[u64]| apply(funcs, t, a)).map(f64::from_bits)
    }

    fn partial_eval(&mut self) -> Result<&mut Self, EvalError> {
        let funcs = &self.funcs;
        self.programs.partial_eval(&|t: &Token, a: &[u64]| apply(funcs, t, a))?;
        Ok(self)
    }

    fn partial_evals(&mut self) -> Result<&mut Self, EvalError> {
        let funcs = &self.funcs;
        self.programs.partial_evals(&|t: &Token, a: &[u64]| apply(funcs, t, a))?;
        Ok(self)
    }

    fn combine(self, other: Expr, op: BinaryOp) -> Expr {
        let (l, r) = (self.programs.len(), other.programs.len());
        if !(l == r || l == 1 || r == 1) {
            panic!("The number of exprs must be the same, or either one must be equal to 1");
        }
        let mut funcs = other.funcs;
        funcs.extend(self.funcs);
        Expr { programs: self.programs.combine(other.programs, op), funcs }
    }
}

impl std::ops::Add for Expr {
    type Output = Expr;

    fn add(self, other: Expr) -> Expr {
        self.combine(other, BinaryOp::Add)
    }
}

impl std::ops::Sub for Expr {
    type Output = Expr;

    fn sub(self, other: Expr) -> Expr {
        self.combine(other, BinaryOp::Sub)
    }
}

impl std::ops::Mul for Expr {
    type Output = Expr;

    fn mul(self, other: Expr) -> Expr {
        self.combine(other, BinaryOp::Mul)
    }
}

impl std::ops::Div for Expr {
    type Output = Expr;

    fn div(self, other: Expr) -> Expr {
        self.combine(other, BinaryOp::Div)
    }
}

#[test]
fn operator_test() {
    assert_eq!(eval_from_str("1 + 2"), Ok(vec![3.0]));
    assert_eq!(eval_from_str("1 + -2"), Ok(vec![-1.0]));
    assert_eq!(eval_from_str("-1 + 2"), Ok(vec![1.0]));
    assert_eq!(eval_from_str("1 - 2"), Ok(vec![-1.0]));
    assert_eq!(eval_from_str("2 * 3"), Ok(vec![6.0]));
    assert_eq!(eval_from_str("2 * -3"), Ok(vec![-6.0]));
    assert_eq!(eval_from_str("2 / 4"), Ok(vec![0.5]));
    assert_eq!(eval_from_str("-2 / 4"), Ok(vec![-0.5]));
    assert_eq!(eval_from_str("-1.0"), Ok(vec![-1.0]));
    assert_eq!(eval_from_str("7 % 3.0"), Ok(vec![1.0]));
    assert_eq!(eval_from_str("7.0 % -3.0"), Ok(vec![1.0]));
    assert_eq!(eval_from_str("-7 % 3"), Ok(vec![-1.0]));
}

#[test]
fn function_test() {
    assert_eq!(eval_from_str("sin(-1 + 2 * 3)"), Ok(vec![(5f64).sin()]));
    assert_eq!(eval_from_str("cos(-1 + 2 * 3)"), Ok(vec![(5f64).cos()]));
    assert_eq!(eval_from_str("tan(-1 + 2 * 3)"), Ok(vec![(5f64).tan()]));
    assert_eq!(eval_from_str("exp(-1 + 2 * 3)"), Ok(vec![(5f64).exp()]));
    assert_eq!(eval_from_str("sqrt(-1 + 2 * 3)"), Ok(vec![(5f64).sqrt()]));
    assert_eq!(eval_from_str("ln(-1 + 2 * 3)"), Ok(vec![(5f64).ln()]));
    assert_eq!(eval_from_str("powi(1 - 2 * 3, 2)"), Ok(vec![25.0]));
    assert_eq!(eval_from_str("pow(1 - 2 * 3, 2)"), Ok(vec![(-5f64).powf(2.0)]));
    assert_eq!(eval_from_str("-powf(1 - 2 * 3, 2)"), Ok(vec![-5f64.powf(2.0)]));

    assert_eq!(eval_from_str("cos(PI)"), Ok(vec![-1.0]));
    assert_eq!(eval_from_str("cos(TAU)"), Ok(vec![1.0]));
    assert_eq!(eval_from_str("ln(E)"), Ok(vec![1.0]));

    assert_eq!(eval_from_str("max(1, 2)"), Ok(vec![2.0]));
    assert_eq!(eval_from_str("min(1, 2)"), Ok(vec![1.0]));
    assert_eq!(eval_from_str("abs(-1)"), Ok(vec![1.0]));
    assert_eq!(eval_from_str("acos(-1)"), Ok(vec![std::f64::consts::PI]));
    assert_eq!(eval_from_str("sinh(1)"), Ok(vec![1.0f64.sinh()]));
    assert_eq!(eval_from_str("hypot(3,4)"), Ok(vec![5.0]));
    assert_eq!(eval_from_str("div_euclid(7,2)"), Ok(vec![3.0]));
    assert_eq!(eval_from_str("floor(1.49)"), Ok(vec![1.0]));
    assert_eq!(eval_from_str("log(5,2)"), Ok(vec![5.0f64.log(2.0)]));
}

#[test]
fn assoc_test() {
    assert_eq!(eval_from_str("1 + 2 * 3"), Ok(vec![7.0]));
    assert_eq!(eval_from_str("(1 + 2) * 3"), Ok(vec![9.0]));
    assert_eq!(eval_from_str("((1 + 2)) * 3"), Ok(vec![9.0]));
    assert_eq!(eval_from_str("(1 - (2 + 3)) * 5"), Ok(vec![-20.0]));
    assert_eq!(
        eval_from_str("powf((3-2)*5, sin(5-(3-1)))"),
        Ok(vec![((3f64 - 2.0) * 5.0).powf(3f64.sin())])
    );
    assert_eq!(eval_from_str("-(-(-1))+2"), Ok(vec![1.0]));
    assert_eq!(eval_from_str("-(-(-1*2)+3)+4"), Ok(vec![-1.0]));
}

#[test]
fn custom_func_test() {
    let mut context = Context::new();
    assert_eq!(
        eval_from_str_with_context("1 + func()", context.set_func("func", 0, |_| 2.0)),
        Ok(vec![3.0])
    );
    assert_eq!(
        eval_from_str_with_context("1 + func(2)", context.set_func("func", 1, |x| x[0])),
        Ok(vec![3.0])
    );
    assert_eq!(
        eval_from_str_with_context("1 + func(2,3)", context.set_func("func", 2, |x| x[0] + x[1])),
        Ok(vec![6.0])
    );
    assert_eq!(
        eval_from_str_with_context(
            "1 + func(2,3,4,5)",
            context.set_func("func", 4, |x| -x[0] - x[1] + x[2] + x[3])
        ),
        Ok(vec![5.0])
    );
    assert_eq!(
        eval_from_str_with_context(
            "1 + func(x)",
            context.set_func("func", 1, |x| x[0] * 2.0).set_value("x", 1.0)
        ),
        Ok(vec![3.0])
    );
    assert_eq!(
        eval_from_str_with_context(
            "1 + func(sin(x))",
            context.set_func("func", 1, |x| x[0] * 2.0).set_value("x", 1.0)
        ),
        Ok(vec![1.0 + (1.0f64.sin()) * 2.0])
    );
    assert_eq!(
        eval_from_str_with_context(
            "1 + func(func(x))",
            context.set_func("func", 1, |x| x[0] * 2.0).set_value("x", 1.0)
        ),
        Ok(vec![5.0])
    );

    assert_eq!(
        eval_from_str_with_context(
            "1 + func(1,x,y,4)",
            context
                .set_func("func", 4, |x| x[0] + x[1] * x[2] + x[3])
                .set_value("x", 2.0)
                .set_value("y", 3.0)
        ),
        Ok(vec![12.0])
    );

    let mut expr_obj = Expr::new("1 + func(x)").unwrap();
    assert_eq!(expr_obj.set_var("x", 3.0).set_func("func", 1, |x| x[0] * 2.0).eval(), Ok(7.0));

    let mut expr_obj = Expr::new("1 + func1(x) + func2()").unwrap();
    assert_eq!(
        expr_obj
            .set_var("x", 3.0)
            .set_func("func1", 1, |x| x[0] * 2.0)
            .partial_eval()
            .unwrap()
            .set_func("func2", 0, |_| 1.5)
            .eval(),
        Ok(8.5)
    );

    let mut expr_obj = Expr::new("1 + func1(1, x, y, 4) + z").unwrap();
    assert_eq!(
        expr_obj
            .set_func("func1", 4, |x| x[0] + x[1] * x[2] + x[3])
            .set_var("x", 2.0)
            .set_var("y", 3.0)
            .partial_eval()
            .unwrap()
            .set_var("z", -12.0)
            .eval(),
        Ok(0.0)
    );
}

#[test]
fn expr_test() {
    assert_eq!(
        eval_from_str("0.5 + 3.0 * -cos(sin(1.0 - 2.0) + 1.5) + 5.5"),
        Ok(vec![0.5 + 3.0 * -((1f64 - 2.0).sin() + 1.5).cos() + 5.5])
    );
    assert_eq!(eval_from_str("1.0 + 2 * (3 - 1)"), Ok(vec![5.0]));
    assert_eq!(
        eval_from_str("1.0 - sin(3.14 / 2) * powf(1.5, 2.5)"),
        Ok(vec![1.0 - (3.14f64 / 2.0).sin() * 1.5f64.powf(2.5)])
    );

    assert_eq!(
        eval_from_str("1 + 2, sin(3 + 0.14), 7 % 3"),
        Ok(vec![3.0, (3.14f64).sin(), 7.0 % 3.0])
    );
}

#[test]
fn expr_with_context_test() {
    let mut context = Context::new();
    assert_eq!(eval_from_str_with_context("1 / x", context.set_value("x", 2.0)), Ok(vec![0.5]));
    assert_eq!(
        eval_from_str_with_context(
            "0.5 + x * -cos(sin(1.0 - 2.0) + 1.5) + 5.5",
            context.set_value("x", 3.0)
        ),
        Ok(vec![0.5 + 3.0 * -((1f64 - 2.0).sin() + 1.5).cos() + 5.5])
    );
    assert_eq!(
        eval_from_str_with_context(
            "0.5 + x * -cos(sin(1.0 - 2.0) + 1.5) + 5.5",
            context.set_value("x", -1.5)
        ),
        Ok(vec![0.5 + -1.5 * -((1f64 - 2.0).sin() + 1.5).cos() + 5.5])
    );
}

#[test]
fn expr_object_test() {
    let expr_obj = Expr::new("sqrt(4)").unwrap();
    assert_eq!(expr_obj.eval(), Ok(2.0));

    let mut expr_obj = Expr::new("sqrt(2+x)").unwrap();
    assert_eq!(expr_obj.set_var("x", 2.0).eval(), Ok(2.0));

    let mut expr_obj = Expr::new("sqrt(2+x+y)").unwrap();
    assert_eq!(expr_obj.set_var("x", 2.0).set_var("y", 5.0).eval(), Ok(3.0));

    let expr1 = "0.5 + 3.0 * -cos(sin(1.0 - 2.0) + 1.5) + 5.5";
    let expr2 = "0.5 + x * -cos(sin(1.0 - 2.0) + 1.5) + 5.5";
    let result1 = Ok(0.5 + 3.0 * -((1f64 - 2.0).sin() + 1.5).cos() + 5.5);
    let result2 = Ok(0.5 + -1.5 * -((1f64 - 2.0).sin() + 1.5).cos() + 5.5);

    let expr_obj = Expr::new(&expr1).unwrap();
    assert_eq!(expr_obj.eval(), result1);

    let mut expr_obj = Expr::new(&expr2).unwrap();
    assert_eq!(expr_obj.set_var("x", 3.0).eval(), result1);
    assert_eq!(expr_obj.set_var("x", -1.5).eval(), result2);

    let mut expr_obj = Expr::new(&expr2).unwrap();
    expr_obj.partial_eval().unwrap();
    assert_eq!(expr_obj.set_var("x", 3.0).eval(), result1);
    assert_eq!(expr_obj.set_var("x", -1.5).eval(), result2);

    let expr_obj = Expr::new("1+1, 2*3+1, sin(PI)").unwrap();
    assert_eq!(expr_obj.eval(), Ok(2.0));
    assert_eq!(expr_obj.evals(), Ok(vec![2.0, 7.0, std::f64::consts::PI.sin()]));

    let mut expr_obj = Expr::new("x+1, 2*3+y; sin(PI)").unwrap();
    expr_obj.partial_evals().unwrap();
    assert_eq!(expr_obj.set_var("x", 1.0).eval(), Ok(2.0));
    assert_eq!(expr_obj.set_var("y", 1.0).eval_index(1), Ok(7.0));
    assert_eq!(expr_obj.evals(), Ok(vec![2.0, 7.0, std::f64::consts::PI.sin()]));

    let mut expr_obj = Expr::new("x+1, 2*3+y; sin(PI)").unwrap();
    expr_obj.set_var("x", 1.0).set_var("y", 1.0).partial_evals().unwrap();
    assert_eq!(expr_obj.eval(), Ok(2.0));
    assert_eq!(expr_obj.eval_index(1), Ok(7.0));
    assert_eq!(expr_obj.evals(), Ok(vec![2.0, 7.0, std::f64::consts::PI.sin()]));
}

#[test]
fn partial_eval_test() {
    let mut expr_obj = Expr::new("a1 + a2 * sin(x)").unwrap();
    expr_obj.set_var("a1", 1.0).set_var("a2", 0.5).partial_eval().unwrap();
    let mut x = 1.0;
    for _ in 0..10 {
        x = expr_obj.set_var("x", x).eval().unwrap();
        assert_eq!(expr_obj.set_var("x", x).eval(), Ok(1.0 + 0.5 * x.sin()));
    }
}

#[test]
fn expr_opeation_test() {
    let expr1 = Expr::new("1+x").unwrap();
    let expr2 = Expr::new("2*x").unwrap();
    assert_eq!((expr1 + expr2).set_var("x", 2.0).eval(), Ok(7.0));

    // If two variables conflict, the variable in the left expression takes precedence,
    // so use partial_eval beforehand.
    let expr1 = Expr::new("1+x").unwrap();
    let mut expr2 = Expr::new("2*x").unwrap();
    expr2.set_var("x", 3.0).partial_eval().unwrap();
    assert_eq!((expr1 * expr2).set_var("x", 2.0).eval(), Ok(18.0));

    let expr1 = Expr::new("1+x").unwrap();
    let expr2 = Expr::new("2*x").unwrap();
    assert_eq!((expr1 - expr2).set_var("x", 2.0).eval(), Ok(-1.0));

    let expr1 = Expr::new("1+x").unwrap();
    let expr2 = Expr::new("2*x").unwrap();
    assert_eq!((expr1 / expr2).set_var("x", 2.0).eval(), Ok(3.0f64 / 4.0));

    let expr1 = Expr::new("1+x, 2+x, 3+x").unwrap();
    let expr2 = Expr::new("2*x, 3*x, 4*x").unwrap();
    assert_eq!((expr1 + expr2).set_var("x", 2.0).evals(), Ok(vec![7.0, 10.0, 13.0]));

    // broadcasting
    let expr1 = Expr::new("1+x").unwrap();
    let expr2 = Expr::new("2*x, 3*x, 4*x").unwrap();
    assert_eq!((expr1 * expr2).set_var("x", 2.0).evals(), Ok(vec![12.0, 18.0, 24.0]));
}

#[test]
fn unary_minus_cases() {
    assert_eq!(eval_from_str("1 - 2"), Ok(vec![-1.0]));
    assert_eq!(eval_from_str("-1 + 2"), Ok(vec![1.0]));
    assert_eq!(eval_from_str("-(-(-1))+2"), Ok(vec![1.0]));
    assert_eq!(eval_from_str("2 * -3"), Ok(vec![-6.0]));
}

#[test]
fn statements_are_split_at_commas_and_semicolons() {
    assert_eq!(
        eval_from_str("1+2, sin(3+0.14), 7%3"),
        Ok(vec![3.0, (3.14f64).sin(), 1.0])
    );
    assert_eq!(
        eval_from_str("1 + 2, sin(3 + 0.14); 7 % 3"),
        Ok(vec![3.0, (3.14f64).sin(), 7.0 % 3.0])
    );
}

#[test]
fn custom_function_of_two_arguments() {
    let mut context = Context::new();
    assert_eq!(
        eval_from_str_with_context("1+func(2,3)", context.set_func("func", 2, |x| x[0] + x[1])),
        Ok(vec![6.0])
    );
    assert_eq!(
        eval_from_str_with_context("1+func(2)", context.set_func("func", 2, |x| x[0] + x[1])),
        Err(EvalError::WrongExpression)
    );
    assert_eq!(
        eval_from_str_with_context("func(2)", context.set_func("func", 2, |x| x[0] + x[1])),
        Err(EvalError::WrongExpression)
    );
}

#[test]
fn broadcasting_adds_the_single_program_to_each_of_the_three() {
    let single = Expr::new("1+x").unwrap();
    let three = Expr::new("2*x, 3*x, 4*x").unwrap();
    let mut sum = single + three;
    assert_eq!(sum.programs.len(), 3);
    assert_eq!(sum.set_var("x", 2.0).evals(), Ok(vec![3.0 + 4.0, 3.0 + 6.0, 3.0 + 8.0]));

    let single = Expr::new("1+x").unwrap();
    let three = Expr::new("2*x, 3*x, 4*x").unwrap();
    let mut difference = three - single;
    assert_eq!(difference.set_var("x", 2.0).evals(), Ok(vec![4.0 - 3.0, 6.0 - 3.0, 8.0 - 3.0]));
}

#[test]
fn errors_of_parsing_and_evaluation() {
    assert_eq!(eval_from_str("(1+2"), Err(EvalError::UnexpectedParenthesis));
    assert_eq!(eval_from_str("1+2)"), Err(EvalError::UnexpectedParenthesis));
    assert_eq!(eval_from_str("1+x"), Err(EvalError::UndefinedVariable("x".to_string())));
    assert_eq!(eval_from_str("1+foo(2)"), Err(EvalError::UndefinedFunction("foo".to_string())));
    assert_eq!(eval_from_str("1+"), Err(EvalError::WrongExpression));
    assert_eq!(eval_from_str("1 2"), Err(EvalError::WrongExpression));
    assert_eq!(eval_from_str("1 + 2x"), Err(EvalError::InvalidString("2x".to_string())));
    assert_eq!(eval_from_str("1 & 2"), Err(EvalError::InvalidCharacter('&')));
    assert_eq!(Expr::new("1").unwrap().eval_index(1), Err(EvalError::WrongExprIndex(1)));
}

#[test]
fn arithmetic_agrees_with_the_machine() {
    let cases: [(&str, f64); 12] = [
        ("1 + 2 * 3 - 4 / 5 % 6", 1.0 + 2.0 * 3.0 - 4.0 / 5.0 % 6.0),
        ("1 - 2 - 3 - 4", 1.0 - 2.0 - 3.0 - 4.0),
        ("100 / 10 / 5 * 3", 100.0 / 10.0 / 5.0 * 3.0),
        ("17 % 5 % 2", 17.0 % 5.0 % 2.0),
        ("-2 * -3 - -4", -2.0 * -3.0 - -4.0),
        ("2 * (3 + 4) * (5 - (6 - 7))", 2.0 * (3.0 + 4.0) * (5.0 - (6.0 - 7.0))),
        ("--3 - ---4", 3.0 - -4.0),
        ("0.1 + 0.2", 0.1 + 0.2),
        ("1e3 / 3", 1e3 / 3.0),
        ("1 / 0", f64::INFINITY),
        ("-(1 / 0) + 5", f64::NEG_INFINITY),
        ("(7.5 - 2.25) * 4 % 3 / 0.5", (7.5 - 2.25) * 4.0 % 3.0 / 0.5),
    ];
    for (text, expected) in cases {
        assert_eq!(eval_from_str(text), Ok(vec![expected]), "{}", text);
    }
    assert!(eval_from_str("0 / 0").unwrap()[0].is_nan());
    assert!(eval_from_str("nan + 1").unwrap()[0].is_nan());
    assert_eq!(eval_from_str("inf"), Ok(vec![f64::INFINITY]));
}

#[test]
fn partial_evaluation_keeps_the_value_of_formulas() {
    let texts = [
        "a1 + a2 * sin(x)",
        "pow(a1, 2) + hypot(x, a2) - -y",
        "func(a1, x) * func(a2, a1) + cos(PI * y)",
        "(a1 - x) % (a2 + 3) / y",
    ];
    for text in texts {
        let mut whole = Expr::new(text).unwrap();
        whole.set_func("func", 2, |x| x[0] * 10.0 + x[1]);
        let mut reduced = whole.clone();
        reduced.set_var("a1", 1.5).set_var("a2", -0.5).partial_eval().unwrap();
        let once = reduced.programs.programs().clone();
        reduced.partial_eval().unwrap();
        assert_eq!(reduced.programs.programs(), &once);
        for (x, y) in [(0.0, 1.0), (2.5, -3.0), (-7.0, 0.25)] {
            for e in [&mut whole, &mut reduced] {
                e.set_var("a1", 1.5).set_var("a2", -0.5).set_var("x", x).set_var("y", y);
            }
            assert_eq!(reduced.eval(), whole.eval(), "{}", text);
        }
    }
}
