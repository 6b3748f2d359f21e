use crate::context::{empty_env, merged, Context, Env};
use crate::error::{outcome, EvalError};
use crate::eval::{
    accepts, computes, eval_with_context, evals_with_context, evaluate, evaluate_each,
    partial_eval_with_context, reduced, Semantics,
};
use crate::parse::{parse_str_to_rpn, programs, reads_as};
use crate::token::{BinaryOp, Token, UnaryOp, Value};
use vstd::prelude::*;

verus! {

/// The statements of a formula as postfix programs, together with the
/// bindings that they are evaluated against.
#[derive(Debug, Clone)]
pub struct Expr {
    expr: Vec<Vec<Token>>,
    context: Context,
}

/// What an expression holds: its programs and its bindings.
pub struct ExprView {
    pub programs: Seq<Seq<Token<Seq<char>>>>,
    pub env: Env,
}

impl View for Expr {
    type V = ExprView;

    closed spec fn view(&self) -> ExprView {
        ExprView { programs: self.expr.deep_view(), env: self.context@ }
    }
}

/// The value of the statement at `id`, which has to exist.
pub open spec fn evaluate_at(sem: Semantics, x: ExprView, id: usize) -> Result<
    Value,
    EvalError<Seq<char>>,
> {
    if id >= x.programs.len() {
        Err(EvalError::WrongExprIndex(id))
    } else {
        evaluate(sem, x.env, x.programs[id as int])
    }
}

/// The index of the first program from `from` on whose reduction fails, or
/// the number of programs if there is none.
pub open spec fn first_failure(
    sem: Semantics,
    env: Env,
    programs: Seq<Seq<Token<Seq<char>>>>,
    from: int,
) -> int
    decreases programs.len() - from,
{
    if from < 0 || from >= programs.len() {
        programs.len() as int
    } else if reduced(sem, env, programs[from]) is Err {
        from
    } else {
        first_failure(sem, env, programs, from + 1)
    }
}

/// The programs with each of the first `k` replaced by its reduction.
pub open spec fn reduced_upto(
    sem: Semantics,
    env: Env,
    programs: Seq<Seq<Token<Seq<char>>>>,
    k: int,
) -> Seq<Seq<Token<Seq<char>>>> {
    Seq::new(
        programs.len(),
        |i: int|
            if i < k {
                reduced(sem, env, programs[i])->Ok_0
            } else {
                programs[i]
            },
    )
}

/// The expression with the statement at `id`, which has to exist, replaced
/// by its reduction.
pub open spec fn reduce_at(sem: Semantics, x: ExprView, id: usize) -> Result<
    ExprView,
    EvalError<Seq<char>>,
> {
    if id >= x.programs.len() {
        Err(EvalError::WrongExprIndex(id))
    } else {
        match reduced(sem, x.env, x.programs[id as int]) {
            Ok(program) => Ok(
                ExprView { programs: x.programs.update(id as int, program), env: x.env },
            ),
            Err(e) => Err(e),
        }
    }
}

/// The expression with its statements reduced, up to the first whose
/// reduction fails.
pub open spec fn reduce_each(sem: Semantics, x: ExprView) -> ExprView {
    ExprView {
        programs: reduced_upto(sem, x.env, x.programs, first_failure(sem, x.env, x.programs, 0)),
        env: x.env,
    }
}

/// The error of the first statement whose reduction fails, if there is one.
pub open spec fn reduce_each_error(sem: Semantics, x: ExprView) -> Option<EvalError<Seq<char>>> {
    let k = first_failure(sem, x.env, x.programs, 0);
    if k < x.programs.len() {
        Some(reduced(sem, x.env, x.programs[k])->Err_0)
    } else {
        None
    }
}

/// Two lists of programs can be combined: they are of one length, or one
/// of them holds a single program, which then goes with each of the other.
pub open spec fn fits(left: nat, right: nat) -> bool {
    left == right || left == 1 || right == 1
}

/// The program that applies `op` to the values of `left` and `right`.
pub open spec fn joined(
    left: Seq<Token<Seq<char>>>,
    right: Seq<Token<Seq<char>>>,
    op: Token<Seq<char>>,
) -> Seq<Token<Seq<char>>> {
    (left + right).push(op)
}

/// The programs of two lists joined pair by pair, a single program going
/// with each program of the other list.
pub open spec fn combined(
    left: Seq<Seq<Token<Seq<char>>>>,
    right: Seq<Seq<Token<Seq<char>>>>,
    op: Token<Seq<char>>,
) -> Seq<Seq<Token<Seq<char>>>> {
    Seq::new(
        if left.len() == 1 {
            right.len()
        } else {
            left.len()
        },
        |i: int|
            joined(
                left[if left.len() == 1 {
                    0
                } else {
                    i
                }],
                right[if right.len() == 1 {
                    0
                } else {
                    i
                }],
                op,
            ),
    )
}

/// Each program followed by a unary minus.
pub open spec fn negated(programs: Seq<Seq<Token<Seq<char>>>>) -> Seq<Seq<Token<Seq<char>>>> {
    Seq::new(programs.len(), |i: int| programs[i].push(Token::Unary(UnaryOp::Neg)))
}

fn append_tokens(tokens: &mut Vec<Token>, more: &Vec<Token>)
    ensures
        final(tokens).deep_view() == old(tokens).deep_view() + more.deep_view(),
{
    let mut i: usize = 0;
    assert(tokens.deep_view() =~= old(tokens).deep_view() + more.deep_view().take(0));
    while i < more.len()
        invariant
            i <= more.len(),
            tokens.deep_view() == old(tokens).deep_view() + more.deep_view().take(i as int),
        decreases more.len() - i,
    {
        let ghost before = tokens.deep_view();
        tokens.push(more[i].duplicate());
        assert(tokens.deep_view() =~= before.push(more[i as int]@));
        assert(more.deep_view().take(i + 1) =~= more.deep_view().take(i as int).push(
            more[i as int]@,
        ));
        assert(tokens.deep_view() =~= old(tokens).deep_view() + more.deep_view().take(i + 1));
        i = i + 1;
    }
    assert(more.deep_view().take(more.len() as int) =~= more.deep_view());
}

impl Expr {
    /// Parses a formula. `number` reads a literal's text as a number, or
    /// says that it is none. The expression starts without bindings.
    pub fn new<N: Fn(&str) -> Option<Value>>(expr: &str, number: &N) -> (r: Result<Self, EvalError>)
        requires
            forall|text: &str| call_requires(*number, (text,)),
        ensures
            forall|num: spec_fn(Seq<char>) -> Option<Value>| #[trigger]
                reads_as(*number, num) ==> match programs(num, expr@) {
                    Ok(ps) => r is Ok && r->Ok_0@ == (ExprView { programs: ps, env: empty_env() }),
                    Err(e) => r is Err && r->Err_0@ == e,
                },
    {
        match parse_str_to_rpn(expr, number) {
            Ok(programs) => Ok(Self { expr: programs, context: Context::new() }),
            Err(e) => Err(e),
        }
    }

    /// The expression of one statement that is the number `value`.
    pub fn from_value(value: Value) -> (r: Self)
        ensures
            r@ == (ExprView { programs: seq![seq![Token::Value(value)]], env: empty_env() }),
    {
        let mut program: Vec<Token> = Vec::new();
        program.push(Token::Value(value));
        let mut programs: Vec<Vec<Token>> = Vec::new();
        programs.push(program);
        assert(program.deep_view() =~= seq![Token::Value(value)]);
        assert(programs.deep_view() =~= seq![seq![Token::Value(value)]]);
        Self { expr: programs, context: Context::new() }
    }

    /// Binds a variable, in place of an earlier binding of the name.
    pub fn set_var(&mut self, var: &str, val: Value) -> (r: &mut Self)
        ensures
            r@.env.values == old(self)@.env.values.insert(var@, val),
            r@.env.funcs == old(self)@.env.funcs,
            r@.programs == old(self)@.programs,
            *final(self) == *final(r),
    {
        self.context.set_value(var, val);
        self
    }

    /// Registers a custom function of `n` arguments, in place of an
    /// earlier registration of the name.
    pub fn set_func(&mut self, name: &str, n: usize) -> (r: &mut Self)
        ensures
            r@.env.funcs == old(self)@.env.funcs.insert(name@, n),
            r@.env.values == old(self)@.env.values,
            r@.programs == old(self)@.programs,
            *final(self) == *final(r),
    {
        self.context.set_func(name, n);
        self
    }

    /// The value of the first statement.
    pub fn eval<K: Fn(&Token, &[Value]) -> Value>(&self, kernel: &K) -> (r: Result<Value, EvalError>)
        requires
            accepts(*kernel, self@.env),
        ensures
            forall|sem: Semantics| #[trigger]
                computes(*kernel, sem) ==> outcome(r) == evaluate_at(sem, self@, 0),
            forall|sem: Semantics| r is Ok ==> (#[trigger] evaluate_at(sem, self@, 0)) is Ok,
            forall|sem: Semantics|
                r is Err ==> (#[trigger] evaluate_at(sem, self@, 0)) == Err::<
                    Value,
                    EvalError<Seq<char>>,
                >(r->Err_0@),
    {
        self.eval_index(0, kernel)
    }

    /// The values of all statements, in order.
    pub fn evals<K: Fn(&Token, &[Value]) -> Value>(&self, kernel: &K) -> (r: Result<
        Vec<Value>,
        EvalError,
    >)
        requires
            accepts(*kernel, self@.env),
        ensures
            forall|sem: Semantics| #[trigger]
                computes(*kernel, sem) ==> outcome(r) == evaluate_each(
                    sem,
                    self@.env,
                    self@.programs,
                ),
            forall|sem: Semantics|
                r is Ok ==> (#[trigger] evaluate_each(sem, self@.env, self@.programs)) is Ok,
            forall|sem: Semantics|
                r is Err ==> (#[trigger] evaluate_each(sem, self@.env, self@.programs)) == Err::<
                    Seq<Value>,
                    EvalError<Seq<char>>,
                >(r->Err_0@),
    {
        evals_with_context(&self.expr, &self.context, kernel)
    }

    /// The value of the statement at `id`.
    pub fn eval_index<K: Fn(&Token, &[Value]) -> Value>(&self, id: usize, kernel: &K) -> (r: Result<
        Value,
        EvalError,
    >)
        requires
            accepts(*kernel, self@.env),
        ensures
            forall|sem: Semantics| #[trigger]
                computes(*kernel, sem) ==> outcome(r) == evaluate_at(sem, self@, id),
            forall|sem: Semantics| r is Ok ==> (#[trigger] evaluate_at(sem, self@, id)) is Ok,
            forall|sem: Semantics|
                r is Err ==> (#[trigger] evaluate_at(sem, self@, id)) == Err::<
                    Value,
                    EvalError<Seq<char>>,
                >(r->Err_0@),
    {
        if self.expr.len() <= id {
            Err(EvalError::WrongExprIndex(id))
        } else {
            assert(self@.programs[id as int] == self.expr[id as int].deep_view());
            eval_with_context(self.expr[id].as_slice(), &self.context, kernel)
        }
    }

    /// Reduces the statement at `id` against the bindings and puts what
    /// comes out in its place. The expression stays as it is on an error.
    pub fn partial_eval_index<K: Fn(&Token, &[Value]) -> Value>(
        &mut self,
        id: usize,
        kernel: &K,
    ) -> (r: Result<&mut Self, EvalError>)
        requires
            accepts(*kernel, old(self)@.env),
        ensures
            r is Ok ==> *final(self) == *final(r->Ok_0),
            r is Err ==> *final(self) == *old(self),
            forall|sem: Semantics| #[trigger]
                computes(*kernel, sem) && r is Ok ==> reduce_at(sem, old(self)@, id) == Ok::<
                    ExprView,
                    EvalError<Seq<char>>,
                >(r->Ok_0@),
            forall|sem: Semantics| r is Ok ==> (#[trigger] reduce_at(sem, old(self)@, id)) is Ok,
            forall|sem: Semantics|
                r is Err ==> (#[trigger] reduce_at(sem, old(self)@, id)) == Err::<
                    ExprView,
                    EvalError<Seq<char>>,
                >(r->Err_0@),
    {
        if self.expr.len() <= id {
            Err(EvalError::WrongExprIndex(id))
        } else {
            assert(self@.programs[id as int] == self.expr[id as int].deep_view());
            match partial_eval_with_context(self.expr[id].as_slice(), &self.context, kernel) {
                Ok(program) => {
                    self.expr.set(id, program);
                    assert(self@.programs =~= old(self)@.programs.update(
                        id as int,
                        program.deep_view(),
                    ));
                    Ok(self)
                },
                Err(e) => Err(e),
            }
        }
    }

    /// Reduces the first statement.
    pub fn partial_eval<K: Fn(&Token, &[Value]) -> Value>(&mut self, kernel: &K) -> (r: Result<
        &mut Self,
        EvalError,
    >)
        requires
            accepts(*kernel, old(self)@.env),
        ensures
            r is Ok ==> *final(self) == *final(r->Ok_0),
            r is Err ==> *final(self) == *old(self),
            forall|sem: Semantics| #[trigger]
                computes(*kernel, sem) && r is Ok ==> reduce_at(sem, old(self)@, 0) == Ok::<
                    ExprView,
                    EvalError<Seq<char>>,
                >(r->Ok_0@),
            forall|sem: Semantics| r is Ok ==> (#[trigger] reduce_at(sem, old(self)@, 0)) is Ok,
            forall|sem: Semantics|
                r is Err ==> (#[trigger] reduce_at(sem, old(self)@, 0)) == Err::<
                    ExprView,
                    EvalError<Seq<char>>,
                >(r->Err_0@),
    {
        self.partial_eval_index(0, kernel)
    }

    /// Reduces the statements in order, each in its place, and stops at the
    /// first whose reduction fails: the statements before it are then
    /// reduced, and it and those after it are as they were.
    pub fn partial_evals<K: Fn(&Token, &[Value]) -> Value>(&mut self, kernel: &K) -> (r: Result<
        &mut Self,
        EvalError,
    >)
        requires
            accepts(*kernel, old(self)@.env),
        ensures
            r is Ok ==> *final(self) == *final(r->Ok_0),
            forall|sem: Semantics| #[trigger]
                computes(*kernel, sem) ==> reduce_each(sem, old(self)@) == (match r {
                    Ok(x) => x@,
                    Err(_) => final(self)@,
                }),
            forall|sem: Semantics|
                r is Ok ==> (#[trigger] reduce_each_error(sem, old(self)@)) is None,
            forall|sem: Semantics|
                r is Err ==> (#[trigger] reduce_each_error(sem, old(self)@)) == Some(r->Err_0@),
    {
        let ghost start = self@;
        let ghost ps = start.programs;
        let ghost env = start.env;
        let mut i: usize = 0;
        proof {
            assert forall|sem: Semantics| #[trigger] computes(*kernel, sem) implies self@.programs
                == reduced_upto(sem, env, ps, 0) by {
                assert(self@.programs =~= reduced_upto(sem, env, ps, 0));
            }
        }
        while i < self.expr.len()
            invariant
                i <= self.expr.len(),
                self@.env == env,
                self@.programs.len() == ps.len(),
                start == (ExprView { programs: ps, env }),
                start == old(self)@,
                accepts(*kernel, env),
                forall|sem: Semantics|
                    #[trigger] first_failure(sem, env, ps, 0) == first_failure(
                        sem,
                        env,
                        ps,
                        i as int,
                    ),
                forall|j: int| i <= j < ps.len() ==> self@.programs[j] == ps[j],
                forall|sem: Semantics| #[trigger]
                    computes(*kernel, sem) ==> self@.programs == reduced_upto(
                        sem,
                        env,
                        ps,
                        i as int,
                    ),
            decreases self.expr.len() - i,
        {
            assert(self@.programs[i as int] == self.expr[i as int].deep_view());
            let ghost before = self@.programs;
            match partial_eval_with_context(self.expr[i].as_slice(), &self.context, kernel) {
                Ok(program) => {
                    self.expr.set(i, program);
                    proof {
                        assert(self@.programs =~= before.update(i as int, program.deep_view()));
                        assert forall|sem: Semantics|
                            #[trigger] first_failure(sem, env, ps, 0) == first_failure(
                                sem,
                                env,
                                ps,
                                i + 1,
                            ) by {
                            assert(reduced(sem, env, ps[i as int]) is Ok);
                            assert(first_failure(sem, env, ps, 0) == first_failure(
                                sem,
                                env,
                                ps,
                                i as int,
                            ));
                        }
                        assert forall|sem: Semantics| #[trigger]
                            computes(*kernel, sem) implies self@.programs == reduced_upto(
                            sem,
                            env,
                            ps,
                            i + 1,
                        ) by {
                            assert(before == reduced_upto(sem, env, ps, i as int));
                            assert(self@.programs =~= reduced_upto(sem, env, ps, i + 1));
                        }
                    }
                },
                Err(e) => {
                    proof {
                        assert forall|sem: Semantics|
                            (#[trigger] reduce_each_error(sem, start)) == Some(e@) by {
                            assert(first_failure(sem, env, ps, 0) == first_failure(
                                sem,
                                env,
                                ps,
                                i as int,
                            ));
                            assert(reduced(sem, env, ps[i as int]) is Err);
                        }
                        assert forall|sem: Semantics| #[trigger]
                            computes(*kernel, sem) implies reduce_each(sem, start) == self@ by {
                            assert(first_failure(sem, env, ps, 0) == first_failure(
                                sem,
                                env,
                                ps,
                                i as int,
                            ));
                            assert(reduced(sem, env, ps[i as int]) is Err);
                        }
                    }
                    return Err(e);
                },
            }
            i = i + 1;
        }
        proof {
            assert forall|sem: Semantics|
                (#[trigger] reduce_each_error(sem, start)) is None by {
                assert(first_failure(sem, env, ps, 0) == first_failure(
                    sem,
                    env,
                    ps,
                    ps.len() as int,
                ));
            }
            assert forall|sem: Semantics| #[trigger]
                computes(*kernel, sem) implies reduce_each(sem, start) == self@ by {
                assert(first_failure(sem, env, ps, 0) == first_failure(
                    sem,
                    env,
                    ps,
                    ps.len() as int,
                ));
            }
        }
        Ok(self)
    }

    /// Combines the programs with those of `other` under `op`, pair by
    /// pair; a single program on either side goes with each program of the
    /// other side. The bindings stay. Lists of other lengths do not fit
    /// and cannot be combined: `can_combine` tells.
    pub fn apply_operator(&mut self, other: Vec<Vec<Token>>, op: Token)
        requires
            fits(old(self)@.programs.len(), other.len() as nat),
        ensures
            final(self)@.programs == combined(old(self)@.programs, other.deep_view(), op@),
            final(self)@.env == old(self)@.env,
    {
        let ghost left = self@.programs;
        let ghost right = other.deep_view();
        let n = if self.expr.len() == 1 {
            other.len()
        } else {
            self.expr.len()
        };
        let mut result: Vec<Vec<Token>> = Vec::new();
        let mut i: usize = 0;
        while i < n
            invariant
                i <= n,
                n == (if left.len() == 1 {
                    right.len()
                } else {
                    left.len()
                }),
                fits(left.len(), right.len()),
                left == self.expr.deep_view(),
                right == other.deep_view(),
                result.len() == i,
                forall|j: int|
                    0 <= j < i ==> (#[trigger] result[j]).deep_view() == combined(
                        left,
                        right,
                        op@,
                    )[j],
            decreases n - i,
        {
            let li = if self.expr.len() == 1 {
                0
            } else {
                i
            };
            let ri = if other.len() == 1 {
                0
            } else {
                i
            };
            let mut program: Vec<Token> = Vec::new();
            assert(program.deep_view() =~= Seq::empty());
            append_tokens(&mut program, &self.expr[li]);
            append_tokens(&mut program, &other[ri]);
            let ghost both = program.deep_view();
            program.push(op.duplicate());
            assert(program.deep_view() =~= both.push(op@));
            assert(both =~= left[li as int] + right[ri as int]);
            result.push(program);
            i = i + 1;
        }
        self.expr = result;
        assert(self@.programs =~= combined(left, right, op@));
    }

    /// Whether the expression can be combined with `other`.
    pub fn can_combine(&self, other: &Expr) -> (r: bool)
        ensures
            r == fits(self@.programs.len(), other@.programs.len()),
    {
        let left = self.expr.len();
        let right = other.expr.len();
        left == right || left == 1 || right == 1
    }

    /// The expression whose statements are those of `self` and `other`
    /// combined under `op`. Its bindings are those of both, and those of
    /// `self` win.
    pub fn combine(self, other: Expr, op: BinaryOp) -> (r: Expr)
        requires
            fits(self@.programs.len(), other@.programs.len()),
        ensures
            r@.programs == combined(self@.programs, other@.programs, Token::Binary(op)),
            r@.env == merged(self@.env, other@.env),
    {
        let mut result = self;
        result.context = Context::ctx_merge(&result.context, &other.context);
        result.apply_operator(other.expr, Token::Binary(op));
        result
    }

    /// The sum, statement by statement.
    pub fn add(self, other: Expr) -> (r: Expr)
        requires
            fits(self@.programs.len(), other@.programs.len()),
        ensures
            r@.programs == combined(
                self@.programs,
                other@.programs,
                Token::Binary(BinaryOp::Add),
            ),
            r@.env == merged(self@.env, other@.env),
    {
        self.combine(other, BinaryOp::Add)
    }

    /// The difference, statement by statement.
    pub fn sub(self, other: Expr) -> (r: Expr)
        requires
            fits(self@.programs.len(), other@.programs.len()),
        ensures
            r@.programs == combined(
                self@.programs,
                other@.programs,
                Token::Binary(BinaryOp::Sub),
            ),
            r@.env == merged(self@.env, other@.env),
    {
        self.combine(other, BinaryOp::Sub)
    }

    /// The product, statement by statement.
    pub fn mul(self, other: Expr) -> (r: Expr)
        requires
            fits(self@.programs.len(), other@.programs.len()),
        ensures
            r@.programs == combined(
                self@.programs,
                other@.programs,
                Token::Binary(BinaryOp::Mul),
            ),
            r@.env == merged(self@.env, other@.env),
    {
        self.combine(other, BinaryOp::Mul)
    }

    /// The quotient, statement by statement.
    pub fn div(self, other: Expr) -> (r: Expr)
        requires
            fits(self@.programs.len(), other@.programs.len()),
        ensures
            r@.programs == combined(
                self@.programs,
                other@.programs,
                Token::Binary(BinaryOp::Div),
            ),
            r@.env == merged(self@.env, other@.env),
    {
        self.combine(other, BinaryOp::Div)
    }

    /// The expression with every statement negated.
    pub fn neg(self) -> (r: Expr)
        ensures
            r@.programs == negated(self@.programs),
            r@.env == self@.env,
    {
        let mut result = self;
        let mut i: usize = 0;
        while i < result.expr.len()
            invariant
                i <= result.expr.len(),
                result@.env == self@.env,
                result@.programs.len() == self@.programs.len(),
                forall|j: int| 0 <= j < i ==> result@.programs[j] == negated(self@.programs)[j],
                forall|j: int|
                    i <= j < result.expr.len() ==> result@.programs[j] == self@.programs[j],
            decreases result.expr.len() - i,
        {
            let ghost before = result@.programs;
            let mut program: Vec<Token> = Vec::new();
            assert(program.deep_view() =~= Seq::empty());
            append_tokens(&mut program, &result.expr[i]);
            let ghost copied = program.deep_view();
            program.push(Token::Unary(UnaryOp::Neg));
            assert(program.deep_view() =~= copied.push(Token::Unary(UnaryOp::Neg)));
            result.expr.set(i, program);
            assert(result@.programs =~= before.update(i as int, program.deep_view()));
            assert(copied =~= before[i as int]);
            i = i + 1;
        }
        assert(result@.programs =~= negated(self@.programs));
        result
    }

    /// The expression with the bindings of `context` in place of its own.
    pub fn apply_context(self, context: &Context) -> (r: Expr)
        ensures
            r@.programs == self@.programs,
            r@.env == context@,
    {
        let mut result = self;
        result.context = context.duplicate();
        result
    }

    /// The programs of the statements.
    pub fn programs(&self) -> (r: &Vec<Vec<Token>>)
        ensures
            r.deep_view() == self@.programs,
    {
        &self.expr
    }

    /// The bindings.
    pub fn context(&self) -> (r: &Context)
        ensures
            r@ == self@.env,
    {
        &self.context
    }

    /// The number of statements.
    pub fn len(&self) -> (n: usize)
        ensures
            n == self@.programs.len(),
    {
        self.expr.len()
    }
}

} // verus!
