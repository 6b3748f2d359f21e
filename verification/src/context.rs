use crate::error::{outcome, EvalError};
use crate::eval::{
    accepts, computes, eval_with_context, evals_with_context, evaluate, evaluate_text, Semantics,
};
use crate::parse::{parse_str_to_rpn, programs, reads_as};
use crate::token::{Token, Value};
use fxhash::FxHashMap;
use vstd::prelude::*;

verus! {

/// `fxhash::FxHasher`, the hasher of the tables. Nothing is said of it.
#[verifier::external_type_specification]
#[verifier::external_body]
pub struct ExFxHasher(fxhash::FxHasher);

/// `core::hash::BuildHasherDefault`, which makes the hashers of a table.
/// Nothing is said of it.
#[verifier::external_type_specification]
#[verifier::external_body]
#[verifier::reject_recursive_types(H)]
pub struct ExBuildHasherDefault<H>(core::hash::BuildHasherDefault<H>);

/// What a table holds: the number bound to each name that has one. A table
/// is an `fxhash::FxHashMap`, that is, a `std::collections::HashMap` that
/// hashes with `FxHasher`.
pub uninterp spec fn bindings(table: FxHashMap<String, u64>) -> Map<Seq<char>, u64>;

/// What an empty table holds.
pub open spec fn no_bindings() -> Map<Seq<char>, u64> {
    Map::empty()
}

/// `HashMap::default`, with the hasher of `fxhash`: a table that binds no name.
#[verifier::external_body]
fn table_new() -> (table: FxHashMap<String, u64>)
    ensures
        bindings(table) == no_bindings(),
{
    FxHashMap::default()
}

/// `HashMap::insert`: binds the name to the number, in place of an earlier
/// binding of that name, and leaves the other names as they are.
#[verifier::external_body]
fn table_insert(table: &mut FxHashMap<String, u64>, key: &str, value: u64)
    ensures
        bindings(*final(table)) == bindings(*old(table)).insert(key@, value),
{
    table.insert(key.to_owned(), value);
}

/// `HashMap::get`: the number bound to the name, if there is one.
#[verifier::external_body]
fn table_get<'a>(table: &'a FxHashMap<String, u64>, key: &str) -> (found: Option<&'a u64>)
    ensures
        (found is Some) == bindings(*table).contains_key(key@),
        found is Some ==> *found->Some_0 == bindings(*table)[key@],
{
    table.get(key)
}

/// `HashMap::clone`: a table with the same bindings.
#[verifier::external_body]
fn table_clone(table: &FxHashMap<String, u64>) -> (copy: FxHashMap<String, u64>)
    ensures
        bindings(copy) == bindings(*table),
{
    table.clone()
}

/// `HashMap::extend`: adds the bindings of `more`, each in place of an
/// earlier binding of its name.
#[verifier::external_body]
fn table_extend(table: &mut FxHashMap<String, u64>, more: FxHashMap<String, u64>)
    ensures
        bindings(*final(table)) == bindings(*old(table)).union_prefer_right(bindings(more)),
{
    table.extend(more);
}

/// What is known of a custom function: the number of its arguments. The
/// function itself stays with the caller, who is asked to apply it by name.
#[derive(Debug, Clone, Copy)]
pub struct FuncClosure {
    arg_len: usize,
}

impl FuncClosure {
    /// The number of arguments.
    pub closed spec fn arity(&self) -> usize {
        self.arg_len
    }

    /// A function of `n` arguments.
    pub fn new(n: usize) -> (r: Self)
        ensures
            r.arity() == n,
    {
        Self { arg_len: n }
    }

    /// The number of arguments.
    pub fn get_arg_len(&self) -> (n: usize)
        ensures
            n == self.arity(),
    {
        self.arg_len
    }
}

/// The bindings that a program is evaluated against: the value of each
/// variable that has one, and the number of arguments of each custom
/// function that is registered.
pub struct Env {
    pub values: Map<Seq<char>, Value>,
    pub funcs: Map<Seq<char>, usize>,
}

/// No binding at all.
pub open spec fn empty_env() -> Env {
    Env { values: Map::empty(), funcs: Map::empty() }
}

/// The bindings of `first`, and those of `second` for the names that
/// `first` does not bind.
pub open spec fn merged(first: Env, second: Env) -> Env {
    Env {
        values: second.values.union_prefer_right(first.values),
        funcs: second.funcs.union_prefer_right(first.funcs),
    }
}

/// An argument count as it leaves a table, where it is kept as a `u64`.
pub open spec fn narrowed(n: u64) -> usize {
    if n <= usize::MAX {
        n as usize
    } else {
        usize::MAX
    }
}

fn narrow(n: u64) -> (r: usize)
    ensures
        r == narrowed(n),
{
    if n <= usize::MAX as u64 {
        n as usize
    } else {
        usize::MAX
    }
}

/// The values of variables and the argument counts of custom functions,
/// each in a table of its own, so that a variable and a function can have
/// one name.
#[derive(Debug, Clone, Default)]
pub struct Context {
    value_map: FxHashMap<String, u64>,
    func_map: FxHashMap<String, u64>,
}

impl View for Context {
    type V = Env;

    closed spec fn view(&self) -> Env {
        Env {
            values: bindings(self.value_map),
            funcs: bindings(self.func_map).map_values(|n: u64| narrowed(n)),
        }
    }
}

impl Context {
    /// A context that binds nothing.
    pub fn new() -> (r: Self)
        ensures
            r@ == empty_env(),
    {
        let r = Self { value_map: table_new(), func_map: table_new() };
        assert(r@.funcs =~= Map::empty());
        r
    }

    /// Binds a variable, in place of an earlier binding of the name.
    pub fn set_value(&mut self, key: &str, val: Value) -> (r: &mut Self)
        ensures
            r@.values == old(self)@.values.insert(key@, val),
            r@.funcs == old(self)@.funcs,
            *final(self) == *final(r),
    {
        table_insert(&mut self.value_map, key, val);
        self
    }

    /// The value of a variable, if it has one.
    pub fn get_value(&self, key: &str) -> (r: Option<&Value>)
        ensures
            (r is Some) == self@.values.contains_key(key@),
            r is Some ==> *r->Some_0 == self@.values[key@],
    {
        table_get(&self.value_map, key)
    }

    /// Registers a custom function of `n` arguments, in place of an earlier
    /// registration of the name.
    pub fn set_func(&mut self, key: &str, n: usize) -> (r: &mut Self)
        ensures
            r@.funcs == old(self)@.funcs.insert(key@, n),
            r@.values == old(self)@.values,
            *final(self) == *final(r),
    {
        table_insert(&mut self.func_map, key, n as u64);
        assert(self@.funcs =~= old(self)@.funcs.insert(key@, n));
        self
    }

    /// What is registered of a custom function, if it is registered.
    pub fn get_func(&self, key: &str) -> (r: Option<FuncClosure>)
        ensures
            (r is Some) == self@.funcs.contains_key(key@),
            r is Some ==> r->Some_0.arity() == self@.funcs[key@],
    {
        match table_get(&self.func_map, key) {
            Some(n) => Some(FuncClosure::new(narrow(*n))),
            None => None,
        }
    }

    /// A context with the bindings of both, in which those of `lhs` win.
    pub fn ctx_merge(lhs: &Context, rhs: &Context) -> (r: Self)
        ensures
            r@ == merged(lhs@, rhs@),
    {
        let mut value_map = table_clone(&rhs.value_map);
        table_extend(&mut value_map, table_clone(&lhs.value_map));
        let mut func_map = table_clone(&rhs.func_map);
        table_extend(&mut func_map, table_clone(&lhs.func_map));
        let r = Self { value_map, func_map };
        assert(r@.funcs =~= merged(lhs@, rhs@).funcs);
        r
    }

    /// A context with the same bindings.
    pub fn duplicate(&self) -> (r: Self)
        ensures
            r@ == self@,
    {
        Self { value_map: table_clone(&self.value_map), func_map: table_clone(&self.func_map) }
    }

    /// Evaluates the first statement of a text against these bindings.
    /// `number` reads a literal's text as a number, or says that it is
    /// none; `kernel` applies an operator or a function to its arguments.
    pub fn eval<N: Fn(&str) -> Option<Value>, K: Fn(&Token, &[Value]) -> Value>(
        &mut self,
        expr: &str,
        number: &N,
        kernel: &K,
    ) -> (r: Result<Value, EvalError>)
        requires
            forall|text: &str| call_requires(*number, (text,)),
            accepts(*kernel, old(self)@),
        ensures
            *final(self) == *old(self),
            forall|num: spec_fn(Seq<char>) -> Option<Value>, sem: Semantics|
                #![trigger reads_as(*number, num), computes(*kernel, sem)]
                reads_as(*number, num) && computes(*kernel, sem) ==> outcome(r) == evaluate_first(
                    num,
                    sem,
                    old(self)@,
                    expr@,
                ),
            forall|num: spec_fn(Seq<char>) -> Option<Value>, sem: Semantics|
                reads_as(*number, num) && r is Ok ==> (#[trigger] evaluate_first(
                    num,
                    sem,
                    old(self)@,
                    expr@,
                )) is Ok,
            forall|num: spec_fn(Seq<char>) -> Option<Value>, sem: Semantics|
                reads_as(*number, num) && r is Err ==> (#[trigger] evaluate_first(
                    num,
                    sem,
                    old(self)@,
                    expr@,
                )) == Err::<Value, EvalError<Seq<char>>>(r->Err_0@),
    {
        match parse_str_to_rpn(expr, number) {
            Ok(programs) => {
                if programs.len() == 0 {
                    Err(EvalError::WrongExprIndex(0))
                } else {
                    assert(programs.deep_view()[0] == programs[0].deep_view());
                    eval_with_context(programs[0].as_slice(), self, kernel)
                }
            },
            Err(e) => Err(e),
        }
    }

    /// Evaluates all statements of a text against these bindings.
    pub fn evals<N: Fn(&str) -> Option<Value>, K: Fn(&Token, &[Value]) -> Value>(
        &mut self,
        expr: &str,
        number: &N,
        kernel: &K,
    ) -> (r: Result<Vec<Value>, EvalError>)
        requires
            forall|text: &str| call_requires(*number, (text,)),
            accepts(*kernel, old(self)@),
        ensures
            *final(self) == *old(self),
            forall|num: spec_fn(Seq<char>) -> Option<Value>, sem: Semantics|
                #![trigger reads_as(*number, num), computes(*kernel, sem)]
                reads_as(*number, num) && computes(*kernel, sem) ==> outcome(r) == evaluate_text(
                    num,
                    sem,
                    old(self)@,
                    expr@,
                ),
            forall|num: spec_fn(Seq<char>) -> Option<Value>, sem: Semantics|
                reads_as(*number, num) && r is Ok ==> (#[trigger] evaluate_text(
                    num,
                    sem,
                    old(self)@,
                    expr@,
                )) is Ok,
            forall|num: spec_fn(Seq<char>) -> Option<Value>, sem: Semantics|
                reads_as(*number, num) && r is Err ==> (#[trigger] evaluate_text(
                    num,
                    sem,
                    old(self)@,
                    expr@,
                )) == Err::<Seq<Value>, EvalError<Seq<char>>>(r->Err_0@),
    {
        match parse_str_to_rpn(expr, number) {
            Ok(programs) => evals_with_context(&programs, self, kernel),
            Err(e) => Err(e),
        }
    }
}

/// The value of the first statement of a text, where `num` reads numbers
/// and `sem` is the arithmetic. A text without a statement has none.
pub open spec fn evaluate_first(
    num: spec_fn(Seq<char>) -> Option<Value>,
    sem: Semantics,
    env: Env,
    text: Seq<char>,
) -> Result<Value, EvalError<Seq<char>>> {
    match programs(num, text) {
        Ok(ps) => if ps.len() == 0 {
            Err(EvalError::WrongExprIndex(0))
        } else {
            evaluate(sem, env, ps[0])
        },
        Err(e) => Err(e),
    }
}

} // verus!
