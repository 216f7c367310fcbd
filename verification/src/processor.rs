//! Evaluator: reduces a postfix sequence to a single number with one
//! operand stack, using caller-supplied function and variable tables.
//!
//! Name lookup is by exact string equality, first match in insertion
//! order. A function pops as many operands as its declared arity, in
//! source order; an operator pops two. The pass fails on an unknown
//! name, an arity that the stack cannot serve, an operand stack that
//! does not end with exactly one value, a division or remainder by
//! zero, or an exact result that leaves the machine range.

use vstd::prelude::*;

use crate::lexer::BinOp;
use crate::num::Num;
use crate::num::Rat;
use crate::num::rat_add;
use crate::num::rat_sub;
use crate::num::rat_mul;
use crate::num::rat_div;
use crate::num::rat_mod;
use crate::num::rat_eq;
use crate::num::rat_lt;
use crate::num::rat_le;
use crate::num::rat_fits;
use crate::num::rat_of_int;
use crate::parser::ValM;
use crate::parser::Value;
use crate::parser::vals_view;

verus! {

/// The exact result when it fits the machine range, else nothing.
pub open spec fn fitted(r: Rat) -> Option<Rat> {
    if rat_fits(r) {
        Some(r)
    } else {
        None
    }
}

/// What a binary operator yields on two operands: the exact value for
/// the arithmetic operators, `1` or `0` for the comparisons; nothing
/// on a division or remainder by zero or a result out of range.
pub open spec fn op_result(op: BinOp, a: Rat, b: Rat) -> Option<Rat> {
    match op {
        BinOp::Plus => fitted(rat_add(a, b)),
        BinOp::Minus => fitted(rat_sub(a, b)),
        BinOp::Asterisk => fitted(rat_mul(a, b)),
        BinOp::Slash => if b.n == 0 {
            None
        } else {
            fitted(rat_div(a, b))
        },
        BinOp::Percent => if b.n == 0 {
            None
        } else {
            fitted(rat_mod(a, b))
        },
        BinOp::Equal => Some(rat_of_int(if rat_eq(a, b) { 1 } else { 0 })),
        BinOp::NotEqual => Some(rat_of_int(if !rat_eq(a, b) { 1 } else { 0 })),
        BinOp::GreaterThan => Some(rat_of_int(if rat_lt(b, a) { 1 } else { 0 })),
        BinOp::GreaterThanOrEqual => Some(rat_of_int(if rat_le(b, a) { 1 } else { 0 })),
        BinOp::LessThan => Some(rat_of_int(if rat_lt(a, b) { 1 } else { 0 })),
        BinOp::LessThanOrEqual => Some(rat_of_int(if rat_le(a, b) { 1 } else { 0 })),
    }
}

/// The argument list as mathematical values.
pub open spec fn rat_args(s: Seq<Num>) -> Seq<Rat> {
    s.map_values(|n: Num| n@)
}

/// The returned number as a mathematical value, if any.
pub open spec fn opt_rat(r: Option<Num>) -> Option<Rat> {
    match r {
        Some(v) => Some(v@),
        None => None,
    }
}

/// A handler that computes a function of the language: a pure mapping
/// from an argument list to one number, or to nothing when the result
/// cannot be represented. Callers of the evaluator implement this to
/// supply their own functions; `spec_invoke` is the handler's
/// mathematical meaning and `invoke` must return exactly that.
pub trait Handler: Sized {
    /// Mathematical meaning of the handler. An implementation worth
    /// reasoning about refines this; left alone it promises nothing
    /// that `invoke` could meet, except by returning no value.
    open spec fn spec_invoke(&self, args: Seq<Rat>) -> Option<Rat> {
        None
    }

    /// Computes the handler's value on the given arguments.
    fn invoke(&self, args: &Vec<Num>) -> (r: Option<Num>)
        ensures
            opt_rat(r) == self.spec_invoke(rat_args(args@)),
    ;
}

/// The reserved functions that every evaluation run offers.
#[derive(Clone, Copy, Debug, PartialEq, Eq, Structural)]
pub enum Builtin {
    Add,
    Sub,
    Mul,
    Div,
    Mod,
    If,
}

impl Builtin {
    /// Meaning of a reserved function on an argument list of the
    /// right length: `Add`, `Sub`, `Mul`, `Div`, `Mod` are the exact
    /// binary operations; `If(cond, then, else)` picks `then` when
    /// `cond` is nonzero.
    pub open spec fn builtin_sem(self, args: Seq<Rat>) -> Option<Rat> {
        match self {
            Builtin::Add => if args.len() == 2 {
                fitted(rat_add(args[0], args[1]))
            } else {
                None
            },
            Builtin::Sub => if args.len() == 2 {
                fitted(rat_sub(args[0], args[1]))
            } else {
                None
            },
            Builtin::Mul => if args.len() == 2 {
                fitted(rat_mul(args[0], args[1]))
            } else {
                None
            },
            Builtin::Div => if args.len() == 2 {
                if args[1].n == 0 {
                    None
                } else {
                    fitted(rat_div(args[0], args[1]))
                }
            } else {
                None
            },
            Builtin::Mod => if args.len() == 2 {
                if args[1].n == 0 {
                    None
                } else {
                    fitted(rat_mod(args[0], args[1]))
                }
            } else {
                None
            },
            Builtin::If => if args.len() == 3 {
                Some(if args[0].n == 0 {
                    args[2]
                } else {
                    args[1]
                })
            } else {
                None
            },
        }
    }
}

impl Handler for Builtin {
    open spec fn spec_invoke(&self, args: Seq<Rat>) -> Option<Rat> {
        self.builtin_sem(args)
    }

    fn invoke(&self, args: &Vec<Num>) -> (r: Option<Num>) {
        match self {
            Builtin::Add => {
                if args.len() != 2 {
                    None
                } else {
                    args[0].checked_add(args[1])
                }
            },
            Builtin::Sub => {
                if args.len() != 2 {
                    None
                } else {
                    args[0].checked_sub(args[1])
                }
            },
            Builtin::Mul => {
                if args.len() != 2 {
                    None
                } else {
                    args[0].checked_mul(args[1])
                }
            },
            Builtin::Div => {
                if args.len() != 2 {
                    None
                } else {
                    args[0].checked_div(args[1])
                }
            },
            Builtin::Mod => {
                if args.len() != 2 {
                    None
                } else {
                    args[0].checked_rem(args[1])
                }
            },
            Builtin::If => {
                if args.len() != 3 {
                    None
                } else if args[0].num() != 0 {
                    Some(args[1])
                } else {
                    Some(args[2])
                }
            },
        }
    }
}

/// The body of a table entry: a reserved function or a caller's own.
pub enum HandlerKind<H> {
    Reserved(Builtin),
    Custom(H),
}

impl<H: Handler> Handler for HandlerKind<H> {
    open spec fn spec_invoke(&self, args: Seq<Rat>) -> Option<Rat> {
        match self {
            HandlerKind::Reserved(b) => b.spec_invoke(args),
            HandlerKind::Custom(h) => h.spec_invoke(args),
        }
    }

    fn invoke(&self, args: &Vec<Num>) -> (r: Option<Num>) {
        match self {
            HandlerKind::Reserved(b) => b.invoke(args),
            HandlerKind::Custom(h) => h.invoke(args),
        }
    }
}

/// A named function of fixed arity in the evaluation table.
pub struct Function<H> {
    name: String,
    args_count: usize,
    handler: HandlerKind<H>,
}

/// Mathematical model of a table function: its name, arity, and
/// meaning.
#[verifier::ext_equal]
pub ghost struct FuncM {
    pub name: Seq<char>,
    pub arity: nat,
    pub sem: spec_fn(Seq<Rat>) -> Option<Rat>,
}

impl<H: Handler> View for Function<H> {
    type V = FuncM;

    closed spec fn view(&self) -> FuncM {
        FuncM {
            name: self.name@,
            arity: self.args_count as nat,
            sem: |args: Seq<Rat>| self.handler.spec_invoke(args),
        }
    }
}

/// View of a function table.
pub open spec fn funcs_view<H: Handler>(s: Seq<Function<H>>) -> Seq<FuncM> {
    s.map_values(|f: Function<H>| f@)
}

impl<H: Handler> Function<H> {
    /// A table entry with the caller's handler.
    pub fn new(name: &str, args_count: usize, handler: H) -> (r: Function<H>)
        ensures
            r@.name == name@,
            r@.arity == args_count as nat,
            forall|args: Seq<Rat>| #[trigger] (r@.sem)(args) == handler.spec_invoke(args),
    {
        Function { name: name.to_owned(), args_count, handler: HandlerKind::Custom(handler) }
    }

    /// A table entry for a reserved function.
    pub fn reserved(name: &str, args_count: usize, builtin: Builtin) -> (r: Function<H>)
        ensures
            r@.name == name@,
            r@.arity == args_count as nat,
            forall|args: Seq<Rat>| #[trigger] (r@.sem)(args) == builtin.builtin_sem(args),
    {
        Function { name: name.to_owned(), args_count, handler: HandlerKind::Reserved(builtin) }
    }

    /// Checks the arity and invokes the handler.
    fn calc(&self, args: Vec<Num>) -> (r: Result<Num, ProcessorError>)
        ensures
            args@.len() == self@.arity ==> (r is Ok <==> (self@.sem)(rat_args(args@)) is Some),
            args@.len() == self@.arity ==> (r matches Ok(v) ==> Some(v@) == (self@.sem)(rat_args(args@))),
            args@.len() != self@.arity ==> r is Err,
    {
        if args.len() != self.args_count {
            Err(ProcessorError::new("error: args count mismatch"))
        } else {
            match self.handler.invoke(&args) {
                Some(v) => Ok(v),
                None => Err(ProcessorError::new("error: function failed to produce a value")),
            }
        }
    }
}

/// A named value in the variable table.
pub struct Variable {
    name: String,
    value: Num,
}

/// Mathematical model of a table variable.
pub ghost struct VarM {
    pub name: Seq<char>,
    pub value: Rat,
}

impl View for Variable {
    type V = VarM;

    closed spec fn view(&self) -> VarM {
        VarM { name: self.name@, value: self.value@ }
    }
}

/// View of a variable table.
pub open spec fn vars_view(s: Seq<Variable>) -> Seq<VarM> {
    s.map_values(|v: Variable| v@)
}

impl Variable {
    /// A table entry binding a name to a value.
    pub fn new(name: &str, value: Num) -> (r: Variable)
        ensures
            r@.name == name@,
            r@.value == value@,
    {
        Variable { name: name.to_owned(), value }
    }
}

/// Error reported by the evaluator, with a descriptive message.
#[derive(Debug, PartialEq)]
pub struct ProcessorError {
    pub msg: String,
}

impl ProcessorError {
    /// Wraps a message into an evaluator error.
    pub fn new(msg: &str) -> (r: ProcessorError)
        ensures
            r.msg@ == msg@,
    {
        ProcessorError { msg: msg.to_owned() }
    }
}

/// First function of the table with the given name, in insertion
/// order.
pub open spec fn find_func(funcs: Seq<FuncM>, name: Seq<char>) -> Option<FuncM>
    decreases funcs.len(),
{
    if funcs.len() == 0 {
        None
    } else if funcs[0].name == name {
        Some(funcs[0])
    } else {
        find_func(funcs.drop_first(), name)
    }
}

/// First variable of the table with the given name, in insertion
/// order.
pub open spec fn find_var(vars: Seq<VarM>, name: Seq<char>) -> Option<VarM>
    decreases vars.len(),
{
    if vars.len() == 0 {
        None
    } else if vars[0].name == name {
        Some(vars[0])
    } else {
        find_var(vars.drop_first(), name)
    }
}

/// One-pass reduction of the postfix sequence from position `i` with
/// the given operand stack: the single remaining value at the end, or
/// nothing when a name is unknown, the stack cannot serve an arity or
/// an operator, an operation fails, or the stack does not end with
/// exactly one value.
pub open spec fn eval_values(
    vals: Seq<ValM>,
    i: nat,
    stack: Seq<Rat>,
    funcs: Seq<FuncM>,
    vars: Seq<VarM>,
) -> Option<Rat>
    decreases vals.len() - i,
{
    if i >= vals.len() {
        if stack.len() == 1 {
            Some(stack[0])
        } else {
            None
        }
    } else {
        match vals[i as int] {
            ValM::Num(r) => eval_values(vals, i + 1, stack.push(r), funcs, vars),
            ValM::Var(nm) => match find_var(vars, nm) {
                None => None,
                Some(v) => eval_values(vals, i + 1, stack.push(v.value), funcs, vars),
            },
            ValM::Fun(nm) => match find_func(funcs, nm) {
                None => None,
                Some(f) => if stack.len() < f.arity {
                    None
                } else {
                    let args = stack.subrange(stack.len() - f.arity, stack.len() as int);
                    match (f.sem)(args) {
                        None => None,
                        Some(res) => eval_values(
                            vals,
                            i + 1,
                            stack.subrange(0, stack.len() - f.arity).push(res),
                            funcs,
                            vars,
                        ),
                    }
                },
            },
            ValM::Op(op) => if stack.len() < 2 {
                None
            } else {
                match op_result(op, stack[stack.len() - 2], stack[stack.len() - 1]) {
                    None => None,
                    Some(res) => eval_values(
                        vals,
                        i + 1,
                        stack.subrange(0, stack.len() - 2).push(res),
                        funcs,
                        vars,
                    ),
                }
            },
        }
    }
}

/// Index of the first function with the given name, if any.
fn find_function_index<H: Handler>(functions: &Vec<Function<H>>, name: &String) -> (r: Option<
    usize,
>)
    ensures
        match r {
            Some(j) => j < functions.len() && find_func(funcs_view(functions@), name@) == Some(
                functions@[j as int]@,
            ),
            None => find_func(funcs_view(functions@), name@) is None,
        },
{
    let ghost fm = funcs_view(functions@);
    proof {
        assert(fm.skip(0) =~= fm);
    }
    let mut j: usize = 0;
    while j < functions.len()
        invariant
            j <= functions.len(),
            fm == funcs_view(functions@),
            find_func(fm, name@) == find_func(fm.skip(j as int), name@),
        decreases functions.len() - j,
    {
        if functions[j].name == *name {
            proof {
                assert(fm.skip(j as int)[0] == fm[j as int]);
            }
            return Some(j);
        }
        proof {
            assert(fm.skip(j as int).drop_first() =~= fm.skip(j as int + 1));
        }
        j += 1;
    }
    proof {
        assert(fm.skip(functions.len() as int).len() == 0);
    }
    None
}

/// Index of the first variable with the given name, if any.
fn find_variable_index(variables: &Vec<Variable>, name: &String) -> (r: Option<usize>)
    ensures
        match r {
            Some(j) => j < variables.len() && find_var(vars_view(variables@), name@) == Some(
                variables@[j as int]@,
            ),
            None => find_var(vars_view(variables@), name@) is None,
        },
{
    let ghost am = vars_view(variables@);
    proof {
        assert(am.skip(0) =~= am);
    }
    let mut j: usize = 0;
    while j < variables.len()
        invariant
            j <= variables.len(),
            am == vars_view(variables@),
            find_var(am, name@) == find_var(am.skip(j as int), name@),
        decreases variables.len() - j,
    {
        if variables[j].name == *name {
            proof {
                assert(am.skip(j as int)[0] == am[j as int]);
            }
            return Some(j);
        }
        proof {
            assert(am.skip(j as int).drop_first() =~= am.skip(j as int + 1));
        }
        j += 1;
    }
    proof {
        assert(am.skip(variables.len() as int).len() == 0);
    }
    None
}

/// Evaluator state: the postfix sequence, the two lookup tables, and
/// a cursor over the sequence.
pub struct Processor<H> {
    values: Vec<Value>,
    functions: Vec<Function<H>>,
    variables: Vec<Variable>,
    index: usize,
}

/// Mathematical model of an evaluator.
pub ghost struct ProcM {
    pub values: Seq<ValM>,
    pub functions: Seq<FuncM>,
    pub variables: Seq<VarM>,
    pub index: nat,
}

impl<H: Handler> View for Processor<H> {
    type V = ProcM;

    closed spec fn view(&self) -> ProcM {
        ProcM {
            values: vals_view(self.values@),
            functions: funcs_view(self.functions@),
            variables: vars_view(self.variables@),
            index: self.index as nat,
        }
    }
}

impl<H: Handler> Processor<H> {
    /// An evaluator over the given postfix sequence and tables, with
    /// the cursor at the start.
    pub fn new(values: Vec<Value>, functions: Vec<Function<H>>, variables: Vec<Variable>) -> (r:
        Processor<H>)
        ensures
            r@.values == vals_view(values@),
            r@.functions == funcs_view(functions@),
            r@.variables == vars_view(variables@),
            r@.index == 0,
    {
        Processor { values, functions, variables, index: 0 }
    }

    /// Reduces the postfix sequence to a single number: exactly the
    /// value of [`eval_values`] from the current cursor with an empty
    /// operand stack, or an error precisely when that reduction has
    /// none.
    pub fn execute(&mut self) -> (r: Result<Num, ProcessorError>)
        ensures
            ({
                let spec_r = eval_values(
                    old(self)@.values,
                    old(self)@.index,
                    Seq::empty(),
                    old(self)@.functions,
                    old(self)@.variables,
                );
                &&& (r is Ok <==> spec_r is Some)
                &&& (r matches Ok(v) ==> Some(v@) == spec_r)
            }),
            final(self)@.values == old(self)@.values,
            final(self)@.functions == old(self)@.functions,
            final(self)@.variables == old(self)@.variables,
    {
        let ghost vm = self@.values;
        let ghost fm = self@.functions;
        let ghost am = self@.variables;
        let ghost target = eval_values(vm, self@.index, Seq::empty(), fm, am);
        let mut stack: Vec<Num> = Vec::new();

        proof {
            assert(rat_args(stack@) =~= Seq::<Rat>::empty());
        }
        while self.index < self.values.len()
            invariant
                self@.values == vm,
                self@.functions == fm,
                self@.variables == am,
                vm == old(self)@.values,
                fm == old(self)@.functions,
                am == old(self)@.variables,
                self.index as nat == self@.index,
                target == eval_values(vm, old(self)@.index, Seq::empty(), fm, am),
                target == eval_values(vm, self@.index, rat_args(stack@), fm, am),
            decreases vm.len() - self.index,
        {
            let ghost pre = rat_args(stack@);
            let ghost ii = self@.index;
            proof {
                assert(vm[ii as int] == self.values@[ii as int]@);
            }
            let vv = &self.values[self.index];
            match vv {
                Value::Number(num) => {
                    stack.push(*num);
                    proof {
                        assert(rat_args(stack@) =~= pre.push(num@));
                    }
                },
                Value::Function(f) => {
                    let jopt = find_function_index(&self.functions, f);
                    let j: usize = match jopt {
                        Some(j) => j,
                        None => {
                            return Err(ProcessorError::new("error: unknown function"));
                        },
                    };
                    let func = &self.functions[j];
                    let ac = func.args_count;
                    proof {
                        assert(func@.arity == ac as nat);
                    }
                    if stack.len() < ac {
                        return Err(ProcessorError::new("error: syntax error"));
                    }
                    let base = stack.len() - ac;
                    let mut args: Vec<Num> = Vec::new();
                    let mut k: usize = 0;
                    while k < ac
                        invariant
                            k <= ac,
                            base + ac == stack.len(),
                            args@.len() == k as nat,
                            forall|t: int| 0 <= t < k ==> args@[t] == stack@[base + t],
                        decreases ac - k,
                    {
                        args.push(stack[base + k]);
                        k += 1;
                    }
                    proof {
                        assert(rat_args(args@) =~= pre.subrange(
                            pre.len() - ac as nat,
                            pre.len() as int,
                        ));
                    }
                    stack.truncate(base);
                    proof {
                        assert(rat_args(stack@) =~= pre.subrange(0, pre.len() - ac as nat));
                    }
                    let result = match func.calc(args) {
                        Ok(v) => v,
                        Err(e) => {
                            return Err(e);
                        },
                    };
                    stack.push(result);
                    proof {
                        assert(rat_args(stack@) =~= pre.subrange(0, pre.len() - ac as nat).push(
                            result@,
                        ));
                    }
                },
                Value::Variable(v) => {
                    let jopt = find_variable_index(&self.variables, v);
                    let j: usize = match jopt {
                        Some(j) => j,
                        None => {
                            return Err(ProcessorError::new("error: unknown variable"));
                        },
                    };
                    stack.push(self.variables[j].value);
                    proof {
                        assert(rat_args(stack@) =~= pre.push(self.variables@[j as int]@.value));
                    }
                },
                _ => {
                    proof {
                        assert(vm[ii as int] is Op);
                    }
                    let v1 = match stack.pop() {
                        Some(v) => v,
                        None => {
                            return Err(ProcessorError::new("error: syntax error"));
                        },
                    };
                    let v2 = match stack.pop() {
                        Some(v) => v,
                        None => {
                            return Err(ProcessorError::new("error: syntax error"));
                        },
                    };
                    proof {
                        assert(pre.len() >= 2);
                        assert(v2@ == pre[pre.len() - 2]);
                        assert(v1@ == pre[pre.len() - 1]);
                    }
                    let res = match calc_binary_operator(v2, v1, vv) {
                        Ok(v) => v,
                        Err(e) => {
                            return Err(e);
                        },
                    };
                    stack.push(res);
                    proof {
                        assert(rat_args(stack@) =~= pre.subrange(0, pre.len() - 2).push(res@));
                    }
                },
            }
            self.index += 1;
        }
        if stack.len() == 1 {
            let v = match stack.pop() {
                Some(v) => v,
                None => {
                    return Err(ProcessorError::new("error: syntax error"));
                },
            };
            Ok(v)
        } else {
            Err(ProcessorError::new("error: syntax error"))
        }
    }
}

/// Applies a binary-operator item to two operands: exactly
/// [`op_result`], or an error precisely when that has none; any
/// non-operator item is an error.
fn calc_binary_operator(v1: Num, v2: Num, operator: &Value) -> (r: Result<Num, ProcessorError>)
    ensures
        match operator@ {
            ValM::Op(op) => {
                &&& (r is Ok <==> op_result(op, v1@, v2@) is Some)
                &&& (r matches Ok(v) ==> Some(v@) == op_result(op, v1@, v2@))
            },
            _ => r is Err,
        },
{
    match operator {
        Value::Plus => match v1.checked_add(v2) {
            Some(v) => Ok(v),
            None => Err(ProcessorError::new("error: result out of range")),
        },
        Value::Minus => match v1.checked_sub(v2) {
            Some(v) => Ok(v),
            None => Err(ProcessorError::new("error: result out of range")),
        },
        Value::Asterisk => match v1.checked_mul(v2) {
            Some(v) => Ok(v),
            None => Err(ProcessorError::new("error: result out of range")),
        },
        Value::Slash => match v1.checked_div(v2) {
            Some(v) => Ok(v),
            None => Err(ProcessorError::new("error: division failed")),
        },
        Value::Percent => match v1.checked_rem(v2) {
            Some(v) => Ok(v),
            None => Err(ProcessorError::new("error: remainder failed")),
        },
        Value::Equal => Ok(
            if v1.value_eq(v2) {
                Num::from_int(1)
            } else {
                Num::from_int(0)
            },
        ),
        Value::NotEqual => Ok(
            if v1.value_eq(v2) {
                Num::from_int(0)
            } else {
                Num::from_int(1)
            },
        ),
        Value::GreaterThan => Ok(
            if v2.value_lt(v1) {
                Num::from_int(1)
            } else {
                Num::from_int(0)
            },
        ),
        Value::GreaterThanOrEqual => Ok(
            if v2.value_le(v1) {
                Num::from_int(1)
            } else {
                Num::from_int(0)
            },
        ),
        Value::LessThan => Ok(
            if v1.value_lt(v2) {
                Num::from_int(1)
            } else {
                Num::from_int(0)
            },
        ),
        Value::LessThanOrEqual => Ok(
            if v1.value_le(v2) {
                Num::from_int(1)
            } else {
                Num::from_int(0)
            },
        ),
        _ => Err(ProcessorError::new("error: unexpected token")),
    }
}

} // verus!
