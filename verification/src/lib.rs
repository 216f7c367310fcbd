//! A small formula language: a textual arithmetic and comparison
//! expression is tokenized, rewritten into postfix form, and reduced
//! to a single exact number, using caller-supplied function and
//! variable tables.
//!
//! The three stages are pure and fail independently; the first error
//! aborts the pipeline and is reported with the stage that found it.
//! Arithmetic is exact: a division or remainder by zero, and a result
//! whose unreduced fraction leaves the machine range, are evaluation
//! errors rather than rounded values.

use vstd::prelude::*;

pub mod lexer;
pub mod num;
pub mod parser;
pub mod processor;

use crate::lexer::Lexer;
use crate::lexer::spec_tokenize;
use crate::num::Num;
use crate::num::Rat;
use crate::parser::Parser;
use crate::parser::shunt;
use crate::parser::spec_parse;
use crate::processor::Builtin;
use crate::processor::FuncM;
use crate::processor::Function;
use crate::processor::Handler;
use crate::processor::Processor;
use crate::processor::VarM;
use crate::processor::Variable;
use crate::processor::eval_values;
use crate::processor::funcs_view;
use crate::processor::vars_view;

verus! {

/// The stage that detected a failure.
#[derive(Clone, Copy, Debug, PartialEq, Eq, Structural)]
pub enum ErrorType {
    Lexer,
    Parser,
    Processor,
}

/// Error of a whole evaluation: a message and the failing stage.
#[derive(Debug, PartialEq)]
pub struct FormulaError {
    pub msg: String,
    pub error_type: ErrorType,
}

/// Model of a reserved table entry.
pub open spec fn builtin_entry(name: Seq<char>, arity: nat, b: Builtin) -> FuncM {
    FuncM { name, arity, sem: |args: Seq<Rat>| b.builtin_sem(args) }
}

/// The reserved function set, in lookup order.
pub open spec fn reserved_table() -> Seq<FuncM> {
    seq![
        builtin_entry("Add"@, 2, Builtin::Add),
        builtin_entry("Sub"@, 2, Builtin::Sub),
        builtin_entry("Mul"@, 2, Builtin::Mul),
        builtin_entry("Div"@, 2, Builtin::Div),
        builtin_entry("Mod"@, 2, Builtin::Mod),
        builtin_entry("If"@, 3, Builtin::If),
    ]
}

/// The full lookup table: the reserved set, then the caller's
/// functions, so a caller's entry of a reserved name is shadowed.
pub open spec fn full_table(user: Seq<FuncM>) -> Seq<FuncM> {
    reserved_table() + user
}

/// The whole pipeline on the model level: tokenize, parse, then
/// reduce with the reserved set prepended to the caller's functions;
/// nothing as soon as one stage fails.
pub open spec fn spec_formula(s: Seq<char>, funcs: Seq<FuncM>, vars: Seq<VarM>) -> Option<Rat> {
    match spec_tokenize(s, 0) {
        None => None,
        Some(toks) => match spec_parse(toks, 0) {
            None => None,
            Some(vals) => eval_values(vals, 0, Seq::empty(), full_table(funcs), vars),
        },
    }
}

/// The stage at which [`spec_formula`] fails, when it does.
pub open spec fn spec_formula_stage(s: Seq<char>, funcs: Seq<FuncM>, vars: Seq<VarM>) -> ErrorType {
    if spec_tokenize(s, 0) is None {
        ErrorType::Lexer
    } else if spec_parse(spec_tokenize(s, 0)->Some_0, 0) is None {
        ErrorType::Parser
    } else {
        ErrorType::Processor
    }
}

/// Parses and evaluates a formula with the given extra functions and
/// variables: exactly [`spec_formula`] on the inputs, or an error
/// tagged with the failing stage precisely when that has none.
pub fn parse_formula<H: Handler>(
    input: &str,
    functions: Vec<Function<H>>,
    variables: Vec<Variable>,
) -> (r: Result<Num, FormulaError>)
    ensures
        (r is Ok <==> spec_formula(input@, funcs_view(functions@), vars_view(variables@)) is Some),
        (r matches Ok(v) ==> Some(v@) == spec_formula(
            input@,
            funcs_view(functions@),
            vars_view(variables@),
        )),
        (r matches Err(e) ==> e.error_type == spec_formula_stage(
            input@,
            funcs_view(functions@),
            vars_view(variables@),
        )),
{
    let ghost user = funcs_view(functions@);
    let f_add = Function::reserved("Add", 2, Builtin::Add);
    let f_sub = Function::reserved("Sub", 2, Builtin::Sub);
    let f_mul = Function::reserved("Mul", 2, Builtin::Mul);
    let f_div = Function::reserved("Div", 2, Builtin::Div);
    let f_mod = Function::reserved("Mod", 2, Builtin::Mod);
    let f_if = Function::reserved("If", 3, Builtin::If);
    proof {
        assert(f_add@ =~~= builtin_entry("Add"@, 2, Builtin::Add));
        assert(f_sub@ =~~= builtin_entry("Sub"@, 2, Builtin::Sub));
        assert(f_mul@ =~~= builtin_entry("Mul"@, 2, Builtin::Mul));
        assert(f_div@ =~~= builtin_entry("Div"@, 2, Builtin::Div));
        assert(f_mod@ =~~= builtin_entry("Mod"@, 2, Builtin::Mod));
        assert(f_if@ =~~= builtin_entry("If"@, 3, Builtin::If));
    }
    let mut all_functions: Vec<Function<H>> = Vec::new();
    all_functions.push(f_add);
    all_functions.push(f_sub);
    all_functions.push(f_mul);
    all_functions.push(f_div);
    all_functions.push(f_mod);
    all_functions.push(f_if);
    let mut functions = functions;
    all_functions.append(&mut functions);
    proof {
        let av = funcs_view(all_functions@);
        let ft = full_table(user);
        assert(av.len() == ft.len());
        assert forall|k: int| 0 <= k < av.len() implies av[k] == ft[k] by {
            assert(av[k] == all_functions@[k]@);
            if k >= 6 {
                assert(av[k] == user[k - 6]);
            }
        }
        assert(funcs_view(all_functions@) =~= full_table(user));
    }

    let mut lx = Lexer::new(input);
    let tokens = match lx.tokenize() {
        Ok(t) => t,
        Err(e) => {
            return Err(FormulaError { msg: e.msg, error_type: ErrorType::Lexer });
        },
    };
    let mut ps = Parser::new(tokens);
    let values = match ps.parse() {
        Ok(v) => v,
        Err(e) => {
            return Err(FormulaError { msg: e.msg, error_type: ErrorType::Parser });
        },
    };
    let mut pr = Processor::new(values, all_functions, variables);
    match pr.execute() {
        Ok(v) => Ok(v),
        Err(e) => Err(FormulaError { msg: e.msg, error_type: ErrorType::Processor }),
    }
}

/// Tokenizing then parsing never fails for the parser's trailing
/// double-checks alone: the token stream of a formula that tokenizes
/// always holds a literal or a variable reference, so the parser's
/// final rejection of an empty result never fires, and parsing fails
/// exactly when the shunting-yard rewriting itself does (a mismatched
/// parenthesis or a misplaced separator).
pub proof fn lemma_round_trip_parse(s: Seq<char>)
    requires
        spec_tokenize(s, 0) is Some,
    ensures
        ({
            let toks = spec_tokenize(s, 0)->Some_0;
            (spec_parse(toks, 0) is Some) == (shunt(toks, 0, Seq::empty(), Seq::empty()) is Some)
        }),
{
    let toks = spec_tokenize(s, 0)->Some_0;
    crate::lexer::lemma_tokenize_has_leaf(s, 0);
    let j = choose|j: int| #[trigger] crate::lexer::leaf_at(toks, j);
    crate::parser::lemma_parse_with_leaf_rejects_only_malformed(toks, 0);
}

/// Evaluating the same expression twice with the same tables yields
/// the same result: the outcome of the pipeline is a function of the
/// expression text and the two tables alone, with no hidden state.
pub proof fn lemma_evaluate_deterministic(
    s: Seq<char>,
    funcs: Seq<FuncM>,
    vars: Seq<VarM>,
    r1: Option<Rat>,
    r2: Option<Rat>,
)
    requires
        r1 == spec_formula(s, funcs, vars),
        r2 == spec_formula(s, funcs, vars),
    ensures
        r1 == r2,
{
}

} // verus!
