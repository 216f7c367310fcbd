use formula::num::Num;
use formula::processor::{Function, Handler, Variable};
use formula::{parse_formula, ErrorType};

/// An integer power handler, as a caller would supply one.
struct PowFn;

impl Handler for PowFn {
    fn invoke(&self, args: &Vec<Num>) -> Option<Num> {
        if args.len() != 2 {
            return None;
        }
        let e = args[1];
        if e.den() != 1 || e.num() < 0 {
            return None;
        }
        let mut r = Num::from_int(1);
        let mut left = e.num();
        while left > 0 {
            r = r.checked_mul(args[0])?;
            left -= 1;
        }
        Some(r)
    }
}

fn tables() -> (Vec<Function<PowFn>>, Vec<Variable>) {
    (
        vec![Function::new("Pow", 2, PowFn)],
        vec![
            Variable::new("hoge", Num::from_int(2)),
            Variable::new("fuga", Num::from_int(4)),
        ],
    )
}

#[test]
fn lib_test_execute() {
    let success_data = [
        ("4", 4),
        ("-4", -4),
        ("5 - 4 - (1)", 0),
        ("4 - 5", -1),
        ("(1 - 3) * 3", -6),
        ("(-1 + 3) * 3", 6),
        ("(3 - 5) % 3", -2),
        ("1+2*(3*(4+5)+6)*(7+8)+9==1000<10!=1", 0),
        ("1 == 2 * 3 < 1", 1),
        ("5 < 2 * 3", 1),
        ("5 > 2 * 3", 0),
        ("5 != 2 * 3", 1),
        ("5 == 2 * 3", 0),
        ("Add((2 + 3) + 4, 5) + Sub(2, 3)", 13),
        ("If(1 == (2 - 1), 3, 1)", 3),
        ("If(1 != (2 - 1), 3, 1)", 1),
        ("(1 - (2 * 3)) * (4 + 5)", -45),
        ("hoge + fuga * 3 - Add(1, 2)", 11),
        ("Pow(2, 3)", 8),
    ];
    for (input, expected) in success_data {
        let (funcs, vars) = tables();
        let r = parse_formula(input, funcs, vars);
        assert!(
            r.as_ref().is_ok_and(|v| v.value_eq(Num::from_int(expected))),
            "input {:?} gave {:?}, expected {:?}",
            input,
            r,
            expected
        );
    }

    let failure_data = [
        "2(3 + 2)",
        "1 ! 3",
        "1 ==",
        "== 3",
        "=",
        "2+=3",
        "2 - 3 (()) + 3)",
        "()",
        "",
        "hello world",
        "add(2, 3)",
        "Add(2)",
        "add + 2 / 3",
    ];
    for input in failure_data {
        let r = parse_formula::<PowFn>(input, vec![], vec![]);
        assert_eq!((r.is_err(), input), (true, input));
    }
}

#[test]
fn evaluate_error_stages() {
    // malformed text fails at the lexer
    let r = parse_formula::<PowFn>("2(3 + 2)", vec![], vec![]);
    assert_eq!(r.unwrap_err().error_type, ErrorType::Lexer);
    // an unclosed call tokenizes but leaves an unbalanced parenthesis
    let r = parse_formula::<PowFn>("Add(1", vec![], vec![]);
    assert_eq!(r.unwrap_err().error_type, ErrorType::Parser);
    // an undefined name fails at the evaluator
    let r = parse_formula::<PowFn>("hoge", vec![], vec![]);
    assert_eq!(r.unwrap_err().error_type, ErrorType::Processor);
    let r = parse_formula::<PowFn>("Pow(2, 3)", vec![], vec![]);
    assert_eq!(r.unwrap_err().error_type, ErrorType::Processor);
    // a wrong arity on a reserved function fails at the evaluator
    let r = parse_formula::<PowFn>("Add(2)", vec![], vec![]);
    assert_eq!(r.unwrap_err().error_type, ErrorType::Processor);
    // a division by zero has no exact value
    let r = parse_formula::<PowFn>("1 / 0", vec![], vec![]);
    assert_eq!(r.unwrap_err().error_type, ErrorType::Processor);
}

#[test]
fn evaluate_twice_is_identical() {
    let inputs = ["hoge + fuga * 3 - Add(1, 2)", "Pow(2, 3)", "(3 - 5) % 3", "add(3)"];
    for input in inputs {
        let (f1, v1) = tables();
        let (f2, v2) = tables();
        let r1 = parse_formula(input, f1, v1);
        let r2 = parse_formula(input, f2, v2);
        assert_eq!(r1, r2);
    }
}

#[test]
fn evaluate_exact_fractions() {
    let r = parse_formula::<PowFn>("0.5 + 0.5", vec![], vec![]).unwrap();
    assert!(r.value_eq(Num::from_int(1)));
    let r = parse_formula::<PowFn>("5 / 2", vec![], vec![]).unwrap();
    assert!(r.value_eq(Num::new(5, 2).unwrap()));
    let r = parse_formula::<PowFn>("1 / 3 * 3", vec![], vec![]).unwrap();
    assert!(r.value_eq(Num::from_int(1)));
    let r = parse_formula::<PowFn>("0.1 + 0.2 == 0.3", vec![], vec![]).unwrap();
    assert!(r.value_eq(Num::from_int(1)));
}

#[test]
fn evaluate_remainder_sign_follows_dividend() {
    let cases = [("(3 - 5) % 3", -2), ("5 % 3", 2), ("(0 - 5) % 3", -2), ("5 % (0 - 3)", 2)];
    for (input, expected) in cases {
        let r = parse_formula::<PowFn>(input, vec![], vec![]).unwrap();
        assert!(r.value_eq(Num::from_int(expected)), "input {:?}", input);
    }
}

#[test]
fn evaluate_two_tier_precedence() {
    // * and / bind tighter; + - % and the comparisons share one tier
    let r = parse_formula::<PowFn>("1 + 2 * 3", vec![], vec![]).unwrap();
    assert!(r.value_eq(Num::from_int(7)));
    let r = parse_formula::<PowFn>("10 - 4 % 3", vec![], vec![]).unwrap();
    // (10 - 4) % 3, not 10 - (4 % 3): % shares the lower tier
    assert!(r.value_eq(Num::from_int(0)));
    let r = parse_formula::<PowFn>("2 + 3 == 5", vec![], vec![]).unwrap();
    assert!(r.value_eq(Num::from_int(1)));
}

#[test]
fn evaluate_shadowed_function_is_unreachable() {
    // a caller's Add is appended after the reserved set, so the
    // reserved Add wins by first match
    struct BadAdd;
    impl Handler for BadAdd {
        fn invoke(&self, _args: &Vec<Num>) -> Option<Num> {
            Some(Num::from_int(0))
        }
    }
    let r = parse_formula("Add(2, 3)", vec![Function::new("Add", 2, BadAdd)], vec![]);
    assert!(r.unwrap().value_eq(Num::from_int(5)));
}

#[test]
fn evaluate_reserved_functions() {
    let cases = [
        ("Add(2, 3)", 5),
        ("Sub(2, 3)", -1),
        ("Mul(4, 5)", 20),
        ("Mod(7, 3)", 1),
        ("If(0, 1, 2)", 2),
        ("If(3, 1, 2)", 1),
    ];
    for (input, expected) in cases {
        let r = parse_formula::<PowFn>(input, vec![], vec![]).unwrap();
        assert!(r.value_eq(Num::from_int(expected)), "input {:?}", input);
    }
    let r = parse_formula::<PowFn>("Div(10, 4)", vec![], vec![]).unwrap();
    assert!(r.value_eq(Num::new(10, 4).unwrap()));
    let r = parse_formula::<PowFn>("Div(1, 0)", vec![], vec![]);
    assert!(r.is_err());
    let r = parse_formula::<PowFn>("Mod(1, 0)", vec![], vec![]);
    assert!(r.is_err());
}
