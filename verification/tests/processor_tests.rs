use formula::num::Num;
use formula::parser::Value;
use formula::processor::{Function, Handler, Processor, Variable};

fn vn(i: i64) -> Value {
    Value::Number(Num::from_int(i))
}

/// Handlers a caller might plug into the evaluator.
enum TestFn {
    Negate,
    Plus,
    Minus,
}

impl Handler for TestFn {
    fn invoke(&self, args: &Vec<Num>) -> Option<Num> {
        match self {
            TestFn::Negate => {
                if args.len() != 1 {
                    return None;
                }
                Num::from_int(-1).checked_mul(args[0])
            }
            TestFn::Plus => {
                if args.len() != 2 {
                    return None;
                }
                args[0].checked_add(args[1])
            }
            TestFn::Minus => {
                if args.len() != 2 {
                    return None;
                }
                args[0].checked_sub(args[1])
            }
        }
    }
}

#[test]
fn processor_test_execute() {
    let success_data = [
        (
            // Minus(-1.0)
            vec![vn(1), Value::Function("Minus".to_string())],
            vec![Function::new("Minus", 1, TestFn::Negate)],
            Num::from_int(-1),
        ),
        (
            // Add((2 + 3) + 4, 5) + Sub(2, 3)
            vec![
                vn(2),
                vn(3),
                Value::Plus,
                vn(4),
                Value::Plus,
                vn(5),
                Value::Function("Add".to_string()),
                vn(2),
                vn(3),
                Value::Function("Sub".to_string()),
                Value::Plus,
            ],
            vec![
                Function::new("Add", 2, TestFn::Plus),
                Function::new("Sub", 2, TestFn::Minus),
            ],
            Num::from_int(13),
        ),
        (
            // 1 - 2 * 3
            vec![
                vn(1),
                vn(2),
                Value::Variable("hoge".to_string()),
                Value::Asterisk,
                Value::Minus,
            ],
            vec![],
            Num::from_int(-5),
        ),
        (
            // 1+2*(3*(4+5)+6)*(7+8)+9==1000<10!=1
            vec![
                vn(1),
                vn(2),
                vn(3),
                vn(4),
                vn(5),
                Value::Plus,
                Value::Asterisk,
                vn(6),
                Value::Plus,
                Value::Asterisk,
                vn(7),
                vn(8),
                Value::Plus,
                Value::Asterisk,
                Value::Plus,
                vn(9),
                Value::Plus,
                vn(1000),
                Value::Equal,
                vn(10),
                Value::LessThan,
                vn(1),
                Value::NotEqual,
            ],
            vec![],
            Num::from_int(0),
        ),
    ];

    for (input, functions, expected) in success_data {
        let mut p = Processor::new(input, functions, vec![Variable::new("hoge", Num::from_int(3))]);
        assert_eq!(p.execute(), Ok(expected));
    }

    let failure_data: [(Vec<Value>, Vec<Function<TestFn>>, Vec<Variable>); 3] = [
        (
            vec![vn(1), vn(2), vn(3), vn(4), Value::Plus, Value::Asterisk],
            vec![],
            vec![],
        ),
        (
            vec![vn(1), Value::Function("Add".to_string())],
            vec![Function::new("Add", 2, TestFn::Plus)],
            vec![],
        ),
        (
            vec![vn(1), Value::Function("add".to_string()), vn(2)],
            vec![],
            vec![Variable::new("not_add", Num::from_int(3))],
        ),
    ];

    for (input, functions, variables) in failure_data {
        let mut p = Processor::new(input, functions, variables);
        assert_eq!(p.execute().is_err(), true);
    }
}

#[test]
fn execute_unknown_variable_fails() {
    let mut p: Processor<TestFn> =
        Processor::new(vec![Value::Variable("hoge".to_string())], vec![], vec![]);
    assert!(p.execute().is_err());
}

#[test]
fn execute_division_by_zero_fails() {
    let mut p: Processor<TestFn> =
        Processor::new(vec![vn(1), vn(0), Value::Slash], vec![], vec![]);
    assert!(p.execute().is_err());
}

#[test]
fn execute_overflow_fails() {
    let big = Value::Number(Num::new(i64::MAX, 1).unwrap());
    let mut p: Processor<TestFn> =
        Processor::new(vec![big.clone(), big, Value::Plus], vec![], vec![]);
    assert!(p.execute().is_err());
}

#[test]
fn execute_first_match_wins() {
    // two functions of one name: the earlier entry is used
    let values = vec![vn(7), Value::Function("F".to_string())];
    let functions = vec![
        Function::new("F", 1, TestFn::Negate),
        Function::new("F", 2, TestFn::Plus),
    ];
    let mut p = Processor::new(values, functions, vec![]);
    assert_eq!(p.execute(), Ok(Num::from_int(-7)));
}

#[test]
fn execute_function_args_in_source_order() {
    // Sub pops its arguments back into source order: 2 3 Sub is 2 - 3
    let values = vec![
        vn(2),
        vn(3),
        Value::Function("Sub".to_string()),
    ];
    let mut p = Processor::new(values, vec![Function::new("Sub", 2, TestFn::Minus)], vec![]);
    assert_eq!(p.execute(), Ok(Num::from_int(-1)));
}
