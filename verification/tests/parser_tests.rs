use formula::lexer::{Lexer, Token};
use formula::num::Num;
use formula::parser::{Parser, Value};

fn n(i: i64) -> Token {
    Token::Number(Num::from_int(i))
}

fn vn(i: i64) -> Value {
    Value::Number(Num::from_int(i))
}

#[test]
fn test_parse() {
    let success_data = [
        (
            // Add((2 + 3) + 4, 5) + Sub(2, 3)
            // -> 2 3 + 4 + 5 Add 2 3 Sub +
            vec![
                Token::Property("Add".to_string()),
                Token::LeftParenthesis,
                Token::LeftParenthesis,
                n(2),
                Token::Plus,
                n(3),
                Token::RightParenthesis,
                Token::Plus,
                n(4),
                Token::Comma,
                n(5),
                Token::RightParenthesis,
                Token::Plus,
                Token::Property("Sub".to_string()),
                Token::LeftParenthesis,
                n(2),
                Token::Comma,
                n(3),
                Token::RightParenthesis,
            ],
            vec![
                vn(2),
                vn(3),
                Value::Plus,
                vn(4),
                Value::Plus,
                vn(5),
                Value::Function("Add".to_string()),
                vn(2),
                vn(3),
                Value::Function("Sub".to_string()),
                Value::Plus,
            ],
        ),
        (
            // 1+2*(3*(4+5)+6)*(7+8)+9==1000<10!=1
            vec![
                n(1),
                Token::Plus,
                n(2),
                Token::Asterisk,
                Token::LeftParenthesis,
                n(3),
                Token::Asterisk,
                Token::LeftParenthesis,
                n(4),
                Token::Plus,
                n(5),
                Token::RightParenthesis,
                Token::Plus,
                n(6),
                Token::RightParenthesis,
                Token::Asterisk,
                Token::LeftParenthesis,
                n(7),
                Token::Plus,
                n(8),
                Token::RightParenthesis,
                Token::Plus,
                n(9),
                Token::Equal,
                n(1000),
                Token::LessThan,
                n(10),
                Token::NotEqual,
                n(1),
            ],
            vec![
                vn(1),
                vn(2),
                vn(3),
                vn(4),
                vn(5),
                Value::Plus,
                Value::Asterisk,
                vn(6),
                Value::Plus,
                Value::Asterisk,
                vn(7),
                vn(8),
                Value::Plus,
                Value::Asterisk,
                Value::Plus,
                vn(9),
                Value::Plus,
                vn(1000),
                Value::Equal,
                vn(10),
                Value::LessThan,
                vn(1),
                Value::NotEqual,
            ],
        ),
        (
            // (hoge - (2 * 3)) + (4 / 5)
            vec![
                Token::LeftParenthesis,
                Token::Property("hoge".to_string()),
                Token::Minus,
                Token::LeftParenthesis,
                n(2),
                Token::Asterisk,
                n(3),
                Token::RightParenthesis,
                Token::RightParenthesis,
                Token::Plus,
                Token::LeftParenthesis,
                n(4),
                Token::Slash,
                n(5),
                Token::RightParenthesis,
            ],
            vec![
                Value::Variable("hoge".to_string()),
                vn(2),
                vn(3),
                Value::Asterisk,
                Value::Minus,
                vn(4),
                vn(5),
                Value::Slash,
                Value::Plus,
            ],
        ),
    ];

    for (input, expected) in success_data {
        let mut p = Parser::new(input);
        assert_eq!(p.parse(), Ok(expected));
    }

    let failure_data = [
        // 1+2*(3*(4+5)+6)*(7+8+9
        vec![
            n(1),
            Token::Plus,
            n(2),
            Token::Asterisk,
            Token::LeftParenthesis,
            n(3),
            Token::Asterisk,
            Token::LeftParenthesis,
            n(4),
            Token::Plus,
            n(5),
            Token::RightParenthesis,
            Token::Plus,
            n(6),
            Token::RightParenthesis,
            Token::Asterisk,
            Token::LeftParenthesis,
            n(7),
            Token::Plus,
            n(8),
            Token::Plus,
            n(9),
        ],
    ];

    for input in failure_data {
        let mut p = Parser::new(input);
        assert_eq!(p.parse().is_err(), true);
    }
}

#[test]
fn parse_rejects_empty() {
    let mut p = Parser::new(vec![]);
    assert!(p.parse().is_err());
}

#[test]
fn parse_rejects_misplaced_comma() {
    let mut p = Parser::new(vec![n(1), Token::Comma, n(2)]);
    assert!(p.parse().is_err());
}

#[test]
fn parse_unclosed_call_fails() {
    // the lexer accepts an unclosed call at the end of input; the
    // parser rejects the unbalanced parenthesis it leaves behind
    let mut lx = Lexer::new("Add(1");
    let toks = lx.tokenize().unwrap();
    let mut p = Parser::new(toks);
    assert!(p.parse().is_err());
}

#[test]
fn parse_same_tier_pops_left_to_right() {
    // + and == share one tier, left-associative
    let mut lx = Lexer::new("1 == 2 + 3");
    let toks = lx.tokenize().unwrap();
    let mut p = Parser::new(toks);
    assert_eq!(
        p.parse(),
        Ok(vec![vn(1), vn(2), Value::Equal, vn(3), Value::Plus])
    );
}
