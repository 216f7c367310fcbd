use formula::lexer::{Lexer, Token};
use formula::num::Num;

fn n(i: i64) -> Token {
    Token::Number(Num::from_int(i))
}

fn prop(s: &str) -> Token {
    Token::Property(s.to_string())
}

#[test]
fn test_read_whitespace_tokens() {
    let mut lx = Lexer::new("  +30");
    assert_eq!(
        lx.read_whitespace_tokens(),
        vec![Token::WhiteSpace, Token::WhiteSpace]
    );
}

#[test]
fn test_number() {
    let mut lx = Lexer::new("30");
    assert_eq!(lx.number(), Ok(vec![n(30)]));
    let mut lx = Lexer::new("-30");
    assert_eq!(lx.number(), Ok(vec![n(-30)]));
    let mut lx = Lexer::new(" -30 ");
    assert_eq!(lx.number(), Ok(vec![Token::WhiteSpace, n(-30)]));
    let mut lx = Lexer::new("30 - 20");
    assert_eq!(lx.number(), Ok(vec![n(30)]));
}

#[test]
fn test_property() {
    let mut lx = Lexer::new("Add(30, 20)");
    assert_eq!(lx.property(), Ok(vec![prop("Add")]));
}

#[test]
fn test_tokenize() {
    let success_data = [
        ("30", vec![n(30)]),
        ("-30", vec![n(-30)]),
        (
            "1+(-1)",
            vec![
                n(1),
                Token::Plus,
                Token::LeftParenthesis,
                n(-1),
                Token::RightParenthesis,
            ],
        ),
        (
            "30/10+(10+20)",
            vec![
                n(30),
                Token::Slash,
                n(10),
                Token::Plus,
                Token::LeftParenthesis,
                n(10),
                Token::Plus,
                n(20),
                Token::RightParenthesis,
            ],
        ),
        ("30 == 2", vec![n(30), Token::Equal, n(2)]),
        (
            "30 > 2 <= -2 >= 2 < 1 != 0",
            vec![
                n(30),
                Token::GreaterThan,
                n(2),
                Token::LessThanOrEqual,
                n(-2),
                Token::GreaterThanOrEqual,
                n(2),
                Token::LessThan,
                n(1),
                Token::NotEqual,
                n(0),
            ],
        ),
        (
            "1+2*(3*(4+5)+6)*(7+8)+9==1000<10!=1",
            vec![
                n(1),
                Token::Plus,
                n(2),
                Token::Asterisk,
                Token::LeftParenthesis,
                n(3),
                Token::Asterisk,
                Token::LeftParenthesis,
                n(4),
                Token::Plus,
                n(5),
                Token::RightParenthesis,
                Token::Plus,
                n(6),
                Token::RightParenthesis,
                Token::Asterisk,
                Token::LeftParenthesis,
                n(7),
                Token::Plus,
                n(8),
                Token::RightParenthesis,
                Token::Plus,
                n(9),
                Token::Equal,
                n(1000),
                Token::LessThan,
                n(10),
                Token::NotEqual,
                n(1),
            ],
        ),
        (
            "Add((1 + 1), 2 * 3)",
            vec![
                prop("Add"),
                Token::LeftParenthesis,
                Token::LeftParenthesis,
                n(1),
                Token::Plus,
                n(1),
                Token::RightParenthesis,
                Token::Comma,
                n(2),
                Token::Asterisk,
                n(3),
                Token::RightParenthesis,
            ],
        ),
        (
            "(hoge - (2 * 3)) / (4 + 5)",
            vec![
                Token::LeftParenthesis,
                prop("hoge"),
                Token::Minus,
                Token::LeftParenthesis,
                n(2),
                Token::Asterisk,
                n(3),
                Token::RightParenthesis,
                Token::RightParenthesis,
                Token::Slash,
                Token::LeftParenthesis,
                n(4),
                Token::Plus,
                n(5),
                Token::RightParenthesis,
            ],
        ),
    ];

    for (input, expected) in success_data {
        let mut lx = Lexer::new(input);
        assert_eq!(lx.tokenize(), Ok(expected));
    }

    let failure_data = ["2(3 + 2)", "Add()", "add(3)"];
    for input in failure_data {
        let mut lx = Lexer::new(input);
        assert_eq!((lx.tokenize().is_err(), input), (true, input));
    }
}

#[test]
fn tokenize_fractions() {
    let mut lx = Lexer::new("0.5");
    let toks = lx.tokenize().unwrap();
    assert_eq!(toks.len(), 1);
    match &toks[0] {
        Token::Number(v) => {
            assert_eq!(v.num(), 5);
            assert_eq!(v.den(), 10);
        }
        _ => panic!("expected a number"),
    }
}

#[test]
fn tokenize_rejects_leading_zero() {
    let mut lx = Lexer::new("012");
    assert!(lx.tokenize().is_err());
    let mut lx = Lexer::new("0.5 + 1");
    assert!(lx.tokenize().is_ok());
}

#[test]
fn tokenize_rejects_uppercase_without_call() {
    // an uppercase property must be followed directly by `(`
    let mut lx = Lexer::new("Add (3)");
    assert!(lx.tokenize().is_err());
    let mut lx = Lexer::new("Add");
    assert!(lx.tokenize().is_err());
}

#[test]
fn tokenize_rejects_huge_literal() {
    // the exact value of the literal must fit the machine range
    let mut lx = Lexer::new("99999999999999999999999999");
    assert!(lx.tokenize().is_err());
}

#[test]
fn tokenize_comparison_needs_second_char() {
    let mut lx = Lexer::new("1 =");
    assert!(lx.tokenize().is_err());
    let mut lx = Lexer::new("1 ! 3");
    assert!(lx.tokenize().is_err());
    let mut lx = Lexer::new("1 >");
    assert!(lx.tokenize().is_err());
}
