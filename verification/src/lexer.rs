//! Tokenizer for the formula grammar.
//!
//! The lexer walks the input text with a one-character lookahead
//! cursor and produces the token sequence of the grammar
//!
//! ```text
//! expr     ::= term ( ('+'|'-'|'%'|'=='|'!='|'<'|'>'|'<='|'>=') term )*
//! term     ::= factor ( ('*'|'/') factor )*
//! factor   ::= number | '(' expr ')' | function | variable
//! function ::= property '(' expr (',' expr)* ')'   -- property starts uppercase
//! variable ::= property                            -- property starts lowercase
//! property ::= one or more ASCII letters
//! number   ::= optional '+' or '-', digits and at most one '.'
//! ```
//!
//! Whitespace tokens are produced while walking and stripped from the
//! returned list; they only serve to separate grammar terms.

use vstd::prelude::*;

use crate::num::Num;
use crate::num::Rat;

verus! {

/// The eleven binary operators of the language.
#[derive(Clone, Copy, Debug, PartialEq, Eq, Structural)]
pub enum BinOp {
    Plus,
    Minus,
    Asterisk,
    Slash,
    Percent,
    Equal,
    NotEqual,
    LessThan,
    GreaterThan,
    LessThanOrEqual,
    GreaterThanOrEqual,
}

/// A lexical token.
#[derive(Clone, Debug, PartialEq)]
pub enum Token {
    WhiteSpace,
    Number(Num),
    Property(String),

    // Operators
    Plus,               // +
    Minus,              // -
    Asterisk,           // *
    Slash,              // /
    Percent,            // %
    Equal,              // ==
    NotEqual,           // !=
    LessThan,           // <
    GreaterThan,        // >
    LessThanOrEqual,    // <=
    GreaterThanOrEqual, // >=

    // Other symbols
    LeftParenthesis,  // (
    RightParenthesis, // )
    Comma,            // ,
}

/// Mathematical model of a token.
pub ghost enum TokM {
    Ws,
    Num(Rat),
    Prop(Seq<char>),
    Op(BinOp),
    LParen,
    RParen,
    Comma,
}

impl View for Token {
    type V = TokM;

    open spec fn view(&self) -> TokM {
        match self {
            Token::WhiteSpace => TokM::Ws,
            Token::Number(n) => TokM::Num(n@),
            Token::Property(s) => TokM::Prop(s@),
            Token::Plus => TokM::Op(BinOp::Plus),
            Token::Minus => TokM::Op(BinOp::Minus),
            Token::Asterisk => TokM::Op(BinOp::Asterisk),
            Token::Slash => TokM::Op(BinOp::Slash),
            Token::Percent => TokM::Op(BinOp::Percent),
            Token::Equal => TokM::Op(BinOp::Equal),
            Token::NotEqual => TokM::Op(BinOp::NotEqual),
            Token::LessThan => TokM::Op(BinOp::LessThan),
            Token::GreaterThan => TokM::Op(BinOp::GreaterThan),
            Token::LessThanOrEqual => TokM::Op(BinOp::LessThanOrEqual),
            Token::GreaterThanOrEqual => TokM::Op(BinOp::GreaterThanOrEqual),
            Token::LeftParenthesis => TokM::LParen,
            Token::RightParenthesis => TokM::RParen,
            Token::Comma => TokM::Comma,
        }
    }
}

/// View of a token list.
pub open spec fn toks_view(s: Seq<Token>) -> Seq<TokM> {
    s.map_values(|t: Token| t@)
}

/// Error reported by the tokenizer, with a descriptive message.
#[derive(Debug, PartialEq)]
pub struct LexerError {
    pub msg: String,
}

impl LexerError {
    /// Wraps a message into a lexer error.
    pub fn new(msg: &str) -> (r: LexerError)
        ensures
            r.msg@ == msg@,
    {
        LexerError { msg: msg.to_owned() }
    }
}

/// ASCII whitespace.
pub open spec fn is_ws_char(c: char) -> bool {
    c == ' ' || c == '\t' || c == '\n' || c == '\r'
}

/// ASCII decimal digit.
pub open spec fn is_digit_char(c: char) -> bool {
    48 <= c as u32 <= 57
}

/// ASCII uppercase letter.
pub open spec fn is_upper_char(c: char) -> bool {
    65 <= c as u32 <= 90
}

/// ASCII lowercase letter.
pub open spec fn is_lower_char(c: char) -> bool {
    97 <= c as u32 <= 122
}

/// ASCII letter.
pub open spec fn is_alpha_char(c: char) -> bool {
    is_upper_char(c) || is_lower_char(c)
}

/// A character that may continue a numeric literal.
pub open spec fn is_num_cont_char(c: char) -> bool {
    is_digit_char(c) || c == '.'
}

/// A character that may open a numeric literal.
pub open spec fn is_num_first_char(c: char) -> bool {
    is_num_cont_char(c) || c == '+' || c == '-'
}

/// End of the whitespace run starting at `i`.
pub open spec fn ws_end(s: Seq<char>, i: nat) -> nat
    decreases s.len() - i,
{
    if i < s.len() && is_ws_char(s[i as int]) {
        ws_end(s, i + 1)
    } else {
        i
    }
}

/// End of the letter run starting at `i`.
pub open spec fn alpha_end(s: Seq<char>, i: nat) -> nat
    decreases s.len() - i,
{
    if i < s.len() && is_alpha_char(s[i as int]) {
        alpha_end(s, i + 1)
    } else {
        i
    }
}

/// End of the run of digits and dots starting at `i`.
pub open spec fn num_cont_end(s: Seq<char>, i: nat) -> nat
    decreases s.len() - i,
{
    if i < s.len() && is_num_cont_char(s[i as int]) {
        num_cont_end(s, i + 1)
    } else {
        i
    }
}

/// A run of whitespace markers.
pub open spec fn ws_seq(n: nat) -> Seq<TokM> {
    Seq::new(n, |q: int| TokM::Ws)
}

/// Numeric value of a digit character.
pub open spec fn dval(c: char) -> int {
    c as u32 - 48
}

/// Value of a digit string, most significant digit first.
pub open spec fn digits_val(s: Seq<char>) -> int
    decreases s.len(),
{
    if s.len() == 0 {
        0
    } else {
        digits_val(s.drop_last()) * 10 + dval(s.last())
    }
}

/// Ten to the `k`.
pub open spec fn pow10(k: nat) -> int
    decreases k,
{
    if k == 0 {
        1
    } else {
        10 * pow10((k - 1) as nat)
    }
}

/// Index of the first dot at or after `i`, or the length.
pub open spec fn first_dot_from(s: Seq<char>, i: nat) -> nat
    decreases s.len() - i,
{
    if i >= s.len() {
        i
    } else if s[i as int] == '.' {
        i
    } else {
        first_dot_from(s, i + 1)
    }
}

/// How many dots stand at or after `i`.
pub open spec fn count_dots_from(s: Seq<char>, i: nat) -> nat
    decreases s.len() - i,
{
    if i >= s.len() {
        0
    } else if s[i as int] == '.' {
        1 + count_dots_from(s, i + 1)
    } else {
        count_dots_from(s, i + 1)
    }
}

/// Whether every character of `s` is a digit or a dot.
pub open spec fn all_num_chars(s: Seq<char>) -> bool {
    forall|t: int| 0 <= t < s.len() ==> is_num_cont_char(#[trigger] s[t])
}

/// Exact value of a scanned numeric literal: an optional sign, then
/// digits with at most one dot and at least one digit; the value is
/// the digit string over ten to the number of fraction digits.
/// Nothing when the text is not such a literal or the exact value
/// leaves the machine range.
pub open spec fn num_value(t: Seq<char>) -> Option<Rat> {
    if t.len() == 0 {
        None
    } else {
        let neg = t[0] == '-';
        let body = if t[0] == '-' || t[0] == '+' {
            t.drop_first()
        } else {
            t
        };
        if body.len() == 0 {
            None
        } else if !all_num_chars(body) {
            None
        } else if count_dots_from(body, 0) > 1 {
            None
        } else {
            let d = first_dot_from(body, 0);
            let ipart = body.subrange(0, d as int);
            let fpart = if d < body.len() {
                body.subrange(d as int + 1, body.len() as int)
            } else {
                Seq::empty()
            };
            if ipart.len() + fpart.len() == 0 {
                None
            } else {
                let mant = digits_val(ipart + fpart);
                let den = pow10(fpart.len());
                if mant <= i64::MAX && den <= u64::MAX {
                    Some(
                        Rat {
                            n: if neg {
                                -mant
                            } else {
                                mant
                            },
                            d: den,
                        },
                    )
                } else {
                    None
                }
            }
        }
    }
}

/// Reading a numeric literal at `i`: leading whitespace, then the
/// longest run of sign, digits and dots; rejects an empty run, a
/// leading zero not followed by a dot, and anything [`num_value`]
/// rejects.
pub open spec fn lex_number(s: Seq<char>, i: nat) -> Option<(Seq<TokM>, nat)> {
    let j = at_least(i, ws_end(s, i));
    let k = if j < s.len() && is_num_first_char(s[j as int]) {
        at_least(j + 1, num_cont_end(s, j + 1))
    } else {
        j
    };
    let t = s.subrange(j as int, k as int);
    if t.len() == 0 {
        None
    } else if t.len() > 1 && t[0] == '0' && t[1] != '.' {
        None
    } else {
        match num_value(t) {
            None => None,
            Some(r) => Some((ws_seq((j - i) as nat).push(TokM::Num(r)), k)),
        }
    }
}

/// Reading a property at `i`: leading whitespace, then one or more
/// letters.
pub open spec fn lex_property(s: Seq<char>, i: nat) -> Option<(Seq<TokM>, nat)> {
    let j = at_least(i, ws_end(s, i));
    let k = at_least(j, alpha_end(s, j));
    if k == j {
        None
    } else {
        Some((ws_seq((j - i) as nat).push(TokM::Prop(s.subrange(j as int, k as int))), k))
    }
}

/// Completing a comparison operator whose first character `c` was
/// consumed; `j` is the next position. `>` and `<` take an optional
/// `=` but need one more character; `=` and `!` demand `=`.
pub open spec fn lex_comparison(s: Seq<char>, j: nat, c: char) -> Option<(BinOp, nat)> {
    if c == '>' {
        if j < s.len() {
            if s[j as int] == '=' {
                Some((BinOp::GreaterThanOrEqual, j + 1))
            } else {
                Some((BinOp::GreaterThan, j))
            }
        } else {
            None
        }
    } else if c == '<' {
        if j < s.len() {
            if s[j as int] == '=' {
                Some((BinOp::LessThanOrEqual, j + 1))
            } else {
                Some((BinOp::LessThan, j))
            }
        } else {
            None
        }
    } else if c == '=' {
        if j < s.len() && s[j as int] == '=' {
            Some((BinOp::Equal, j + 1))
        } else {
            None
        }
    } else if c == '!' {
        if j < s.len() && s[j as int] == '=' {
            Some((BinOp::NotEqual, j + 1))
        } else {
            None
        }
    } else {
        None
    }
}

/// `m`, pulled up to `lo`.
pub open spec fn at_least(lo: nat, m: nat) -> nat {
    if m >= lo {
        m
    } else {
        lo
    }
}

/// `m`, forced into `lo ..= hi`.
pub open spec fn clamp_pos(lo: nat, m: nat, hi: nat) -> nat {
    if m < lo {
        lo
    } else if m > hi {
        hi
    } else {
        m
    }
}

/// Reading an expression at `i`:
/// `expr ::= term ( op1 term )*` where `op1` is `+`, `-` or a
/// comparison. The result pairs the tokens read, whitespace markers
/// included, with the position after them.
pub open spec fn lex_expr(s: Seq<char>, i: nat) -> Option<(Seq<TokM>, nat)>
    decreases s.len() - i, 4int,
{
    if i > s.len() {
        None
    } else {
        match lex_term(s, i) {
        None => None,
            Some((t, m)) => {
                let mm = clamp_pos(i, m, s.len());
                let w = clamp_pos(mm, ws_end(s, mm), s.len());
                lex_expr_rest(s, w, t + ws_seq((w - mm) as nat))
            },
        }
    }
}

/// The operator-and-term tail of an expression, with whitespace
/// before the next operator already consumed.
pub open spec fn lex_expr_rest(s: Seq<char>, j: nat, acc: Seq<TokM>) -> Option<(Seq<TokM>, nat)>
    decreases s.len() - j, 3int,
{
    if j >= s.len() {
        Some((acc, j))
    } else {
        let c = s[j as int];
        if c == '>' || c == '<' || c == '=' || c == '!' {
            match lex_comparison(s, j + 1, c) {
                None => None,
                Some((op, k)) => match lex_term(s, k) {
                    None => None,
                    Some((t, m)) => {
                        let mm = clamp_pos(k, m, s.len());
                        let w = clamp_pos(mm, ws_end(s, mm), s.len());
                        lex_expr_rest(s, w, acc + seq![TokM::Op(op)] + t + ws_seq((w - mm) as nat))
                    },
                },
            }
        } else if c == '+' || c == '-' {
            let op = if c == '+' {
                BinOp::Plus
            } else {
                BinOp::Minus
            };
            match lex_term(s, j + 1) {
                None => None,
                Some((t, m)) => {
                    let mm = clamp_pos(j + 1, m, s.len());
                    let w = clamp_pos(mm, ws_end(s, mm), s.len());
                    lex_expr_rest(s, w, acc + seq![TokM::Op(op)] + t + ws_seq((w - mm) as nat))
                },
            }
        } else {
            Some((acc, j))
        }
    }
}

/// Reading a term at `i`: `term ::= factor ( ('*'|'/'|'%') factor )*`.
pub open spec fn lex_term(s: Seq<char>, i: nat) -> Option<(Seq<TokM>, nat)>
    decreases s.len() - i, 2int,
{
    if i > s.len() {
        None
    } else {
        match lex_factor(s, i) {
            None => None,
            Some((t, m)) => {
                let mm = clamp_pos(i, m, s.len());
                let w = clamp_pos(mm, ws_end(s, mm), s.len());
                lex_term_rest(s, w, t + ws_seq((w - mm) as nat))
            },
        }
    }
}

/// The operator-and-factor tail of a term, with whitespace before the
/// next operator already consumed.
pub open spec fn lex_term_rest(s: Seq<char>, j: nat, acc: Seq<TokM>) -> Option<(Seq<TokM>, nat)>
    decreases s.len() - j, 1int,
{
    if j < s.len() && (s[j as int] == '*' || s[j as int] == '/' || s[j as int] == '%') {
        let op = if s[j as int] == '*' {
            BinOp::Asterisk
        } else if s[j as int] == '/' {
            BinOp::Slash
        } else {
            BinOp::Percent
        };
        match lex_factor(s, j + 1) {
            None => None,
            Some((t, m)) => {
                let mm = clamp_pos(j + 1, m, s.len());
                let w = clamp_pos(mm, ws_end(s, mm), s.len());
                lex_term_rest(s, w, acc + seq![TokM::Op(op)] + t + ws_seq((w - mm) as nat))
            },
        }
    } else {
        Some((acc, j))
    }
}

/// Reading a factor at `i`: a parenthesized expression, a numeric
/// literal, a function call (uppercase first letter) or a variable
/// (lowercase first letter).
pub open spec fn lex_factor(s: Seq<char>, i: nat) -> Option<(Seq<TokM>, nat)>
    decreases s.len() - i, 1int,
{
    let j = clamp_pos(i, ws_end(s, i), s.len());
    let wsq = ws_seq((j - i) as nat);
    if j >= s.len() {
        None
    } else if s[j as int] == '(' {
        match lex_expr(s, j + 1) {
            None => None,
            Some((t, m)) => {
                let mm = clamp_pos(j + 1, m, s.len());
                let w = clamp_pos(mm, ws_end(s, mm), s.len());
                if w < s.len() && s[w as int] == ')' {
                    Some(
                        (
                            wsq.push(TokM::LParen) + t + ws_seq((w - mm) as nat) + seq![
                                TokM::RParen,
                            ],
                            w + 1,
                        ),
                    )
                } else {
                    None
                }
            },
        }
    } else if is_digit_char(s[j as int]) || s[j as int] == '+' || s[j as int] == '-' {
        match lex_number(s, j) {
            None => None,
            Some((t, k)) => Some((wsq + t, k)),
        }
    } else if is_upper_char(s[j as int]) {
        match lex_function(s, j) {
            None => None,
            Some((t, k)) => Some((wsq + t, k)),
        }
    } else if is_lower_char(s[j as int]) {
        match lex_property(s, j) {
            None => None,
            Some((t, k)) => Some((wsq + t, k)),
        }
    } else {
        None
    }
}

/// Reading a function call at `i`: a property, then `(`, a first
/// argument expression, and [`lex_fargs`] for the rest. A property
/// not directly followed by `(` is an error here.
pub open spec fn lex_function(s: Seq<char>, i: nat) -> Option<(Seq<TokM>, nat)>
    decreases s.len() - i, 0int,
{
    match lex_property(s, i) {
        None => None,
        Some((pt, p)) => {
            let pp = clamp_pos(i, p, s.len());
            if pp >= s.len() {
                None
            } else if s[pp as int] == '(' {
                match lex_expr(s, pp + 1) {
                    None => None,
                    Some((t, m)) => {
                        let mm = clamp_pos(pp + 1, m, s.len());
                        let w = clamp_pos(mm, ws_end(s, mm), s.len());
                        lex_fargs(s, w, pt.push(TokM::LParen) + t + ws_seq((w - mm) as nat))
                    },
                }
            } else {
                None
            }
        },
    }
}

/// Reading the remaining arguments of a function call, standing after
/// whitespace: a `,` brings one more expression, `)` closes the call,
/// and the end of the input leaves the call unclosed without error
/// (the parser rejects the unbalanced result).
pub open spec fn lex_fargs(s: Seq<char>, j: nat, acc: Seq<TokM>) -> Option<(Seq<TokM>, nat)>
    decreases s.len() - j, 0int,
{
    if j >= s.len() {
        Some((acc, j))
    } else if s[j as int] == ',' {
        match lex_expr(s, j + 1) {
            None => None,
            Some((t, m)) => {
                let mm = clamp_pos(j + 1, m, s.len());
                let w = clamp_pos(mm, ws_end(s, mm), s.len());
                lex_fargs(s, w, acc.push(TokM::Comma) + t + ws_seq((w - mm) as nat))
            },
        }
    } else if s[j as int] == ')' {
        Some((acc.push(TokM::RParen), j + 1))
    } else {
        None
    }
}

/// Tokens of a whole formula read from position `i`: the expression's
/// tokens with the whitespace markers stripped; nothing on a
/// malformed formula or unconsumed trailing input.
pub open spec fn spec_tokenize(s: Seq<char>, i: nat) -> Option<Seq<TokM>> {
    match lex_expr(s, i) {
        None => None,
        Some((t, m)) => if m < s.len() {
            None
        } else {
            Some(strip_ws(t))
        },
    }
}

/// The token list without its whitespace markers.
pub open spec fn strip_ws(t: Seq<TokM>) -> Seq<TokM> {
    t.filter(|x: TokM| !(x is Ws))
}

/// Whether a literal or a variable reference stands at `j`: a number,
/// or a property not directly followed by an opening parenthesis.
pub open spec fn leaf_at(toks: Seq<TokM>, j: int) -> bool {
    &&& 0 <= j < toks.len()
    &&& (toks[j] is Num || (toks[j] is Prop && (j + 1 >= toks.len() || !(toks[j + 1] is LParen))))
}

/// Whether the list holds a literal or a variable reference.
pub open spec fn has_leaf(f: Seq<TokM>) -> bool {
    exists|j: int| #[trigger] leaf_at(f, j)
}

/// Whether `c` is ASCII whitespace.
fn ch_is_ws(c: char) -> (r: bool)
    ensures
        r == is_ws_char(c),
{
    c == ' ' || c == '\t' || c == '\n' || c == '\r'
}

/// Whether `c` is an ASCII digit.
fn ch_is_digit(c: char) -> (r: bool)
    ensures
        r == is_digit_char(c),
{
    let u = c as u32;
    48 <= u && u <= 57
}

/// Whether `c` is an ASCII uppercase letter.
fn ch_is_upper(c: char) -> (r: bool)
    ensures
        r == is_upper_char(c),
{
    let u = c as u32;
    65 <= u && u <= 90
}

/// Whether `c` is an ASCII lowercase letter.
fn ch_is_lower(c: char) -> (r: bool)
    ensures
        r == is_lower_char(c),
{
    let u = c as u32;
    97 <= u && u <= 122
}

/// Whether `c` is an ASCII letter.
fn ch_is_alpha(c: char) -> (r: bool)
    ensures
        r == is_alpha_char(c),
{
    ch_is_upper(c) || ch_is_lower(c)
}

/// Whether `c` may continue a numeric literal.
fn ch_is_num_cont(c: char) -> (r: bool)
    ensures
        r == is_num_cont_char(c),
{
    ch_is_digit(c) || c == '.'
}

/// Whether `c` may open a numeric literal.
fn ch_is_num_first(c: char) -> (r: bool)
    ensures
        r == is_num_first_char(c),
{
    ch_is_num_cont(c) || c == '+' || c == '-'
}

/// Appends the second token list to the first.
fn add_tokens(tokens: Vec<Token>, added_tokens: Vec<Token>) -> (r: Vec<Token>)
    ensures
        r@ == tokens@ + added_tokens@,
{
    let mut tokens = tokens;
    let mut added_tokens = added_tokens;
    tokens.append(&mut added_tokens);
    tokens
}

/// Lexer state: the input text and a character cursor over it.
pub struct Lexer<'a> {
    input: &'a str,
    pos: usize,
}

/// Mathematical model of a lexer: the input characters and the cursor.
pub ghost struct LexM {
    pub input: Seq<char>,
    pub pos: nat,
}

impl<'a> View for Lexer<'a> {
    type V = LexM;

    closed spec fn view(&self) -> LexM {
        LexM { input: self.input@, pos: self.pos as nat }
    }
}

/// The cursor sits inside the input.
pub open spec fn lexer_wf(l: LexM) -> bool {
    l.pos <= l.input.len()
}

impl<'a> Lexer<'a> {
    /// A lexer over the given text, with the cursor at the start.
    pub fn new(input: &str) -> (r: Lexer)
        ensures
            r@.input == input@,
            r@.pos == 0,
            lexer_wf(r@),
    {
        Lexer { input, pos: 0 }
    }

    /// Consumes the whitespace run at the cursor and returns one
    /// marker token per character consumed.
    #[verifier::loop_isolation(false)]
    pub fn read_whitespace_tokens(&mut self) -> (r: Vec<Token>)
        requires
            lexer_wf(old(self)@),
        ensures
            final(self)@.input == old(self)@.input,
            old(self)@.pos <= final(self)@.pos <= final(self)@.input.len(),
            final(self)@.pos == ws_end(old(self)@.input, old(self)@.pos),
            toks_view(r@) == ws_seq((final(self)@.pos - old(self)@.pos) as nat),
    {
        let ghost sm = self@.input;
        let ghost i0 = self@.pos;
        let mut tokens: Vec<Token> = Vec::new();
        let len = self.input.unicode_len();
        proof {
            assert(toks_view(tokens@) =~= ws_seq(0));
        }
        while self.pos < len && ch_is_ws(self.input.get_char(self.pos))
            invariant
                self@.input == sm,
                i0 <= self.pos as nat <= sm.len(),
                ws_end(sm, i0) == ws_end(sm, self.pos as nat),
                toks_view(tokens@) == ws_seq((self.pos as nat - i0) as nat),
            decreases sm.len() - self.pos,
        {
            let ghost tprev = tokens@;
            tokens.push(Token::WhiteSpace);
            self.pos += 1;
            proof {
                assert(toks_view(tokens@) =~= toks_view(tprev).push(TokM::Ws));
                assert(toks_view(tprev).push(TokM::Ws) =~= ws_seq((self.pos as nat - i0) as nat));
            }
        }
        tokens
    }

    /// Reads a property: whitespace, then one or more letters; empty
    /// is an error. Exactly [`lex_property`] at the cursor.
    #[verifier::loop_isolation(false)]
    pub fn property(&mut self) -> (r: Result<Vec<Token>, LexerError>)
        requires
            lexer_wf(old(self)@),
        ensures
            final(self)@.input == old(self)@.input,
            old(self)@.pos <= final(self)@.pos <= final(self)@.input.len(),
            (r is Ok <==> lex_property(old(self)@.input, old(self)@.pos) is Some),
            (r matches Ok(t) ==> lex_property(old(self)@.input, old(self)@.pos) == Some(
                (toks_view(t@), final(self)@.pos),
            )),
    {
        let ghost sm = self@.input;
        let ghost i0 = self@.pos;
        let mut tokens = self.read_whitespace_tokens();
        let len = self.input.unicode_len();
        let start = self.pos;
        while self.pos < len && ch_is_alpha(self.input.get_char(self.pos))
            invariant
                self@.input == sm,
                start as nat <= self.pos as nat <= sm.len(),
                alpha_end(sm, start as nat) == alpha_end(sm, self.pos as nat),
            decreases sm.len() - self.pos,
        {
            self.pos += 1;
        }
        if self.pos == start {
            return Err(LexerError::new("error: property is empty"));
        }
        let name = self.input.substring_char(start, self.pos);
        tokens.push(Token::Property(name.to_owned()));
        proof {
            assert(toks_view(tokens@) =~= ws_seq((start as nat - i0) as nat).push(
                TokM::Prop(sm.subrange(start as int, self.pos as int)),
            ));
        }
        Ok(tokens)
    }

    /// Reads a numeric literal: whitespace, then the longest run of
    /// sign, digits and dots, converted to its exact value. Exactly
    /// [`lex_number`] at the cursor.
    #[verifier::loop_isolation(false)]
    #[verifier::rlimit(100)]
    pub fn number(&mut self) -> (r: Result<Vec<Token>, LexerError>)
        requires
            lexer_wf(old(self)@),
        ensures
            final(self)@.input == old(self)@.input,
            old(self)@.pos <= final(self)@.pos <= final(self)@.input.len(),
            (r is Ok <==> lex_number(old(self)@.input, old(self)@.pos) is Some),
            (r matches Ok(t) ==> lex_number(old(self)@.input, old(self)@.pos) == Some(
                (toks_view(t@), final(self)@.pos),
            )),
    {
        let ghost sm = self@.input;
        let ghost i0 = self@.pos;
        let mut tokens = self.read_whitespace_tokens();
        let len = self.input.unicode_len();
        let start = self.pos;
        let ghost jj = start as nat;
        proof {
            assert(len as nat == sm.len());
        }
        if self.pos < len && ch_is_num_first(self.input.get_char(self.pos)) {
            self.pos += 1;
            while self.pos < len && ch_is_num_cont(self.input.get_char(self.pos))
                invariant
                    self@.input == sm,
                    start + 1 <= self.pos <= len,
                    num_cont_end(sm, (start + 1) as nat) == num_cont_end(sm, self.pos as nat),
                    forall|t: int| start + 1 <= t < self.pos ==> is_num_cont_char(#[trigger] sm[t]),
                decreases sm.len() - self.pos,
            {
                self.pos += 1;
            }
        }
        let k = self.pos;
        let ghost kk = k as nat;
        proof {
            assert(kk == ({
                let j2 = if jj < sm.len() && is_num_first_char(sm[jj as int]) {
                    at_least(jj + 1, num_cont_end(sm, jj + 1))
                } else {
                    jj
                };
                j2
            }));
        }
        let ghost tseq = sm.subrange(jj as int, kk as int);
        if k == start {
            return Err(LexerError::new("error: cannot parse an empty number"));
        }
        if k - start > 1 && self.input.get_char(start) == '0' && self.input.get_char(start + 1)
            != '.' {
            proof {
                assert(tseq[0] == sm[jj as int]);
                assert(tseq[1] == sm[jj as int + 1]);
            }
            return Err(LexerError::new("error: invalid numeric string"));
        }
        let n = match self.convert_run(start, k) {
            Some(n) => n,
            None => {
                return Err(LexerError::new("error: invalid numeric string"));
            },
        };
        tokens.push(Token::Number(n));
        proof {
            assert(toks_view(tokens@) =~= ws_seq((jj - i0) as nat).push(TokM::Num(n@)));
        }
        Ok(tokens)
    }

    /// Converts the scanned run `start .. k` into its exact value:
    /// exactly [`num_value`] of those characters.
    #[verifier::loop_isolation(false)]
    #[verifier::rlimit(100)]
    fn convert_run(&self, start: usize, k: usize) -> (r: Option<Num>)
        requires
            start < k <= self@.input.len(),
            is_num_first_char(self@.input[start as int]),
            forall|t: int| start + 1 <= t < k ==> is_num_cont_char(#[trigger] self@.input[t]),
        ensures
            (r is Some <==> num_value(self@.input.subrange(start as int, k as int)) is Some),
            (r matches Some(n) ==> Some(n@) == num_value(
                self@.input.subrange(start as int, k as int),
            )),
    {
        let ghost sm = self@.input;
        let ghost tseq = sm.subrange(start as int, k as int);
        let first = self.input.get_char(start);
        let neg = first == '-';
        let bs = if first == '-' || first == '+' {
            start + 1
        } else {
            start
        };
        let ghost body = if tseq[0] == '-' || tseq[0] == '+' {
            tseq.drop_first()
        } else {
            tseq
        };
        proof {
            assert(tseq[0] == sm[start as int]);
            assert(body =~= sm.subrange(bs as int, k as int));
        }
        if bs == k {
            proof {
                assert(body.len() == 0);
            }
            return None;
        }
        proof {
            if bs == start {
                assert(is_num_cont_char(sm[bs as int]));
            }
            assert forall|t: int| 0 <= t < body.len() implies is_num_cont_char(
                #[trigger] body[t],
            ) by {
                assert(body[t] == sm[bs + t]);
            }
            assert(all_num_chars(body));
        }
        // locate and count the dots
        let mut dots: usize = 0;
        let mut dd: usize = k;
        let mut q = bs;
        while q < k
            invariant
                bs <= q <= k,
                dots <= q - bs,
                dots as nat == count_dots_from(body, 0) - count_dots_from(body, (q - bs) as nat),
                count_dots_from(body, (q - bs) as nat) <= count_dots_from(body, 0),
                dots == 0 ==> dd == k && first_dot_from(body, 0) == first_dot_from(
                    body,
                    (q - bs) as nat,
                ),
                dots > 0 ==> bs <= dd < q && dd - bs == first_dot_from(body, 0),
            decreases k - q,
        {
            proof {
                assert(body[q - bs] == sm[q as int]);
            }
            if self.input.get_char(q) == '.' {
                if dots == 0 {
                    dd = q;
                }
                dots += 1;
            }
            q += 1;
        }
        if dots > 1 {
            return None;
        }
        let ghost fd = first_dot_from(body, 0);
        proof {
            lemma_count_at_first(body, 0);
        }
        let ghost ipart = body.subrange(0, fd as int);
        let ghost fpart = if fd < body.len() {
            body.subrange(fd as int + 1, body.len() as int)
        } else {
            Seq::<char>::empty()
        };
        let ghost digs = ipart + fpart;
        proof {
            if dots == 1 {
                assert(fd < body.len());
                lemma_first_dot_hits(body, 0);
                assert(count_dots_from(body, (fd + 1) as nat) == 0);
                assert forall|t: int| 0 <= t < digs.len() implies is_digit_char(
                    #[trigger] digs[t],
                ) by {
                    if t < fd {
                        lemma_no_dot_before_first(body, 0, t);
                        assert(digs[t] == body[t]);
                    } else {
                        lemma_no_dot_when_zero(body, (fd + 1) as nat, t + 1);
                        assert(digs[t] == body[t + 1]);
                    }
                }
            } else {
                assert(fd == body.len());
                assert(digs =~= body);
                assert forall|t: int| 0 <= t < digs.len() implies is_digit_char(
                    #[trigger] digs[t],
                ) by {
                    lemma_no_dot_when_zero(body, 0, t);
                }
            }
        }
        if k - bs == dots {
            proof {
                assert(digs.len() == 0);
            }
            return None;
        }
        proof {
            assert(digs.len() > 0);
        }
        let r = self.accumulate_value(bs, k, dd, neg, Ghost(digs));
        proof {
            if dots == 1 {
                assert(fpart.len() == (k - dd - 1) as nat);
            } else {
                assert(fpart.len() == 0);
            }
            assert(num_value(tseq) == (if digits_val(digs) <= i64::MAX && pow10(fpart.len())
                <= u64::MAX {
                Some(
                    Rat {
                        n: if neg {
                            -digits_val(digs)
                        } else {
                            digits_val(digs)
                        },
                        d: pow10(fpart.len()),
                    },
                )
            } else {
                None
            }));
        }
        r
    }

    /// Accumulates the digit characters around the dot at `dd` (or
    /// `dd == k` for none) into an exact fraction: the digit string
    /// over ten to the number of digits after the dot, signed by
    /// `neg`; nothing when either part leaves the machine range.
    #[verifier::loop_isolation(false)]
    #[verifier::rlimit(100)]
    fn accumulate_value(
        &self,
        bs: usize,
        k: usize,
        dd: usize,
        neg: bool,
        Ghost(digs): Ghost<Seq<char>>,
    ) -> (r: Option<Num>)
        requires
            bs < k <= self@.input.len(),
            bs <= dd <= k,
            dd < k ==> dd >= bs,
            digs.len() == k - bs - (if dd < k {
                1int
            } else {
                0int
            }),
            forall|t: int| 0 <= t < digs.len() ==> is_digit_char(#[trigger] digs[t]),
            forall|t: int|
                0 <= t < digs.len() ==> #[trigger] digs[t] == self@.input[if dd < k && t >= dd
                    - bs {
                    bs + t + 1
                } else {
                    bs + t
                }],
        ensures
            ({
                let fl = (if dd < k {
                    k - dd - 1
                } else {
                    0
                }) as nat;
                &&& (r is Some <==> digits_val(digs) <= i64::MAX && pow10(fl) <= u64::MAX)
                &&& (r matches Some(n) ==> n@ == Rat {
                    n: if neg {
                        -digits_val(digs)
                    } else {
                        digits_val(digs)
                    },
                    d: pow10(fl),
                })
            }),
    {
        let mut mant: u64 = 0;
        let mut q2 = bs;
        while q2 < k
            invariant
                bs <= q2 <= k,
                mant <= 0x7fff_ffff_ffff_ffff,
                mant as int == digits_val(
                    digs.subrange(
                        0,
                        if dd < q2 {
                            q2 - bs - 1
                        } else {
                            q2 - bs
                        },
                    ),
                ),
            decreases k - q2,
        {
            let ghost dc: int = if dd < q2 {
                q2 - bs - 1
            } else {
                q2 - bs
            };
            if q2 != dd {
                proof {
                    assert(0 <= dc < digs.len());
                    assert(is_digit_char(digs[dc]));
                    assert(digs.subrange(0, dc + 1).drop_last() =~= digs.subrange(0, dc));
                }
                let c = self.input.get_char(q2);
                proof {
                    assert(digs[dc] == c);
                }
                let d = ((c as u32) - 48) as u64;
                let m10 = match mant.checked_mul(10) {
                    Some(m) => m,
                    None => {
                        proof {
                            lemma_digits_prefix_le(digs, dc + 1);
                        }
                        return None;
                    },
                };
                let m = match m10.checked_add(d) {
                    Some(m) => m,
                    None => {
                        proof {
                            lemma_digits_prefix_le(digs, dc + 1);
                        }
                        return None;
                    },
                };
                if m > 0x7fff_ffff_ffff_ffff {
                    proof {
                        lemma_digits_prefix_le(digs, dc + 1);
                    }
                    return None;
                }
                mant = m;
            }
            q2 += 1;
        }
        proof {
            assert(digs.subrange(
                0,
                if dd < k {
                    k - bs - 1
                } else {
                    k - bs
                },
            ) =~= digs);
        }
        // build the denominator
        let fracs = if dd < k {
            k - dd - 1
        } else {
            0
        };
        let mut den: u64 = 1;
        let mut t2: usize = 0;
        while t2 < fracs
            invariant
                t2 <= fracs,
                den as int == pow10(t2 as nat),
                den >= 1,
            decreases fracs - t2,
        {
            den = match den.checked_mul(10) {
                Some(dn) => dn,
                None => {
                    proof {
                        lemma_pow10_le((t2 + 1) as nat, fracs as nat);
                    }
                    return None;
                },
            };
            t2 += 1;
        }
        let num_i: i64 = if neg {
            -(mant as i64)
        } else {
            mant as i64
        };
        match Num::new(num_i, den) {
            Some(n) => Some(n),
            None => {
                proof {
                    assert(false);
                }
                None
            },
        }
    }

    /// Reads a variable reference: a property in a trailing context.
    fn variable(&mut self) -> (r: Result<Vec<Token>, LexerError>)
        requires
            lexer_wf(old(self)@),
        ensures
            final(self)@.input == old(self)@.input,
            old(self)@.pos <= final(self)@.pos <= final(self)@.input.len(),
            (r is Ok <==> lex_property(old(self)@.input, old(self)@.pos) is Some),
            (r matches Ok(t) ==> lex_property(old(self)@.input, old(self)@.pos) == Some(
                (toks_view(t@), final(self)@.pos),
            )),
    {
        self.property()
    }

    /// Reads a whole formula: the expression's tokens with the
    /// whitespace markers stripped; trailing unconsumed input is an
    /// error. Exactly [`spec_tokenize`] at the cursor.
    #[verifier::loop_isolation(false)]
    pub fn tokenize(&mut self) -> (r: Result<Vec<Token>, LexerError>)
        requires
            lexer_wf(old(self)@),
        ensures
            final(self)@.input == old(self)@.input,
            old(self)@.pos <= final(self)@.pos <= final(self)@.input.len(),
            (r is Ok <==> spec_tokenize(old(self)@.input, old(self)@.pos) is Some),
            (r matches Ok(t) ==> Some(toks_view(t@)) == spec_tokenize(
                old(self)@.input,
                old(self)@.pos,
            )),
    {
        let ghost sm = self@.input;
        let all = match self.expr() {
            Ok(t) => t,
            Err(e) => {
                return Err(e);
            },
        };
        let mut tokens: Vec<Token> = Vec::new();
        let mut i: usize = 0;
        proof {
            assert(toks_view(all@).subrange(0, 0) =~= Seq::<TokM>::empty());
            assert(toks_view(tokens@) =~= strip_ws(Seq::<TokM>::empty()));
        }
        while i < all.len()
            invariant
                i <= all.len(),
                toks_view(tokens@) == strip_ws(toks_view(all@).subrange(0, i as int)),
            decreases all.len() - i,
        {
            let ghost pre = toks_view(all@).subrange(0, i as int);
            let ghost cur = toks_view(all@).subrange(0, i as int + 1);
            proof {
                assert(cur.drop_last() =~= pre);
                assert(cur.last() == all@[i as int]@);
                reveal_with_fuel(Seq::filter, 2);
            }
            let keep = match &all[i] {
                Token::WhiteSpace => false,
                _ => true,
            };
            if keep {
                let ghost tprev = tokens@;
                let t = duplicate_token(&all[i]);
                tokens.push(t);
                proof {
                    assert(toks_view(tokens@) =~= toks_view(tprev).push(all@[i as int]@));
                }
            }
            i += 1;
        }
        proof {
            assert(toks_view(all@).subrange(0, all@.len() as int) =~= toks_view(all@));
        }
        let len = self.input.unicode_len();
        if self.pos < len {
            Err(LexerError::new("error: syntax error"))
        } else {
            Ok(tokens)
        }
    }

    /// Reads an expression: a term, then any number of low-tier
    /// operators each followed by a term. Exactly [`lex_expr`] at the
    /// cursor.
    #[verifier::loop_isolation(false)]
    fn expr(&mut self) -> (r: Result<Vec<Token>, LexerError>)
        requires
            lexer_wf(old(self)@),
        ensures
            final(self)@.input == old(self)@.input,
            old(self)@.pos <= final(self)@.pos <= final(self)@.input.len(),
            (r is Ok <==> lex_expr(old(self)@.input, old(self)@.pos) is Some),
            (r matches Ok(t) ==> lex_expr(old(self)@.input, old(self)@.pos) == Some(
                (toks_view(t@), final(self)@.pos),
            )),
        decreases old(self)@.input.len() - old(self)@.pos, 4int,
    {
        let ghost sm = self@.input;
        let ghost i0 = self@.pos;
        let ghost target = lex_expr(sm, i0);
        let t0 = match self.term() {
            Ok(t) => t,
            Err(e) => {
                return Err(e);
            },
        };
        let ghost tm0 = toks_view(t0@);
        let w = self.read_whitespace_tokens();
        let ghost wm0 = toks_view(w@);
        let mut tokens = add_tokens(t0, w);
        proof {
            assert(toks_view(tokens@) =~= tm0 + wm0);
            assert(target == lex_expr_rest(sm, self@.pos, toks_view(tokens@)));
        }
        let len = self.input.unicode_len();
        while self.pos < len && is_expr_op_start(self.input.get_char(self.pos))
            invariant
                self@.input == sm,
                i0 <= self.pos as nat <= sm.len(),
                target == lex_expr_rest(sm, self@.pos, toks_view(tokens@)),
            decreases sm.len() - self.pos,
        {
            let ghost accp = toks_view(tokens@);
            let c = self.input.get_char(self.pos);
            if c == '>' || c == '<' || c == '=' || c == '!' {
                self.pos += 1;
                let tok = match self.read_comparison_operator(c) {
                    Ok(t) => t,
                    Err(e) => {
                        return Err(e);
                    },
                };
                let ghost op = tok@->Op_0;
                tokens.push(tok);
                let t = match self.term() {
                    Ok(t) => t,
                    Err(e) => {
                        return Err(e);
                    },
                };
                let ghost tm = toks_view(t@);
                tokens = add_tokens(tokens, t);
                let w = self.read_whitespace_tokens();
                let ghost wm = toks_view(w@);
                tokens = add_tokens(tokens, w);
                proof {
                    assert(toks_view(tokens@) =~= accp + seq![TokM::Op(op)] + tm + wm);
                }
            } else {
                let op_tok = if c == '+' {
                    Token::Plus
                } else {
                    Token::Minus
                };
                let ghost op = op_tok@->Op_0;
                tokens.push(op_tok);
                self.pos += 1;
                let t = match self.term() {
                    Ok(t) => t,
                    Err(e) => {
                        return Err(e);
                    },
                };
                let ghost tm = toks_view(t@);
                tokens = add_tokens(tokens, t);
                let w = self.read_whitespace_tokens();
                let ghost wm = toks_view(w@);
                tokens = add_tokens(tokens, w);
                proof {
                    assert(toks_view(tokens@) =~= accp + seq![TokM::Op(op)] + tm + wm);
                }
            }
        }
        Ok(tokens)
    }

    /// Reads a term: a factor, then any number of high-tier operators
    /// each followed by a factor. Exactly [`lex_term`] at the cursor.
    #[verifier::loop_isolation(false)]
    fn term(&mut self) -> (r: Result<Vec<Token>, LexerError>)
        requires
            lexer_wf(old(self)@),
        ensures
            final(self)@.input == old(self)@.input,
            old(self)@.pos <= final(self)@.pos <= final(self)@.input.len(),
            (r is Ok <==> lex_term(old(self)@.input, old(self)@.pos) is Some),
            (r matches Ok(t) ==> lex_term(old(self)@.input, old(self)@.pos) == Some(
                (toks_view(t@), final(self)@.pos),
            )),
        decreases old(self)@.input.len() - old(self)@.pos, 2int,
    {
        let ghost sm = self@.input;
        let ghost i0 = self@.pos;
        let ghost target = lex_term(sm, i0);
        let t0 = match self.factor() {
            Ok(t) => t,
            Err(e) => {
                return Err(e);
            },
        };
        let ghost tm0 = toks_view(t0@);
        let w = self.read_whitespace_tokens();
        let ghost wm0 = toks_view(w@);
        let mut tokens = add_tokens(t0, w);
        proof {
            assert(toks_view(tokens@) =~= tm0 + wm0);
            assert(target == lex_term_rest(sm, self@.pos, toks_view(tokens@)));
        }
        let len = self.input.unicode_len();
        while self.pos < len && is_term_op_start(self.input.get_char(self.pos))
            invariant
                self@.input == sm,
                i0 <= self.pos as nat <= sm.len(),
                target == lex_term_rest(sm, self@.pos, toks_view(tokens@)),
            decreases sm.len() - self.pos,
        {
            let ghost accp = toks_view(tokens@);
            let c = self.input.get_char(self.pos);
            let op_tok = if c == '*' {
                Token::Asterisk
            } else if c == '/' {
                Token::Slash
            } else {
                Token::Percent
            };
            let ghost op = op_tok@->Op_0;
            tokens.push(op_tok);
            self.pos += 1;
            let t = match self.factor() {
                Ok(t) => t,
                Err(e) => {
                    return Err(e);
                },
            };
            let ghost tm = toks_view(t@);
            tokens = add_tokens(tokens, t);
            let w = self.read_whitespace_tokens();
            let ghost wm = toks_view(w@);
            tokens = add_tokens(tokens, w);
            proof {
                assert(toks_view(tokens@) =~= accp + seq![TokM::Op(op)] + tm + wm);
            }
        }
        Ok(tokens)
    }

    /// Reads a factor: a parenthesized expression, a numeric literal,
    /// a function call or a variable. Exactly [`lex_factor`] at the
    /// cursor.
    #[verifier::loop_isolation(false)]
    fn factor(&mut self) -> (r: Result<Vec<Token>, LexerError>)
        requires
            lexer_wf(old(self)@),
        ensures
            final(self)@.input == old(self)@.input,
            old(self)@.pos <= final(self)@.pos <= final(self)@.input.len(),
            (r is Ok <==> lex_factor(old(self)@.input, old(self)@.pos) is Some),
            (r matches Ok(t) ==> lex_factor(old(self)@.input, old(self)@.pos) == Some(
                (toks_view(t@), final(self)@.pos),
            )),
        decreases old(self)@.input.len() - old(self)@.pos, 1int,
    {
        let ghost sm = self@.input;
        let ghost i0 = self@.pos;
        let mut tokens = self.read_whitespace_tokens();
        let ghost wsq = toks_view(tokens@);
        let len = self.input.unicode_len();
        if self.pos >= len {
            return Err(LexerError::new("error: unexpected end of line"));
        }
        let c = self.input.get_char(self.pos);
        if c == '(' {
            tokens.push(Token::LeftParenthesis);
            self.pos += 1;
            let t = match self.expr() {
                Ok(t) => t,
                Err(e) => {
                    return Err(e);
                },
            };
            let ghost tm = toks_view(t@);
            tokens = add_tokens(tokens, t);
            let w = self.read_whitespace_tokens();
            let ghost wm = toks_view(w@);
            tokens = add_tokens(tokens, w);
            if self.pos < len && self.input.get_char(self.pos) == ')' {
                self.pos += 1;
                tokens.push(Token::RightParenthesis);
                proof {
                    assert(toks_view(tokens@) =~= wsq.push(TokM::LParen) + tm + wm + seq![
                        TokM::RParen,
                    ]);
                }
                Ok(tokens)
            } else if self.pos < len {
                Err(LexerError::new("error: unexpected chars"))
            } else {
                Err(LexerError::new("error: unexpected end of line"))
            }
        } else if ch_is_digit(c) || c == '+' || c == '-' {
            let t = match self.number() {
                Ok(t) => t,
                Err(e) => {
                    return Err(e);
                },
            };
            let ghost tm = toks_view(t@);
            tokens = add_tokens(tokens, t);
            proof {
                assert(toks_view(tokens@) =~= wsq + tm);
            }
            Ok(tokens)
        } else if ch_is_upper(c) {
            let t = match self.function() {
                Ok(t) => t,
                Err(e) => {
                    return Err(e);
                },
            };
            let ghost tm = toks_view(t@);
            tokens = add_tokens(tokens, t);
            proof {
                assert(toks_view(tokens@) =~= wsq + tm);
            }
            Ok(tokens)
        } else if ch_is_lower(c) {
            let t = match self.variable() {
                Ok(t) => t,
                Err(e) => {
                    return Err(e);
                },
            };
            let ghost tm = toks_view(t@);
            tokens = add_tokens(tokens, t);
            proof {
                assert(toks_view(tokens@) =~= wsq + tm);
            }
            Ok(tokens)
        } else {
            Err(LexerError::new("error: unexpected char"))
        }
    }

    /// Reads a function call: a property directly followed by `(`, a
    /// first argument expression, then separators and arguments until
    /// `)`. Exactly [`lex_function`] at the cursor.
    #[verifier::loop_isolation(false)]
    #[verifier::rlimit(100)]
    fn function(&mut self) -> (r: Result<Vec<Token>, LexerError>)
        requires
            lexer_wf(old(self)@),
        ensures
            final(self)@.input == old(self)@.input,
            old(self)@.pos <= final(self)@.pos <= final(self)@.input.len(),
            (r is Ok <==> lex_function(old(self)@.input, old(self)@.pos) is Some),
            (r matches Ok(t) ==> lex_function(old(self)@.input, old(self)@.pos) == Some(
                (toks_view(t@), final(self)@.pos),
            )),
        decreases old(self)@.input.len() - old(self)@.pos, 0int,
    {
        let ghost sm = self@.input;
        let ghost i0 = self@.pos;
        let ghost target = lex_function(sm, i0);
        let mut tokens = match self.property() {
            Ok(t) => t,
            Err(e) => {
                return Err(e);
            },
        };
        let len = self.input.unicode_len();
        if self.pos >= len {
            return Err(LexerError::new("error: unexpected end of line"));
        }
        let c = self.input.get_char(self.pos);
        if c != '(' {
            return Err(LexerError::new("error: unexpected char after property"));
        }
        let ghost pm = toks_view(tokens@);
        tokens.push(Token::LeftParenthesis);
        self.pos += 1;
        let t = match self.expr() {
            Ok(t) => t,
            Err(e) => {
                return Err(e);
            },
        };
        let ghost tm = toks_view(t@);
        tokens = add_tokens(tokens, t);
        let w = self.read_whitespace_tokens();
        let ghost wm = toks_view(w@);
        tokens = add_tokens(tokens, w);
        proof {
            assert(toks_view(tokens@) =~= pm.push(TokM::LParen) + tm + wm);
            assert(target == lex_fargs(sm, self@.pos, toks_view(tokens@)));
        }
        let mut done = false;
        while self.pos < len && !done
            invariant
                self@.input == sm,
                i0 <= self.pos as nat <= sm.len(),
                !done ==> target == lex_fargs(sm, self@.pos, toks_view(tokens@)),
                done ==> target == Some((toks_view(tokens@), self@.pos)),
            decreases sm.len() - self.pos, (if done {
                0int
            } else {
                1int
            }),
        {
            let ghost accp = toks_view(tokens@);
            let cc = self.input.get_char(self.pos);
            if cc == ',' {
                tokens.push(Token::Comma);
                self.pos += 1;
                let t = match self.expr() {
                    Ok(t) => t,
                    Err(e) => {
                        return Err(e);
                    },
                };
                let ghost tm2 = toks_view(t@);
                tokens = add_tokens(tokens, t);
                let w = self.read_whitespace_tokens();
                let ghost wm2 = toks_view(w@);
                tokens = add_tokens(tokens, w);
                proof {
                    assert(toks_view(tokens@) =~= accp.push(TokM::Comma) + tm2 + wm2);
                }
            } else if cc == ')' {
                tokens.push(Token::RightParenthesis);
                self.pos += 1;
                done = true;
                proof {
                    assert(toks_view(tokens@) =~= accp.push(TokM::RParen));
                }
            } else {
                return Err(LexerError::new("error: unexpected char after first argument"));
            }
        }
        Ok(tokens)
    }

    /// Completes a comparison operator whose first character was
    /// consumed: exactly [`lex_comparison`] at the cursor.
    fn read_comparison_operator(&mut self, first_char: char) -> (r: Result<Token, LexerError>)
        requires
            lexer_wf(old(self)@),
        ensures
            final(self)@.input == old(self)@.input,
            old(self)@.pos <= final(self)@.pos <= final(self)@.input.len(),
            (r is Ok <==> lex_comparison(old(self)@.input, old(self)@.pos, first_char) is Some),
            (r matches Ok(t) ==> lex_comparison(old(self)@.input, old(self)@.pos, first_char)
                matches Some((op, k)) && t@ == TokM::Op(op) && final(self)@.pos == k),
    {
        let len = self.input.unicode_len();
        if first_char == '>' || first_char == '<' {
            if self.pos >= len {
                return Err(LexerError::new("error: unexpected end of line"));
            }
            let cc = self.input.get_char(self.pos);
            if cc == '=' {
                self.pos += 1;
                if first_char == '>' {
                    Ok(Token::GreaterThanOrEqual)
                } else {
                    Ok(Token::LessThanOrEqual)
                }
            } else {
                if first_char == '>' {
                    Ok(Token::GreaterThan)
                } else {
                    Ok(Token::LessThan)
                }
            }
        } else if first_char == '=' || first_char == '!' {
            if self.pos >= len {
                return Err(LexerError::new("error: unexpected end of line"));
            }
            let cc = self.input.get_char(self.pos);
            if cc == '=' {
                self.pos += 1;
                if first_char == '=' {
                    Ok(Token::Equal)
                } else {
                    Ok(Token::NotEqual)
                }
            } else {
                Err(LexerError::new("error: unexpected char after equal"))
            }
        } else {
            Err(LexerError::new("error: unexpected char"))
        }
    }
}

/// A digit string has a non-negative value.
proof fn lemma_digits_val_nonneg(s: Seq<char>)
    requires
        forall|t: int| 0 <= t < s.len() ==> is_digit_char(#[trigger] s[t]),
    ensures
        digits_val(s) >= 0,
    decreases s.len(),
{
    if s.len() > 0 {
        lemma_digits_val_nonneg(s.drop_last());
    }
}

/// A prefix of a digit string is worth at most the whole string.
proof fn lemma_digits_prefix_le(s: Seq<char>, m: int)
    requires
        forall|t: int| 0 <= t < s.len() ==> is_digit_char(#[trigger] s[t]),
        0 <= m <= s.len(),
    ensures
        digits_val(s.subrange(0, m)) <= digits_val(s),
    decreases s.len() - m,
{
    if m == s.len() {
        assert(s.subrange(0, m) =~= s);
    } else {
        lemma_digits_prefix_le(s, m + 1);
        let p1 = s.subrange(0, m + 1);
        assert(p1.drop_last() =~= s.subrange(0, m));
        assert(forall|t: int| 0 <= t < m ==> is_digit_char(#[trigger] s.subrange(0, m)[t]));
        lemma_digits_val_nonneg(s.subrange(0, m));
    }
}

/// Ten to the `k` is positive.
proof fn lemma_pow10_pos(k: nat)
    ensures
        pow10(k) >= 1,
    decreases k,
{
    if k > 0 {
        lemma_pow10_pos((k - 1) as nat);
    }
}

/// Ten to the `k` grows with `k`.
proof fn lemma_pow10_le(k1: nat, k2: nat)
    requires
        k1 <= k2,
    ensures
        pow10(k1) <= pow10(k2),
    decreases k2 - k1,
{
    if k1 < k2 {
        lemma_pow10_le(k1, (k2 - 1) as nat);
        lemma_pow10_pos((k2 - 1) as nat);
    }
}

/// No dot stands before the first dot.
proof fn lemma_no_dot_before_first(s: Seq<char>, x: nat, t: int)
    requires
        x <= t < first_dot_from(s, x),
    ensures
        s[t] != '.',
    decreases t - x,
{
    if t > x {
        lemma_no_dot_before_first(s, x + 1, t);
    }
}

/// No dot stands where none are counted.
proof fn lemma_no_dot_when_zero(s: Seq<char>, x: nat, t: int)
    requires
        count_dots_from(s, x) == 0,
        x <= t < s.len(),
    ensures
        s[t] != '.',
    decreases t - x,
{
    if t > x {
        lemma_no_dot_when_zero(s, x + 1, t);
    }
}

/// The first dot lies inside the string or at its end, and the count
/// from `x` is the count from that dot.
proof fn lemma_count_at_first(s: Seq<char>, x: nat)
    requires
        x <= s.len(),
    ensures
        x <= first_dot_from(s, x) <= s.len(),
        count_dots_from(s, x) == if first_dot_from(s, x) < s.len() {
            1 + count_dots_from(s, first_dot_from(s, x) + 1)
        } else {
            0
        },
    decreases s.len() - x,
{
    if x < s.len() && s[x as int] != '.' {
        lemma_count_at_first(s, x + 1);
    }
}

/// The first dot found is a dot.
proof fn lemma_first_dot_hits(s: Seq<char>, x: nat)
    requires
        first_dot_from(s, x) < s.len(),
        x <= s.len(),
    ensures
        s[first_dot_from(s, x) as int] == '.',
    decreases s.len() - x,
{
    if x < s.len() && s[x as int] != '.' {
        lemma_first_dot_hits(s, x + 1);
    }
}

/// Whether `c` can begin an expression-level operator.
fn is_expr_op_start(c: char) -> (r: bool)
    ensures
        r == (c == '>' || c == '<' || c == '=' || c == '!' || c == '+' || c == '-'),
{
    c == '>' || c == '<' || c == '=' || c == '!' || c == '+' || c == '-'
}

/// Whether `c` is a term-level operator.
fn is_term_op_start(c: char) -> (r: bool)
    ensures
        r == (c == '*' || c == '/' || c == '%'),
{
    c == '*' || c == '/' || c == '%'
}

/// A copy of a token with the same model.
fn duplicate_token(t: &Token) -> (r: Token)
    ensures
        r@ == t@,
{
    match t {
        Token::WhiteSpace => Token::WhiteSpace,
        Token::Number(n) => Token::Number(*n),
        Token::Property(s) => Token::Property(s.clone()),
        Token::Plus => Token::Plus,
        Token::Minus => Token::Minus,
        Token::Asterisk => Token::Asterisk,
        Token::Slash => Token::Slash,
        Token::Percent => Token::Percent,
        Token::Equal => Token::Equal,
        Token::NotEqual => Token::NotEqual,
        Token::LessThan => Token::LessThan,
        Token::GreaterThan => Token::GreaterThan,
        Token::LessThanOrEqual => Token::LessThanOrEqual,
        Token::GreaterThanOrEqual => Token::GreaterThanOrEqual,
        Token::LeftParenthesis => Token::LeftParenthesis,
        Token::RightParenthesis => Token::RightParenthesis,
        Token::Comma => Token::Comma,
    }
}

/// Stripping a whitespace run leaves nothing.
proof fn lemma_strip_ws_of_ws(n: nat)
    ensures
        strip_ws(ws_seq(n)) == Seq::<TokM>::empty(),
    decreases n,
{
    reveal_with_fuel(Seq::filter, 2);
    if n == 0 {
        assert(ws_seq(0) =~= Seq::<TokM>::empty());
    } else {
        lemma_strip_ws_of_ws((n - 1) as nat);
        assert(ws_seq(n).drop_last() =~= ws_seq((n - 1) as nat));
        assert(ws_seq(n).last() is Ws);
    }
}

/// Stripping distributes over appending one token.
proof fn lemma_strip_ws_push(t: Seq<TokM>, x: TokM)
    ensures
        !(x is Ws) ==> strip_ws(t.push(x)) == strip_ws(t).push(x),
        x is Ws ==> strip_ws(t.push(x)) == strip_ws(t),
    decreases t.len(),
{
    reveal_with_fuel(Seq::filter, 2);
    assert(t.push(x).drop_last() =~= t);
}

/// A leaf survives appending a list that does not open with a
/// parenthesis.
proof fn lemma_leaf_extend(f1: Seq<TokM>, f2: Seq<TokM>)
    requires
        has_leaf(f1),
        f2.len() == 0 || !(f2[0] is LParen),
    ensures
        has_leaf(f1 + f2),
{
    let j = choose|j: int| #[trigger] leaf_at(f1, j);
    assert(leaf_at(f1 + f2, j));
}

/// A leaf survives appending anything once the list ends in a token
/// that is not a marker.
proof fn lemma_leaf_extend_after_mark(f1: Seq<TokM>, f2: Seq<TokM>)
    requires
        has_leaf(f1),
        f1.len() > 0,
        !(f1.last() is Prop),
    ensures
        has_leaf(f1 + f2),
{
    let j = choose|j: int| #[trigger] leaf_at(f1, j);
    assert(leaf_at(f1 + f2, j));
}

/// A leaf survives prepending anything.
proof fn lemma_leaf_prepend(f1: Seq<TokM>, f2: Seq<TokM>)
    requires
        has_leaf(f2),
    ensures
        has_leaf(f1 + f2),
{
    let j = choose|j: int| #[trigger] leaf_at(f2, j);
    assert(leaf_at(f1 + f2, f1.len() + j));
}

/// A successful expression read yields a literal or a variable
/// reference among its tokens.
proof fn lemma_lex_expr_leaf(s: Seq<char>, i: nat)
    ensures
        lex_expr(s, i) matches Some((t, m)) ==> has_leaf(strip_ws(t)),
    decreases s.len() - i, 4int,
{
    broadcast use vstd::seq_lib::group_seq_properties;

    if i <= s.len() {
        match lex_term(s, i) {
            None => {},
            Some((t, m)) => {
                lemma_lex_term_leaf(s, i);
                let mm = clamp_pos(i, m, s.len());
                let w = clamp_pos(mm, ws_end(s, mm), s.len());
                lemma_strip_ws_of_ws((w - mm) as nat);
                assert(strip_ws(t + ws_seq((w - mm) as nat)) =~= strip_ws(t));
                lemma_lex_expr_rest_leaf(s, w, t + ws_seq((w - mm) as nat));
            },
        }
    }
}

/// The leaf in the tokens read so far survives the expression tail.
proof fn lemma_lex_expr_rest_leaf(s: Seq<char>, j: nat, acc: Seq<TokM>)
    requires
        has_leaf(strip_ws(acc)),
    ensures
        lex_expr_rest(s, j, acc) matches Some((t, m)) ==> has_leaf(strip_ws(t)),
    decreases s.len() - j, 3int,
{
    broadcast use vstd::seq_lib::group_seq_properties;

    if j < s.len() {
        let c = s[j as int];
        if c == '>' || c == '<' || c == '=' || c == '!' {
            match lex_comparison(s, j + 1, c) {
                None => {},
                Some((op, k)) => match lex_term(s, k) {
                    None => {},
                    Some((t, m)) => {
                        let mm = clamp_pos(k, m, s.len());
                        let w = clamp_pos(mm, ws_end(s, mm), s.len());
                        let acc2 = acc + seq![TokM::Op(op)] + t + ws_seq((w - mm) as nat);
                        lemma_leaf_extend(strip_ws(acc), seq![TokM::Op(op)]);
                        assert(strip_ws(seq![TokM::Op(op)]) =~= seq![TokM::Op(op)]) by {
                            reveal_with_fuel(Seq::filter, 2);
                            assert(seq![TokM::Op(op)].drop_last() =~= Seq::<TokM>::empty());
                        }
                        assert(strip_ws(acc + seq![TokM::Op(op)]) =~= strip_ws(acc) + seq![
                            TokM::Op(op),
                        ]);
                        lemma_leaf_extend_after_mark(
                            strip_ws(acc) + seq![TokM::Op(op)],
                            strip_ws(t),
                        );
                        lemma_strip_ws_of_ws((w - mm) as nat);
                        assert(strip_ws(acc2) =~= strip_ws(acc) + seq![TokM::Op(op)] + strip_ws(
                            t,
                        ));
                        lemma_lex_expr_rest_leaf(s, w, acc2);
                    },
                },
            }
        } else if c == '+' || c == '-' {
            let op = if c == '+' {
                BinOp::Plus
            } else {
                BinOp::Minus
            };
            match lex_term(s, j + 1) {
                None => {},
                Some((t, m)) => {
                    let mm = clamp_pos(j + 1, m, s.len());
                    let w = clamp_pos(mm, ws_end(s, mm), s.len());
                    let acc2 = acc + seq![TokM::Op(op)] + t + ws_seq((w - mm) as nat);
                    lemma_leaf_extend(strip_ws(acc), seq![TokM::Op(op)]);
                    assert(strip_ws(seq![TokM::Op(op)]) =~= seq![TokM::Op(op)]) by {
                        reveal_with_fuel(Seq::filter, 2);
                        assert(seq![TokM::Op(op)].drop_last() =~= Seq::<TokM>::empty());
                    }
                    assert(strip_ws(acc + seq![TokM::Op(op)]) =~= strip_ws(acc) + seq![
                        TokM::Op(op),
                    ]);
                    lemma_leaf_extend_after_mark(strip_ws(acc) + seq![TokM::Op(op)], strip_ws(t));
                    lemma_strip_ws_of_ws((w - mm) as nat);
                    assert(strip_ws(acc2) =~= strip_ws(acc) + seq![TokM::Op(op)] + strip_ws(t));
                    lemma_lex_expr_rest_leaf(s, w, acc2);
                },
            }
        }
    }
}

/// A successful term read yields a literal or a variable reference
/// among its tokens.
proof fn lemma_lex_term_leaf(s: Seq<char>, i: nat)
    ensures
        lex_term(s, i) matches Some((t, m)) ==> has_leaf(strip_ws(t)),
    decreases s.len() - i, 2int,
{
    broadcast use vstd::seq_lib::group_seq_properties;

    if i <= s.len() {
        match lex_factor(s, i) {
            None => {},
            Some((t, m)) => {
                lemma_lex_factor_leaf(s, i);
                let mm = clamp_pos(i, m, s.len());
                let w = clamp_pos(mm, ws_end(s, mm), s.len());
                lemma_strip_ws_of_ws((w - mm) as nat);
                assert(strip_ws(t + ws_seq((w - mm) as nat)) =~= strip_ws(t));
                lemma_lex_term_rest_leaf(s, w, t + ws_seq((w - mm) as nat));
            },
        }
    }
}

/// The leaf in the tokens read so far survives the term tail.
proof fn lemma_lex_term_rest_leaf(s: Seq<char>, j: nat, acc: Seq<TokM>)
    requires
        has_leaf(strip_ws(acc)),
    ensures
        lex_term_rest(s, j, acc) matches Some((t, m)) ==> has_leaf(strip_ws(t)),
    decreases s.len() - j, 1int,
{
    broadcast use vstd::seq_lib::group_seq_properties;

    if j < s.len() && (s[j as int] == '*' || s[j as int] == '/' || s[j as int] == '%') {
        let op = if s[j as int] == '*' {
            BinOp::Asterisk
        } else if s[j as int] == '/' {
            BinOp::Slash
        } else {
            BinOp::Percent
        };
        match lex_factor(s, j + 1) {
            None => {},
            Some((t, m)) => {
                lemma_lex_factor_leaf(s, j + 1);
                let mm = clamp_pos(j + 1, m, s.len());
                let w = clamp_pos(mm, ws_end(s, mm), s.len());
                let acc2 = acc + seq![TokM::Op(op)] + t + ws_seq((w - mm) as nat);
                lemma_leaf_extend(strip_ws(acc), seq![TokM::Op(op)]);
                assert(strip_ws(seq![TokM::Op(op)]) =~= seq![TokM::Op(op)]) by {
                    reveal_with_fuel(Seq::filter, 2);
                    assert(seq![TokM::Op(op)].drop_last() =~= Seq::<TokM>::empty());
                }
                assert(strip_ws(acc + seq![TokM::Op(op)]) =~= strip_ws(acc) + seq![TokM::Op(op)]);
                lemma_leaf_extend_after_mark(strip_ws(acc) + seq![TokM::Op(op)], strip_ws(t));
                lemma_strip_ws_of_ws((w - mm) as nat);
                assert(strip_ws(acc2) =~= strip_ws(acc) + seq![TokM::Op(op)] + strip_ws(t));
                lemma_lex_term_rest_leaf(s, w, acc2);
            },
        }
    }
}

/// A successful factor read yields a literal or a variable reference
/// among its tokens.
proof fn lemma_lex_factor_leaf(s: Seq<char>, i: nat)
    ensures
        lex_factor(s, i) matches Some((t, m)) ==> has_leaf(strip_ws(t)),
    decreases s.len() - i, 1int,
{
    broadcast use vstd::seq_lib::group_seq_properties;

    let j = clamp_pos(i, ws_end(s, i), s.len());
    let wsq = ws_seq((j - i) as nat);
    lemma_strip_ws_of_ws((j - i) as nat);
    if j >= s.len() {
    } else if s[j as int] == '(' {
        match lex_expr(s, j + 1) {
            None => {},
            Some((t, m)) => {
                lemma_lex_expr_leaf(s, j + 1);
                let mm = clamp_pos(j + 1, m, s.len());
                let w = clamp_pos(mm, ws_end(s, mm), s.len());
                lemma_strip_ws_of_ws((w - mm) as nat);
                lemma_strip_ws_push(wsq, TokM::LParen);
                let whole = wsq.push(TokM::LParen) + t + ws_seq((w - mm) as nat) + seq![
                    TokM::RParen,
                ];
                assert(strip_ws(seq![TokM::RParen]) =~= seq![TokM::RParen]) by {
                    reveal_with_fuel(Seq::filter, 2);
                    assert(seq![TokM::RParen].drop_last() =~= Seq::<TokM>::empty());
                }
                assert(strip_ws(whole) =~= seq![TokM::LParen] + strip_ws(t) + seq![
                    TokM::RParen,
                ]);
                lemma_leaf_prepend(seq![TokM::LParen], strip_ws(t));
                lemma_leaf_extend(seq![TokM::LParen] + strip_ws(t), seq![TokM::RParen]);
            },
        }
    } else if is_digit_char(s[j as int]) || s[j as int] == '+' || s[j as int] == '-' {
        match lex_number(s, j) {
            None => {},
            Some((t, k)) => {
                let jn = at_least(j, ws_end(s, j));
                let rat = num_value(
                    s.subrange(
                        jn as int,
                        (if jn < s.len() && is_num_first_char(s[jn as int]) {
                            at_least(jn + 1, num_cont_end(s, jn + 1))
                        } else {
                            jn
                        }) as int,
                    ),
                )->Some_0;
                lemma_strip_ws_of_ws((jn - j) as nat);
                lemma_strip_ws_push(ws_seq((jn - j) as nat), TokM::Num(rat));
                assert(leaf_at(strip_ws(t), 0));
                assert(strip_ws(wsq + t) =~= strip_ws(t));
                assert(has_leaf(strip_ws(wsq + t)));
            },
        }
    } else if is_upper_char(s[j as int]) {
        match lex_function(s, j) {
            None => {},
            Some((t, k)) => {
                lemma_lex_function_leaf(s, j);
                assert(strip_ws(wsq + t) =~= strip_ws(t));
            },
        }
    } else if is_lower_char(s[j as int]) {
        match lex_property(s, j) {
            None => {},
            Some((t, k)) => {
                let jp = at_least(j, ws_end(s, j));
                let kp = at_least(jp, alpha_end(s, jp));
                lemma_strip_ws_of_ws((jp - j) as nat);
                lemma_strip_ws_push(
                    ws_seq((jp - j) as nat),
                    TokM::Prop(s.subrange(jp as int, kp as int)),
                );
                assert(leaf_at(strip_ws(t), 0));
                assert(strip_ws(wsq + t) =~= strip_ws(t));
                assert(has_leaf(strip_ws(wsq + t)));
            },
        }
    }
}

/// A successful function-call read yields a literal or a variable
/// reference among its tokens: one stands inside the first argument.
proof fn lemma_lex_function_leaf(s: Seq<char>, i: nat)
    ensures
        lex_function(s, i) matches Some((t, m)) ==> has_leaf(strip_ws(t)),
    decreases s.len() - i, 0int,
{
    broadcast use vstd::seq_lib::group_seq_properties;

    match lex_property(s, i) {
        None => {},
        Some((pt, p)) => {
            let pp = clamp_pos(i, p, s.len());
            if pp < s.len() && s[pp as int] == '(' {
                match lex_expr(s, pp + 1) {
                    None => {},
                    Some((t, m)) => {
                        lemma_lex_expr_leaf(s, pp + 1);
                        let mm = clamp_pos(pp + 1, m, s.len());
                        let w = clamp_pos(mm, ws_end(s, mm), s.len());
                        let acc = pt.push(TokM::LParen) + t + ws_seq((w - mm) as nat);
                        lemma_strip_ws_of_ws((w - mm) as nat);
                        lemma_strip_ws_push(pt, TokM::LParen);
                        assert(strip_ws(acc) =~= strip_ws(pt).push(TokM::LParen) + strip_ws(t));
                        lemma_leaf_prepend(strip_ws(pt).push(TokM::LParen), strip_ws(t));
                        lemma_lex_fargs_leaf(s, w, acc);
                    },
                }
            }
        },
    }
}

/// The leaf in the tokens read so far survives the remaining
/// arguments of a call.
proof fn lemma_lex_fargs_leaf(s: Seq<char>, j: nat, acc: Seq<TokM>)
    requires
        has_leaf(strip_ws(acc)),
    ensures
        lex_fargs(s, j, acc) matches Some((t, m)) ==> has_leaf(strip_ws(t)),
    decreases s.len() - j, 0int,
{
    broadcast use vstd::seq_lib::group_seq_properties;

    if j >= s.len() {
    } else if s[j as int] == ',' {
        match lex_expr(s, j + 1) {
            None => {},
            Some((t, m)) => {
                let mm = clamp_pos(j + 1, m, s.len());
                let w = clamp_pos(mm, ws_end(s, mm), s.len());
                let acc2 = acc.push(TokM::Comma) + t + ws_seq((w - mm) as nat);
                lemma_strip_ws_push(acc, TokM::Comma);
                lemma_leaf_extend(strip_ws(acc), seq![TokM::Comma]);
                assert(strip_ws(acc).push(TokM::Comma) =~= strip_ws(acc) + seq![TokM::Comma]);
                lemma_leaf_extend_after_mark(strip_ws(acc).push(TokM::Comma), strip_ws(t));
                lemma_strip_ws_of_ws((w - mm) as nat);
                assert(strip_ws(acc2) =~= strip_ws(acc).push(TokM::Comma) + strip_ws(t));
                lemma_lex_fargs_leaf(s, w, acc2);
            },
        }
    } else if s[j as int] == ')' {
        lemma_strip_ws_push(acc, TokM::RParen);
        lemma_leaf_extend(strip_ws(acc), seq![TokM::RParen]);
        assert(strip_ws(acc).push(TokM::RParen) =~= strip_ws(acc) + seq![TokM::RParen]);
    }
}

/// A formula that tokenizes holds a literal or a variable reference.
pub proof fn lemma_tokenize_has_leaf(s: Seq<char>, i: nat)
    ensures
        spec_tokenize(s, i) matches Some(toks) ==> has_leaf(toks),
{
    lemma_lex_expr_leaf(s, i);
}

} // verus!
