//! Operator-precedence parser: rewrites the token list into a postfix
//! (reverse-Polish) sequence with the shunting-yard algorithm.
//!
//! Two precedence tiers, both left-associative: `*` and `/` bind
//! tighter; `+ - % == != < > <= >=` all share the lower tier.

use vstd::prelude::*;

use crate::lexer::BinOp;
use crate::lexer::TokM;
use crate::lexer::leaf_at;
use crate::lexer::toks_view;
use crate::lexer::Token;
use crate::num::Num;
use crate::num::Rat;

verus! {

/// An item of the postfix sequence.
#[derive(Clone, Debug, PartialEq)]
pub enum Value {
    Number(Num),
    Function(String),
    Variable(String),
    Plus,
    Minus,
    Asterisk,
    Slash,
    Percent,
    Equal,
    NotEqual,
    GreaterThan,
    GreaterThanOrEqual,
    LessThan,
    LessThanOrEqual,
}

/// Mathematical model of a postfix item.
pub ghost enum ValM {
    Num(Rat),
    Fun(Seq<char>),
    Var(Seq<char>),
    Op(BinOp),
}

impl View for Value {
    type V = ValM;

    open spec fn view(&self) -> ValM {
        match self {
            Value::Number(n) => ValM::Num(n@),
            Value::Function(s) => ValM::Fun(s@),
            Value::Variable(s) => ValM::Var(s@),
            Value::Plus => ValM::Op(BinOp::Plus),
            Value::Minus => ValM::Op(BinOp::Minus),
            Value::Asterisk => ValM::Op(BinOp::Asterisk),
            Value::Slash => ValM::Op(BinOp::Slash),
            Value::Percent => ValM::Op(BinOp::Percent),
            Value::Equal => ValM::Op(BinOp::Equal),
            Value::NotEqual => ValM::Op(BinOp::NotEqual),
            Value::GreaterThan => ValM::Op(BinOp::GreaterThan),
            Value::GreaterThanOrEqual => ValM::Op(BinOp::GreaterThanOrEqual),
            Value::LessThan => ValM::Op(BinOp::LessThan),
            Value::LessThanOrEqual => ValM::Op(BinOp::LessThanOrEqual),
        }
    }
}

/// View of a postfix sequence.
pub open spec fn vals_view(s: Seq<Value>) -> Seq<ValM> {
    s.map_values(|v: Value| v@)
}

/// Error reported by the parser, with a descriptive message.
#[derive(Debug, PartialEq)]
pub struct ParserError {
    pub msg: String,
}

impl ParserError {
    /// Wraps a message into a parser error.
    pub fn new(msg: &str) -> (r: ParserError)
        ensures
            r.msg@ == msg@,
    {
        ParserError { msg: msg.to_owned() }
    }
}

/// Precedence tier of an operator: `*` and `/` bind tighter.
pub open spec fn op_tier(op: BinOp) -> int {
    match op {
        BinOp::Asterisk => 2,
        BinOp::Slash => 2,
        _ => 1,
    }
}

/// Pops stacked operators of precedence at least `tier` to the
/// output, stopping at the first marker or parenthesis.
pub open spec fn pop_ops(stack: Seq<TokM>, out: Seq<ValM>, tier: int) -> (Seq<TokM>, Seq<ValM>)
    decreases stack.len(),
{
    if stack.len() == 0 {
        (stack, out)
    } else {
        match stack.last() {
            TokM::Op(op) => if op_tier(op) >= tier {
                pop_ops(stack.drop_last(), out.push(ValM::Op(op)), tier)
            } else {
                (stack, out)
            },
            _ => (stack, out),
        }
    }
}

/// On a closing parenthesis: pops operators to the output until an
/// opening parenthesis, which is discarded; a function marker just
/// below it moves to the output. Nothing when the stack empties first
/// or a marker stands above the parenthesis.
pub open spec fn pop_until_rparen(stack: Seq<TokM>, out: Seq<ValM>) -> Option<
    (Seq<TokM>, Seq<ValM>),
>
    decreases stack.len(),
{
    if stack.len() == 0 {
        None
    } else {
        match stack.last() {
            TokM::Op(op) => pop_until_rparen(stack.drop_last(), out.push(ValM::Op(op))),
            TokM::LParen => {
                let rest = stack.drop_last();
                if rest.len() > 0 && rest.last() is Prop {
                    Some((rest.drop_last(), out.push(ValM::Fun(rest.last()->Prop_0))))
                } else {
                    Some((rest, out))
                }
            },
            _ => None,
        }
    }
}

/// On an argument separator: pops operators to the output until an
/// opening parenthesis, which stays on the stack. Nothing when the
/// stack empties first or a marker comes up.
pub open spec fn pop_until_comma(stack: Seq<TokM>, out: Seq<ValM>) -> Option<
    (Seq<TokM>, Seq<ValM>),
>
    decreases stack.len(),
{
    if stack.len() == 0 {
        None
    } else {
        match stack.last() {
            TokM::Op(op) => pop_until_comma(stack.drop_last(), out.push(ValM::Op(op))),
            TokM::LParen => Some((stack, out)),
            _ => None,
        }
    }
}

/// At the end of the input: drains the remaining operators to the
/// output; a parenthesis or marker left on the stack is an error.
pub open spec fn drain_stack(stack: Seq<TokM>, out: Seq<ValM>) -> Option<Seq<ValM>>
    decreases stack.len(),
{
    if stack.len() == 0 {
        Some(out)
    } else {
        match stack.last() {
            TokM::Op(op) => drain_stack(stack.drop_last(), out.push(ValM::Op(op))),
            _ => None,
        }
    }
}

/// The shunting-yard rewriting from token position `i`, with the
/// output and operator stack built so far: the postfix sequence, or
/// nothing on mismatched parentheses or a misplaced separator.
pub open spec fn shunt(toks: Seq<TokM>, i: nat, out: Seq<ValM>, stack: Seq<TokM>) -> Option<
    Seq<ValM>,
>
    decreases toks.len() - i,
{
    if i >= toks.len() {
        drain_stack(stack, out)
    } else {
        match toks[i as int] {
            TokM::Ws => shunt(toks, i + 1, out, stack),
            TokM::Num(r) => shunt(toks, i + 1, out.push(ValM::Num(r)), stack),
            TokM::Op(op) => {
                let (st2, out2) = pop_ops(stack, out, op_tier(op));
                shunt(toks, i + 1, out2, st2.push(TokM::Op(op)))
            },
            TokM::LParen => shunt(toks, i + 1, out, stack.push(TokM::LParen)),
            TokM::RParen => match pop_until_rparen(stack, out) {
                None => None,
                Some((st2, out2)) => shunt(toks, i + 1, out2, st2),
            },
            TokM::Prop(nm) => if i + 1 < toks.len() && toks[i as int + 1] is LParen {
                shunt(toks, i + 1, out, stack.push(TokM::Prop(nm)))
            } else {
                shunt(toks, i + 1, out.push(ValM::Var(nm)), stack)
            },
            TokM::Comma => match pop_until_comma(stack, out) {
                None => None,
                Some((st2, out2)) => shunt(toks, i + 1, out2, st2),
            },
        }
    }
}

/// The whole parse from token position `i`: the shunting-yard result,
/// rejected when empty.
pub open spec fn spec_parse(toks: Seq<TokM>, i: nat) -> Option<Seq<ValM>> {
    match shunt(toks, i, Seq::empty(), Seq::empty()) {
        None => None,
        Some(vs) => if vs.len() == 0 {
            None
        } else {
            Some(vs)
        },
    }
}

/// Whether a token is one of the eleven operators.
fn is_op_token(t: &Token) -> (r: bool)
    ensures
        r == (t@ is Op),
{
    match t {
        Token::Plus => true,
        Token::Minus => true,
        Token::Asterisk => true,
        Token::Slash => true,
        Token::Percent => true,
        Token::Equal => true,
        Token::NotEqual => true,
        Token::LessThan => true,
        Token::GreaterThan => true,
        Token::LessThanOrEqual => true,
        Token::GreaterThanOrEqual => true,
        _ => false,
    }
}

/// Whether a token is an operator of the higher tier.
fn is_tier2_token(t: &Token) -> (r: bool)
    ensures
        r == (t@ matches TokM::Op(op) && op_tier(op) == 2),
{
    match t {
        Token::Asterisk => true,
        Token::Slash => true,
        _ => false,
    }
}

/// Parser state: the token list and a cursor over it.
pub struct Parser {
    tokens: Vec<Token>,
    index: usize,
}

/// Mathematical model of a parser: the token models and the cursor.
pub ghost struct ParsM {
    pub tokens: Seq<TokM>,
    pub index: nat,
}

impl View for Parser {
    type V = ParsM;

    closed spec fn view(&self) -> ParsM {
        ParsM { tokens: toks_view(self.tokens@), index: self.index as nat }
    }
}

impl Parser {
    /// A parser over the given tokens, with the cursor at the start.
    pub fn new(tokens: Vec<Token>) -> (r: Parser)
        ensures
            r@.tokens == toks_view(tokens@),
            r@.index == 0,
    {
        Parser { tokens, index: 0 }
    }

    /// Rewrites the tokens into a postfix sequence: exactly
    /// [`spec_parse`] from the current cursor, or an error precisely
    /// when that has none (mismatched parentheses, a misplaced
    /// separator, or an empty result).
    pub fn parse(&mut self) -> (r: Result<Vec<Value>, ParserError>)
        ensures
            (r is Ok <==> spec_parse(old(self)@.tokens, old(self)@.index) is Some),
            (r matches Ok(vals) ==> Some(vals_view(vals@)) == spec_parse(
                old(self)@.tokens,
                old(self)@.index,
            )),
            final(self)@.tokens == old(self)@.tokens,
    {
        let tokens = match self.parse_expr() {
            Ok(t) => t,
            Err(e) => {
                return Err(e);
            },
        };
        if tokens.is_empty() || self.index < self.tokens.len() {
            return Err(ParserError::new("error: syntax error"));
        }
        Ok(tokens)
    }

    /// The shunting-yard pass itself: exactly [`shunt`] from the
    /// current cursor with an empty output and stack, or an error
    /// precisely when that has none. Consumes the remaining tokens
    /// when it succeeds.
    #[verifier::loop_isolation(false)]
    pub fn parse_expr(&mut self) -> (r: Result<Vec<Value>, ParserError>)
        ensures
            (r is Ok <==> shunt(
                old(self)@.tokens,
                old(self)@.index,
                Seq::empty(),
                Seq::empty(),
            ) is Some),
            (r matches Ok(vals) ==> Some(vals_view(vals@)) == shunt(
                old(self)@.tokens,
                old(self)@.index,
                Seq::empty(),
                Seq::empty(),
            )),
            r is Ok ==> final(self)@.index >= old(self)@.tokens.len(),
            final(self)@.tokens == old(self)@.tokens,
    {
        let ghost tm = self@.tokens;
        let ghost target = shunt(tm, self@.index, Seq::empty(), Seq::empty());
        let mut values: Vec<Value> = Vec::new();
        let mut stack: Vec<Token> = Vec::new();

        proof {
            assert(vals_view(values@) =~= Seq::<ValM>::empty());
            assert(toks_view(stack@) =~= Seq::<TokM>::empty());
        }
        while self.index < self.tokens.len()
            invariant
                self@.tokens == tm,
                self.index as nat == self@.index,
                target == shunt(tm, self@.index, vals_view(values@), toks_view(stack@)),
            decreases tm.len() - self.index,
        {
            let ghost out0 = vals_view(values@);
            let ghost st0 = toks_view(stack@);
            let ghost ii = self@.index;
            proof {
                assert(tm[ii as int] == self.tokens@[ii as int]@);
            }
            let token = &self.tokens[self.index];
            match token {
                Token::WhiteSpace => {
                    self.index += 1;
                },
                Token::Number(num) => {
                    values.push(Value::Number(*num));
                    self.index += 1;
                    proof {
                        assert(vals_view(values@) =~= out0.push(ValM::Num(num@)));
                    }
                },
                Token::Plus | Token::Minus | Token::Percent | Token::Equal | Token::NotEqual
                    | Token::GreaterThan | Token::GreaterThanOrEqual | Token::LessThan
                    | Token::LessThanOrEqual => {
                    proof {
                        assert(tm[ii as int] matches TokM::Op(op) && op_tier(op) == 1);
                    }
                    while stack.len() > 0 && is_op_token(&stack[stack.len() - 1])
                        invariant
                            pop_ops(st0, out0, 1) == pop_ops(
                                toks_view(stack@),
                                vals_view(values@),
                                1,
                            ),
                        decreases stack.len(),
                    {
                        let ghost stp = toks_view(stack@);
                        let ghost outp = vals_view(values@);
                        let tk = match stack.pop() {
                            Some(tk) => tk,
                            None => {
                                proof {
                                    assert(false);
                                }
                                return Err(ParserError::new("error: syntax error"));
                            },
                        };
                        let v = match token_into_value(&tk, true) {
                            Ok(v) => v,
                            Err(_) => {
                                proof {
                                    assert(false);
                                }
                                return Err(ParserError::new("error: syntax error"));
                            },
                        };
                        values.push(v);
                        proof {
                            assert(toks_view(stack@) =~= stp.drop_last());
                            assert(vals_view(values@) =~= outp.push(v@));
                        }
                    }
                    stack.push(duplicate(token));
                    self.index += 1;
                    proof {
                        assert(toks_view(stack@) =~= pop_ops(st0, out0, 1).0.push(tm[ii as int]));
                    }
                },
                Token::Asterisk | Token::Slash => {
                    proof {
                        assert(tm[ii as int] matches TokM::Op(op) && op_tier(op) == 2);
                    }
                    while stack.len() > 0 && is_tier2_token(&stack[stack.len() - 1])
                        invariant
                            pop_ops(st0, out0, 2) == pop_ops(
                                toks_view(stack@),
                                vals_view(values@),
                                2,
                            ),
                        decreases stack.len(),
                    {
                        let ghost stp = toks_view(stack@);
                        let ghost outp = vals_view(values@);
                        let tk = match stack.pop() {
                            Some(tk) => tk,
                            None => {
                                proof {
                                    assert(false);
                                }
                                return Err(ParserError::new("error: syntax error"));
                            },
                        };
                        let v = match token_into_value(&tk, true) {
                            Ok(v) => v,
                            Err(_) => {
                                proof {
                                    assert(false);
                                }
                                return Err(ParserError::new("error: syntax error"));
                            },
                        };
                        values.push(v);
                        proof {
                            assert(toks_view(stack@) =~= stp.drop_last());
                            assert(vals_view(values@) =~= outp.push(v@));
                        }
                    }
                    stack.push(duplicate(token));
                    self.index += 1;
                    proof {
                        assert(toks_view(stack@) =~= pop_ops(st0, out0, 2).0.push(tm[ii as int]));
                    }
                },
                Token::LeftParenthesis => {
                    stack.push(duplicate(token));
                    self.index += 1;
                    proof {
                        assert(toks_view(stack@) =~= st0.push(TokM::LParen));
                    }
                },
                Token::RightParenthesis => {
                    while stack.len() > 0 && is_op_token(&stack[stack.len() - 1])
                        invariant
                            pop_until_rparen(st0, out0) == pop_until_rparen(
                                toks_view(stack@),
                                vals_view(values@),
                            ),
                        decreases stack.len(),
                    {
                        let ghost stp = toks_view(stack@);
                        let ghost outp = vals_view(values@);
                        let tk = match stack.pop() {
                            Some(tk) => tk,
                            None => {
                                proof {
                                    assert(false);
                                }
                                return Err(ParserError::new("error: syntax error"));
                            },
                        };
                        let v = match token_into_value(&tk, true) {
                            Ok(v) => v,
                            Err(_) => {
                                proof {
                                    assert(false);
                                }
                                return Err(ParserError::new("error: syntax error"));
                            },
                        };
                        values.push(v);
                        proof {
                            assert(toks_view(stack@) =~= stp.drop_last());
                            assert(vals_view(values@) =~= outp.push(v@));
                        }
                    }
                    if stack.len() == 0 {
                        return Err(ParserError::new("error: parenthesis is not matched"));
                    }
                    let is_lparen = match &stack[stack.len() - 1] {
                        Token::LeftParenthesis => true,
                        _ => false,
                    };
                    if !is_lparen {
                        return Err(ParserError::new("error: unexpected property"));
                    }
                    let ghost stp = toks_view(stack@);
                    let ghost outp = vals_view(values@);
                    stack.pop();
                    proof {
                        assert(toks_view(stack@) =~= stp.drop_last());
                    }
                    let mut is_marker = false;
                    if stack.len() > 0 {
                        is_marker = match &stack[stack.len() - 1] {
                            Token::Property(_) => true,
                            _ => false,
                        };
                    }
                    if is_marker {
                        let ghost stq = toks_view(stack@);
                        let tt = match stack.pop() {
                            Some(tt) => tt,
                            None => {
                                proof {
                                    assert(false);
                                }
                                return Err(ParserError::new("error: syntax error"));
                            },
                        };
                        let v = match token_into_value(&tt, true) {
                            Ok(v) => v,
                            Err(_) => {
                                proof {
                                    assert(false);
                                }
                                return Err(ParserError::new("error: syntax error"));
                            },
                        };
                        values.push(v);
                        proof {
                            assert(toks_view(stack@) =~= stq.drop_last());
                            assert(vals_view(values@) =~= outp.push(v@));
                        }
                    }
                    proof {
                        assert(pop_until_rparen(st0, out0) == Some(
                            (toks_view(stack@), vals_view(values@)),
                        ));
                    }
                    self.index += 1;
                },
                Token::Property(_) => {
                    let t = duplicate(token);
                    let is_call = if self.index + 1 < self.tokens.len() {
                        match &self.tokens[self.index + 1] {
                            Token::LeftParenthesis => true,
                            _ => false,
                        }
                    } else {
                        false
                    };
                    if is_call {
                        stack.push(t);
                        proof {
                            assert(toks_view(stack@) =~= st0.push(tm[ii as int]));
                        }
                    } else {
                        let v = match token_into_value(&t, false) {
                            Ok(v) => v,
                            Err(_) => {
                                proof {
                                    assert(false);
                                }
                                return Err(ParserError::new("error: syntax error"));
                            },
                        };
                        values.push(v);
                        proof {
                            assert(vals_view(values@) =~= out0.push(v@));
                        }
                    }
                    self.index += 1;
                },
                Token::Comma => {
                    while stack.len() > 0 && is_op_token(&stack[stack.len() - 1])
                        invariant
                            pop_until_comma(st0, out0) == pop_until_comma(
                                toks_view(stack@),
                                vals_view(values@),
                            ),
                        decreases stack.len(),
                    {
                        let ghost stp = toks_view(stack@);
                        let ghost outp = vals_view(values@);
                        let tk = match stack.pop() {
                            Some(tk) => tk,
                            None => {
                                proof {
                                    assert(false);
                                }
                                return Err(ParserError::new("error: syntax error"));
                            },
                        };
                        let v = match token_into_value(&tk, true) {
                            Ok(v) => v,
                            Err(_) => {
                                proof {
                                    assert(false);
                                }
                                return Err(ParserError::new("error: syntax error"));
                            },
                        };
                        values.push(v);
                        proof {
                            assert(toks_view(stack@) =~= stp.drop_last());
                            assert(vals_view(values@) =~= outp.push(v@));
                        }
                    }
                    if stack.len() == 0 {
                        return Err(ParserError::new("error: parenthesis is not matched"));
                    }
                    let is_lparen = match &stack[stack.len() - 1] {
                        Token::LeftParenthesis => true,
                        _ => false,
                    };
                    if !is_lparen {
                        return Err(ParserError::new("error: unexpected property"));
                    }
                    proof {
                        assert(pop_until_comma(st0, out0) == Some(
                            (toks_view(stack@), vals_view(values@)),
                        ));
                    }
                    self.index += 1;
                },
            }
        }
        proof {
            assert(target == drain_stack(toks_view(stack@), vals_view(values@)));
        }
        while stack.len() > 0
            invariant
                target == drain_stack(toks_view(stack@), vals_view(values@)),
            decreases stack.len(),
        {
            let ghost stp = toks_view(stack@);
            let ghost outp = vals_view(values@);
            let is_op = is_op_token(&stack[stack.len() - 1]);
            if !is_op {
                return Err(ParserError::new("error: unexpected token"));
            }
            let tk = match stack.pop() {
                Some(tk) => tk,
                None => {
                    proof {
                        assert(false);
                    }
                    return Err(ParserError::new("error: syntax error"));
                },
            };
            let v = match token_into_value(&tk, true) {
                Ok(v) => v,
                Err(_) => {
                    proof {
                        assert(false);
                    }
                    return Err(ParserError::new("error: syntax error"));
                },
            };
            values.push(v);
            proof {
                assert(toks_view(stack@) =~= stp.drop_last());
                assert(vals_view(values@) =~= outp.push(v@));
            }
        }
        Ok(values)
    }
}

/// A copy of a token with the same model.
fn duplicate(t: &Token) -> (r: Token)
    ensures
        r@ == t@,
{
    match t {
        Token::WhiteSpace => Token::WhiteSpace,
        Token::Number(n) => Token::Number(*n),
        Token::Property(s) => Token::Property(s.clone()),
        Token::Plus => Token::Plus,
        Token::Minus => Token::Minus,
        Token::Asterisk => Token::Asterisk,
        Token::Slash => Token::Slash,
        Token::Percent => Token::Percent,
        Token::Equal => Token::Equal,
        Token::NotEqual => Token::NotEqual,
        Token::LessThan => Token::LessThan,
        Token::GreaterThan => Token::GreaterThan,
        Token::LessThanOrEqual => Token::LessThanOrEqual,
        Token::GreaterThanOrEqual => Token::GreaterThanOrEqual,
        Token::LeftParenthesis => Token::LeftParenthesis,
        Token::RightParenthesis => Token::RightParenthesis,
        Token::Comma => Token::Comma,
    }
}

/// Converts an operator or property token into a postfix item: a
/// property becomes a function or variable reference as the flag
/// says; number, whitespace, parenthesis and separator tokens are
/// errors.
fn token_into_value(token: &Token, is_function: bool) -> (r: Result<Value, ParserError>)
    ensures
        match token@ {
            TokM::Op(op) => r matches Ok(v) && v@ == ValM::Op(op),
            TokM::Prop(nm) => r matches Ok(v) && v@ == (if is_function {
                ValM::Fun(nm)
            } else {
                ValM::Var(nm)
            }),
            _ => r is Err,
        },
{
    match token {
        Token::Plus => Ok(Value::Plus),
        Token::Minus => Ok(Value::Minus),
        Token::Percent => Ok(Value::Percent),
        Token::Asterisk => Ok(Value::Asterisk),
        Token::Slash => Ok(Value::Slash),
        Token::Equal => Ok(Value::Equal),
        Token::NotEqual => Ok(Value::NotEqual),
        Token::GreaterThan => Ok(Value::GreaterThan),
        Token::GreaterThanOrEqual => Ok(Value::GreaterThanOrEqual),
        Token::LessThan => Ok(Value::LessThan),
        Token::LessThanOrEqual => Ok(Value::LessThanOrEqual),
        Token::Property(f) => Ok(
            if is_function {
                Value::Function(f.clone())
            } else {
                Value::Variable(f.clone())
            },
        ),
        _ => Err(ParserError::new("error: unexpected token")),
    }
}

/// Popping operators never shortens the output.
proof fn lemma_pop_ops_grows(stack: Seq<TokM>, out: Seq<ValM>, tier: int)
    ensures
        pop_ops(stack, out, tier).1.len() >= out.len(),
    decreases stack.len(),
{
    if stack.len() > 0 {
        match stack.last() {
            TokM::Op(op) => {
                if op_tier(op) >= tier {
                    lemma_pop_ops_grows(stack.drop_last(), out.push(ValM::Op(op)), tier);
                }
            },
            _ => {},
        }
    }
}

/// Handling a closing parenthesis never shortens the output.
proof fn lemma_pop_rparen_grows(stack: Seq<TokM>, out: Seq<ValM>)
    ensures
        pop_until_rparen(stack, out) matches Some(p) ==> p.1.len() >= out.len(),
    decreases stack.len(),
{
    if stack.len() > 0 {
        match stack.last() {
            TokM::Op(op) => {
                lemma_pop_rparen_grows(stack.drop_last(), out.push(ValM::Op(op)));
            },
            _ => {},
        }
    }
}

/// Handling a separator never shortens the output.
proof fn lemma_pop_comma_grows(stack: Seq<TokM>, out: Seq<ValM>)
    ensures
        pop_until_comma(stack, out) matches Some(p) ==> p.1.len() >= out.len(),
    decreases stack.len(),
{
    if stack.len() > 0 {
        match stack.last() {
            TokM::Op(op) => {
                lemma_pop_comma_grows(stack.drop_last(), out.push(ValM::Op(op)));
            },
            _ => {},
        }
    }
}

/// Draining the stack never shortens the output.
proof fn lemma_drain_grows(stack: Seq<TokM>, out: Seq<ValM>)
    ensures
        drain_stack(stack, out) matches Some(vs) ==> vs.len() >= out.len(),
    decreases stack.len(),
{
    if stack.len() > 0 {
        match stack.last() {
            TokM::Op(op) => {
                lemma_drain_grows(stack.drop_last(), out.push(ValM::Op(op)));
            },
            _ => {},
        }
    }
}

/// The shunting-yard pass never shortens the output built so far.
proof fn lemma_shunt_grows(toks: Seq<TokM>, i: nat, out: Seq<ValM>, stack: Seq<TokM>)
    ensures
        shunt(toks, i, out, stack) matches Some(vs) ==> vs.len() >= out.len(),
    decreases toks.len() - i,
{
    if i >= toks.len() {
        lemma_drain_grows(stack, out);
    } else {
        match toks[i as int] {
            TokM::Ws => {
                lemma_shunt_grows(toks, i + 1, out, stack);
            },
            TokM::Num(r) => {
                lemma_shunt_grows(toks, i + 1, out.push(ValM::Num(r)), stack);
            },
            TokM::Op(op) => {
                lemma_pop_ops_grows(stack, out, op_tier(op));
                let (st2, out2) = pop_ops(stack, out, op_tier(op));
                lemma_shunt_grows(toks, i + 1, out2, st2.push(TokM::Op(op)));
            },
            TokM::LParen => {
                lemma_shunt_grows(toks, i + 1, out, stack.push(TokM::LParen));
            },
            TokM::RParen => {
                lemma_pop_rparen_grows(stack, out);
                match pop_until_rparen(stack, out) {
                    None => {},
                    Some((st2, out2)) => {
                        lemma_shunt_grows(toks, i + 1, out2, st2);
                    },
                }
            },
            TokM::Prop(nm) => {
                if i + 1 < toks.len() && toks[i as int + 1] is LParen {
                    lemma_shunt_grows(toks, i + 1, out, stack.push(TokM::Prop(nm)));
                } else {
                    lemma_shunt_grows(toks, i + 1, out.push(ValM::Var(nm)), stack);
                }
            },
            TokM::Comma => {
                lemma_pop_comma_grows(stack, out);
                match pop_until_comma(stack, out) {
                    None => {},
                    Some((st2, out2)) => {
                        lemma_shunt_grows(toks, i + 1, out2, st2);
                    },
                }
            },
        }
    }
}

/// A literal or a variable reference among the remaining tokens
/// leaves at least one item in a successful output.
proof fn lemma_shunt_emits_leaf(toks: Seq<TokM>, i: nat, out: Seq<ValM>, stack: Seq<TokM>, j: int)
    requires
        i <= j,
        leaf_at(toks, j),
    ensures
        shunt(toks, i, out, stack) matches Some(vs) ==> vs.len() > out.len(),
    decreases toks.len() - i,
{
    match toks[i as int] {
        TokM::Ws => {
            lemma_shunt_emits_leaf(toks, i + 1, out, stack, j);
        },
        TokM::Num(r) => {
            if i == j {
                lemma_shunt_grows(toks, i + 1, out.push(ValM::Num(r)), stack);
            } else {
                lemma_shunt_emits_leaf(toks, i + 1, out.push(ValM::Num(r)), stack, j);
            }
        },
        TokM::Op(op) => {
            lemma_pop_ops_grows(stack, out, op_tier(op));
            let (st2, out2) = pop_ops(stack, out, op_tier(op));
            lemma_shunt_emits_leaf(toks, i + 1, out2, st2.push(TokM::Op(op)), j);
        },
        TokM::LParen => {
            lemma_shunt_emits_leaf(toks, i + 1, out, stack.push(TokM::LParen), j);
        },
        TokM::RParen => {
            lemma_pop_rparen_grows(stack, out);
            match pop_until_rparen(stack, out) {
                None => {},
                Some((st2, out2)) => {
                    lemma_shunt_emits_leaf(toks, i + 1, out2, st2, j);
                },
            }
        },
        TokM::Prop(nm) => {
            if i + 1 < toks.len() && toks[i as int + 1] is LParen {
                lemma_shunt_emits_leaf(toks, i + 1, out, stack.push(TokM::Prop(nm)), j);
            } else {
                if i == j {
                    lemma_shunt_grows(toks, i + 1, out.push(ValM::Var(nm)), stack);
                } else {
                    lemma_shunt_emits_leaf(toks, i + 1, out.push(ValM::Var(nm)), stack, j);
                }
            }
        },
        TokM::Comma => {
            lemma_pop_comma_grows(stack, out);
            match pop_until_comma(stack, out) {
                None => {},
                Some((st2, out2)) => {
                    lemma_shunt_emits_leaf(toks, i + 1, out2, st2, j);
                },
            }
        },
    }
}

/// A token stream that holds a literal or a variable reference is
/// rejected only inside the shunting-yard pass itself (a mismatched
/// parenthesis or a misplaced separator): its final rejection of an
/// empty result never fires, so parsing succeeds exactly when the
/// rewriting does.
pub proof fn lemma_parse_with_leaf_rejects_only_malformed(toks: Seq<TokM>, i: nat)
    requires
        exists|j: int| i <= j && #[trigger] leaf_at(toks, j),
    ensures
        (spec_parse(toks, i) is Some) == (shunt(toks, i, Seq::empty(), Seq::empty()) is Some),
{
    let j = choose|j: int| i <= j && #[trigger] leaf_at(toks, j);
    lemma_shunt_emits_leaf(toks, i, Seq::empty(), Seq::empty(), j);
}

} // verus!
