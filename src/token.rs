use vstd::prelude::*;

verus! {

/// How many operands an operator takes.
#[derive(Copy, Clone, PartialEq, Eq, Debug)]
pub enum Ary {
    Unary,
    Binary,
}

/// How operators of equal precedence group.
#[derive(Copy, Clone, PartialEq, Eq, Debug)]
pub enum Assoc {
    Left,
    Right,
}

/// An operator: its symbol, arity, associativity and precedence
/// (higher binds tighter).
#[derive(Copy, Clone, PartialEq, Eq, Debug)]
pub struct Op {
    pub symbol: char,
    pub ary: Ary,
    pub assoc: Assoc,
    pub prec: u8,
}

/// A lexical token of an expression.
#[derive(Clone, PartialEq, Debug)]
pub enum Token {
    Number(u64),
    RealVar(String),
    BoolVar(String),
    Operator(Op),
    LeftBracket,
    RightBracket,
    Function(String),
}

/// What a token is, with identifiers seen as their characters.
pub ghost enum TokenModel {
    Number(u64),
    RealVar(Seq<char>),
    BoolVar(Seq<char>),
    Operator(Op),
    LeftBracket,
    RightBracket,
    Function(Seq<char>),
}

impl View for Token {
    type V = TokenModel;

    open spec fn view(&self) -> TokenModel {
        match self {
            Token::Number(n) => TokenModel::Number(*n),
            Token::RealVar(id) => TokenModel::RealVar(id@),
            Token::BoolVar(id) => TokenModel::BoolVar(id@),
            Token::Operator(op) => TokenModel::Operator(*op),
            Token::LeftBracket => TokenModel::LeftBracket,
            Token::RightBracket => TokenModel::RightBracket,
            Token::Function(name) => TokenModel::Function(name@),
        }
    }
}

/// The models of a sequence of tokens, one for one.
pub open spec fn models(ts: Seq<Token>) -> Seq<TokenModel> {
    ts.map_values(|t: Token| t@)
}

pub open spec fn binary_op(c: char, prec: u8) -> Op {
    Op { symbol: c, ary: Ary::Binary, assoc: Assoc::Left, prec }
}

pub open spec fn unary_op(c: char, prec: u8) -> Op {
    Op { symbol: c, ary: Ary::Unary, assoc: Assoc::Right, prec }
}

impl Token {
    /// A binary, left-associative operator.
    pub fn binary_left_assoc(c: char, prec: u8) -> (r: Token)
        ensures
            r == Token::Operator(binary_op(c, prec)),
    {
        Token::Operator(Op { ary: Ary::Binary, symbol: c, assoc: Assoc::Left, prec })
    }

    /// A unary, right-associative operator.
    pub fn unary_right_assoc(c: char, prec: u8) -> (r: Token)
        ensures
            r == Token::Operator(unary_op(c, prec)),
    {
        Token::Operator(Op { ary: Ary::Unary, symbol: c, assoc: Assoc::Right, prec })
    }

    pub fn is_operator(&self) -> (r: bool)
        ensures
            r == (self is Operator),
    {
        match self {
            Token::Operator(_) => true,
            _ => false,
        }
    }

    pub fn is_left_paren(&self) -> (r: bool)
        ensures
            r == (self is LeftBracket),
    {
        match self {
            Token::LeftBracket => true,
            _ => false,
        }
    }
}

} // verus!
