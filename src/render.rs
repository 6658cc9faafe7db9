use vstd::prelude::*;
use vstd::string::StringExecFns;

use crate::lexer::{decimal, digit_value, is_digit};
use crate::token::{Ary, Op, Token, TokenModel};

verus! {

/// The character shown for an operator: a unary `-` or `+` shows as `m` or
/// `p`, to tell it from the binary one; any other shows its symbol.
pub open spec fn shown_symbol(op: Op) -> char {
    if op.ary == Ary::Unary && op.symbol == '-' {
        'm'
    } else if op.ary == Ary::Unary && op.symbol == '+' {
        'p'
    } else {
        op.symbol
    }
}

/// `s` writes `n` in decimal, with no leading zero.
pub open spec fn is_decimal_text(s: Seq<char>, n: nat) -> bool {
    &&& s.len() > 0
    &&& forall|i: int| 0 <= i < s.len() ==> is_digit(#[trigger] s[i])
    &&& decimal(s) == n
    &&& (s.len() == 1 || s[0] != '0')
}

/// What a token shows as, where a number is written in decimal.
pub open spec fn shows_as(t: TokenModel, s: Seq<char>) -> bool {
    match t {
        TokenModel::Number(n) => is_decimal_text(s, n as nat),
        TokenModel::RealVar(id) => s == id,
        TokenModel::BoolVar(id) => s == id,
        TokenModel::Function(name) => s == name,
        TokenModel::Operator(op) => s == seq![shown_symbol(op)],
        TokenModel::LeftBracket => s == seq!['['],
        TokenModel::RightBracket => s == seq![']'],
    }
}

/// Relies on `char::to_string`: the string holds that one character.
#[verifier::external_body]
fn char_string(c: char) -> (r: String)
    ensures
        r@ == seq![c],
{
    c.to_string()
}

fn digit_char(d: u64) -> (c: char)
    requires
        d < 10,
    ensures
        is_digit(c),
        digit_value(c) == d,
{
    ((d as u8) + 48u8) as char
}

/// Appends `n` in decimal to `out`.
fn push_decimal(out: &mut String, n: u64)
    ensures
        exists|s: Seq<char>| is_decimal_text(s, n as nat) && final(out)@ == old(out)@ + s,
    decreases n,
{
    let c = digit_char(n % 10);
    if n >= 10 {
        push_decimal(out, n / 10);
        let ghost mid = out@;
        let ghost s = choose|s: Seq<char>| is_decimal_text(s, (n / 10) as nat) && mid == old(out)@ + s;
        out.append(char_string(c).as_str());
        proof {
            let t = s.push(c);
            assert(t.drop_last() =~= s);
            assert(out@ =~= old(out)@ + t);
            assert(t[0] == s[0]);
            assert forall|i: int| 0 <= i < t.len() implies is_digit(#[trigger] t[i]) by {
                if i < s.len() {
                    assert(t[i] == s[i]);
                }
            }
            assert(decimal(t) == decimal(s) * 10 + digit_value(c));
            assert((n / 10) * 10 + n % 10 == n);
            if s.len() == 1 && s[0] == '0' {
                assert(decimal(s.drop_last()) == 0);
            }
            assert(is_decimal_text(t, n as nat));
        }
    } else {
        out.append(char_string(c).as_str());
        proof {
            let t = seq![c];
            assert(t.drop_last() =~= Seq::<char>::empty());
            assert(decimal(t.drop_last()) == 0);
            assert(out@ =~= old(out)@ + t);
            assert(is_decimal_text(t, n as nat));
        }
    }
}

impl Token {
    /// The token as text: a number in decimal, a variable or function by its
    /// name, an operator by its symbol (a unary `-` or `+` as `m` or `p`), a
    /// bracket as `[` or `]`.
    pub fn text(&self) -> (r: String)
        ensures
            shows_as(self@, r@),
    {
        match self {
            Token::Number(n) => {
                let mut s = String::new();
                push_decimal(&mut s, *n);
                proof {
                    let w = choose|w: Seq<char>| is_decimal_text(w, *n as nat) && s@ == Seq::<char>::empty() + w;
                    assert(Seq::<char>::empty() + w =~= w);
                }
                s
            },
            Token::RealVar(id) => id.clone(),
            Token::BoolVar(id) => id.clone(),
            Token::Function(name) => name.clone(),
            Token::Operator(op) => {
                let shown = match op.ary {
                    Ary::Unary => if op.symbol == '-' {
                        'm'
                    } else if op.symbol == '+' {
                        'p'
                    } else {
                        op.symbol
                    },
                    Ary::Binary => op.symbol,
                };
                char_string(shown)
            },
            Token::LeftBracket => char_string('['),
            Token::RightBracket => char_string(']'),
        }
    }
}

} // verus!
