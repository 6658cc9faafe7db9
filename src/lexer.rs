use vstd::prelude::*;
use vstd::arithmetic::div_mod::{lemma_add_mod_noop, lemma_mod_twice, lemma_mul_mod_noop_left, lemma_small_mod};
use vstd::std_specs::iter::IteratorSpec;
use vstd::string::{StrSliceExecFns, axiom_spec_iter, next_postcondition};

use crate::token::{binary_op, models, unary_op, Op, Token, TokenModel};

verus! {

/// The character that `lex` could not place, and its index in the input,
/// counted in characters.
#[derive(Copy, Clone, PartialEq, Eq, Debug)]
pub struct LexError {
    pub ch: char,
    pub pos: usize,
}

pub open spec fn is_digit(c: char) -> bool {
    '0' <= c <= '9'
}

pub open spec fn is_alnum(c: char) -> bool {
    is_digit(c) || ('a' <= c <= 'z') || ('A' <= c <= 'Z')
}

/// The characters with Unicode's White_Space property.
pub open spec fn is_space(c: char) -> bool {
    ('\t' <= c <= '\r') || c == ' ' || c == '\u{85}' || c == '\u{a0}' || c == '\u{1680}'
        || ('\u{2000}' <= c <= '\u{200a}') || c == '\u{2028}' || c == '\u{2029}' || c
        == '\u{202f}' || c == '\u{205f}' || c == '\u{3000}'
}

pub open spec fn digit_value(c: char) -> nat {
    (c as u32 - '0' as u32) as nat
}

/// The value of a run of decimal digits.
pub open spec fn decimal(d: Seq<char>) -> nat
    decreases d.len(),
{
    if d.len() == 0 {
        0
    } else {
        decimal(d.drop_last()) * 10 + digit_value(d.last())
    }
}

/// A number token holds its value modulo 2^64.
pub open spec fn number_of(d: Seq<char>) -> u64 {
    (decimal(d) % 0x1_0000_0000_0000_0000) as u64
}

/// `+` or `-`: binary after an operand or a closing bracket, unary otherwise.
pub open spec fn sign_op(c: char, binary: bool) -> Op {
    if binary {
        binary_op(c, 5)
    } else {
        unary_op(c, 8)
    }
}

/// The operators whose form does not depend on what precedes them. Note that
/// `^` groups to the left like the other binary operators, although
/// exponentiation is usually read as grouping to the right.
pub open spec fn fixed_op(c: char) -> Option<Op> {
    if c == '*' || c == '/' {
        Some(binary_op(c, 7))
    } else if c == '^' {
        Some(binary_op(c, 6))
    } else if c == '<' || c == '>' || c == '=' || c == '#' {
        Some(binary_op(c, 4))
    } else if c == '~' {
        Some(unary_op(c, 3))
    } else if c == '&' || c == '!' {
        Some(binary_op(c, 2))
    } else {
        None
    }
}

/// Whether a token can start with `c`, or `c` is skipped as white space.
pub open spec fn is_known(c: char) -> bool {
    is_space(c) || is_digit(c) || c == '+' || c == '-' || fixed_op(c) is Some || c == 'R' || c
        == 'B' || c == '[' || c == '(' || c == ']' || c == ')'
}

/// The tokens of a text, or the character that starts none together with the
/// number of characters from it to the end of the text.
pub type Lexed = Result<Seq<TokenModel>, (char, nat)>;

pub open spec fn with_first(t: TokenModel, r: Lexed) -> Lexed {
    match r {
        Ok(ts) => Ok(seq![t] + ts),
        Err(c) => Err(c),
    }
}

pub open spec fn with_prefix(p: Seq<TokenModel>, r: Lexed) -> Lexed {
    match r {
        Ok(ts) => Ok(p + ts),
        Err(c) => Err(c),
    }
}

/// The tokens of `t`, or where the first character that starts none stands. `binary` tells
/// whether the previous token was an operand or a closing bracket.
pub open spec fn lex_seq(t: Seq<char>, binary: bool) -> Lexed
    decreases t.len(), 0int,
{
    if t.len() == 0 {
        Ok(Seq::empty())
    } else {
        let c = t[0];
        let rest = t.drop_first();
        if is_space(c) {
            lex_seq(rest, binary)
        } else if is_digit(c) {
            lex_number(rest, seq![c])
        } else if c == '+' || c == '-' {
            with_first(TokenModel::Operator(sign_op(c, binary)), lex_seq(rest, false))
        } else if fixed_op(c) is Some {
            with_first(TokenModel::Operator(fixed_op(c)->0), lex_seq(rest, false))
        } else if c == 'R' || c == 'B' {
            lex_ident(rest, seq![c])
        } else if c == '[' || c == '(' {
            with_first(TokenModel::LeftBracket, lex_seq(rest, false))
        } else if c == ']' || c == ')' {
            with_first(TokenModel::RightBracket, lex_seq(rest, true))
        } else {
            Err((c, t.len()))
        }
    }
}

/// A number whose digits so far are `d`, then the tokens of what follows.
pub open spec fn lex_number(t: Seq<char>, d: Seq<char>) -> Lexed
    decreases t.len(), 1int,
{
    if t.len() > 0 && is_digit(t[0]) {
        lex_number(t.drop_first(), d.push(t[0]))
    } else {
        with_first(TokenModel::Number(number_of(d)), lex_seq(t, true))
    }
}

/// A variable whose name so far is `id` (its first character tells real from
/// boolean), then the tokens of what follows.
pub open spec fn lex_ident(t: Seq<char>, id: Seq<char>) -> Lexed
    decreases t.len(), 1int,
{
    if t.len() > 0 && is_alnum(t[0]) {
        lex_ident(t.drop_first(), id.push(t[0]))
    } else {
        let v = if id[0] == 'R' {
            TokenModel::RealVar(id)
        } else {
            TokenModel::BoolVar(id)
        };
        with_first(v, lex_seq(t, true))
    }
}

fn chars_of(s: &str) -> (r: Vec<char>)
    ensures
        r@ == s@,
{
    broadcast use axiom_spec_iter, next_postcondition;

    let mut it = s.chars();
    let mut r: Vec<char> = Vec::new();
    loop
        invariant_except_break
            r@ + it.remaining() == s@,
        ensures
            r@ == s@,
        decreases s@.len() - r@.len(),
    {
        match it.next() {
            Some(c) => {
                r.push(c);
            },
            None => {
                break;
            },
        }
    }
    r
}

proof fn lemma_number_step(v: nat, d: nat)
    requires
        d < 10,
    ensures
        ((v % 0x1_0000_0000_0000_0000) * 10 % 0x1_0000_0000_0000_0000 + d)
            % 0x1_0000_0000_0000_0000 == (v * 10 + d) % 0x1_0000_0000_0000_0000,
{
    let m: int = 0x1_0000_0000_0000_0000;
    lemma_mul_mod_noop_left(v as int, 10, m);
    lemma_add_mod_noop(v as int * 10, d as int, m);
    lemma_small_mod(d, m as nat);
    lemma_mod_twice(v as int * 10, m);
}

/// Reads the maximal run of digits that starts at `start`; returns its value,
/// modulo 2^64, and the index just past it.
pub fn get_number(chars: &Vec<char>, start: usize) -> (r: (u64, usize))
    requires
        start < chars@.len(),
        is_digit(chars@[start as int]),
    ensures
        start < r.1 <= chars@.len(),
        forall|k: int| start <= k < r.1 ==> is_digit(#[trigger] chars@[k]),
        r.1 == chars@.len() || !is_digit(chars@[r.1 as int]),
        r.0 == number_of(chars@.subrange(start as int, r.1 as int)),
        lex_number(chars@.skip(start + 1), seq![chars@[start as int]]) == with_first(
            TokenModel::Number(r.0),
            lex_seq(chars@.skip(r.1 as int), true),
        ),
{
    let ghost s = chars@;
    let len = chars.len();
    let mut n: u64 = (chars[start] as u32 - '0' as u32) as u64;
    let mut k: usize = start + 1;
    proof {
        let d = s.subrange(start as int, k as int);
        assert(d.drop_last() =~= Seq::<char>::empty());
        assert(d =~= seq![s[start as int]]);
        assert(decimal(d.drop_last()) == 0);
        assert(decimal(d) == digit_value(s[start as int]));
        lemma_small_mod(decimal(d), 0x1_0000_0000_0000_0000);
    }
    while k < chars.len() && '0' <= chars[k] && chars[k] <= '9'
        invariant
            start < k <= s.len(),
            chars@ == s,
            forall|j: int| start <= j < k ==> is_digit(#[trigger] s[j]),
            n == number_of(s.subrange(start as int, k as int)),
            lex_number(s.skip(k as int), s.subrange(start as int, k as int)) == lex_number(
                s.skip(start + 1),
                seq![s[start as int]],
            ),
        decreases s.len() - k,
    {
        let d = (chars[k] as u32 - '0' as u32) as u64;
        proof {
            let old_d = s.subrange(start as int, k as int);
            let new_d = s.subrange(start as int, k + 1);
            assert(new_d.drop_last() =~= old_d);
            assert(s.skip(k as int).drop_first() =~= s.skip(k + 1));
            assert(old_d.push(s[k as int]) =~= new_d);
            lemma_number_step(decimal(old_d), d as nat);
        }
        n = n.wrapping_mul(10).wrapping_add(d);
        k = k + 1;
    }
    proof {
        let t = s.skip(k as int);
        if t.len() > 0 {
            assert(t[0] == s[k as int]);
        }
    }
    (n, k)
}

/// Reads the maximal run of letters and digits that starts at `start`; returns
/// it as a name and the index just past it.
pub fn get_identifier(input: &str, chars: &Vec<char>, start: usize) -> (r: (String, usize))
    requires
        chars@ == input@,
        start < chars@.len(),
        chars@[start as int] == 'R' || chars@[start as int] == 'B',
    ensures
        start < r.1 <= chars@.len(),
        r.0@ == chars@.subrange(start as int, r.1 as int),
        forall|k: int| start < k < r.1 ==> is_alnum(#[trigger] chars@[k]),
        r.1 == chars@.len() || !is_alnum(chars@[r.1 as int]),
        lex_ident(chars@.skip(start + 1), seq![chars@[start as int]]) == with_first(
            if chars@[start as int] == 'R' {
                TokenModel::RealVar(r.0@)
            } else {
                TokenModel::BoolVar(r.0@)
            },
            lex_seq(chars@.skip(r.1 as int), true),
        ),
{
    let ghost s = chars@;
    let len = chars.len();
    let mut k: usize = start + 1;
    proof {
        assert(s.subrange(start as int, k as int) =~= seq![s[start as int]]);
    }
    while k < len && is_alnum_char(chars[k])
        invariant
            start < k <= s.len(),
            len == s.len(),
            chars@ == s,
            forall|j: int| start < j < k ==> is_alnum(#[trigger] s[j]),
            s.subrange(start as int, k as int)[0] == s[start as int],
            lex_ident(s.skip(k as int), s.subrange(start as int, k as int)) == lex_ident(
                s.skip(start + 1),
                seq![s[start as int]],
            ),
        decreases s.len() - k,
    {
        proof {
            assert(s.skip(k as int).drop_first() =~= s.skip(k + 1));
            assert(s.subrange(start as int, k as int).push(s[k as int]) =~= s.subrange(
                start as int,
                k + 1,
            ));
        }
        k = k + 1;
    }
    proof {
        let t = s.skip(k as int);
        if t.len() > 0 {
            assert(t[0] == s[k as int]);
        }
    }
    let name = input.substring_char(start, k).to_owned();
    (name, k)
}

fn is_alnum_char(c: char) -> (r: bool)
    ensures
        r == is_alnum(c),
{
    ('0' <= c && c <= '9') || ('a' <= c && c <= 'z') || ('A' <= c && c <= 'Z')
}

fn is_space_char(c: char) -> (r: bool)
    ensures
        r == is_space(c),
{
    ('\t' <= c && c <= '\r') || c == ' ' || c == '\u{85}' || c == '\u{a0}' || c == '\u{1680}'
        || ('\u{2000}' <= c && c <= '\u{200a}') || c == '\u{2028}' || c == '\u{2029}' || c
        == '\u{202f}' || c == '\u{205f}' || c == '\u{3000}'
}

proof fn lemma_with_prefix_first(p: Seq<TokenModel>, t: TokenModel, r: Lexed)
    ensures
        with_prefix(p, with_first(t, r)) == with_prefix(p.push(t), r),
{
    if let Ok(ts) = r {
        assert(p + (seq![t] + ts) =~= p.push(t) + ts);
    }
}

/// Splits `input` into tokens, skipping white space. A `+` or `-` is binary
/// right after an operand or a closing bracket and unary elsewhere. Fails on
/// the first character that starts no token.
pub fn lex(input: &str) -> (r: Result<Vec<Token>, LexError>)
    ensures
        match r {
            Ok(v) => lex_seq(input@, false) == Ok::<Seq<TokenModel>, (char, nat)>(models(v@)),
            Err(e) => {
                &&& e.pos < input@.len()
                &&& input@[e.pos as int] == e.ch
                &&& !is_known(e.ch)
                &&& lex_seq(input@, false) == Err::<Seq<TokenModel>, (char, nat)>(
                    (e.ch, (input@.len() - e.pos) as nat),
                )
            },
        },
{
    let chars = chars_of(input);
    let ghost s = chars@;
    let len = chars.len();
    let mut result: Vec<Token> = Vec::with_capacity(len);
    // whether the previous token was an operand or a closing bracket
    let mut binary = false;
    let mut i: usize = 0;
    proof {
        assert(s.skip(0) =~= s);
        assert(models(result@) =~= Seq::<TokenModel>::empty());
        if let Ok(ts) = lex_seq(s, false) {
            assert(Seq::<TokenModel>::empty() + ts =~= ts);
        }
    }
    while i < len
        invariant
            i <= len,
            len == s.len(),
            chars@ == s,
            s == input@,
            with_prefix(models(result@), lex_seq(s.skip(i as int), binary)) == lex_seq(s, false),
        decreases len - i,
    {
        let c = chars[i];
        let ghost t = s.skip(i as int);
        proof {
            assert(t[0] == c);
            assert(t.drop_first() =~= s.skip(i + 1));
        }
        if is_space_char(c) {
            i = i + 1;
        } else {
            let (tok, next, operand): (Token, usize, bool) = if '0' <= c && c <= '9' {
                let (n, j) = get_number(&chars, i);
                (Token::Number(n), j, true)
            } else if c == '+' || c == '-' {
                if binary {
                    (Token::binary_left_assoc(c, 5), i + 1, false)
                } else {
                    (Token::unary_right_assoc(c, 8), i + 1, false)
                }
            } else if c == '*' || c == '/' {
                (Token::binary_left_assoc(c, 7), i + 1, false)
            } else if c == '^' {
                (Token::binary_left_assoc(c, 6), i + 1, false)
            } else if c == '<' || c == '>' || c == '=' || c == '#' {
                (Token::binary_left_assoc(c, 4), i + 1, false)
            } else if c == '~' {
                (Token::unary_right_assoc(c, 3), i + 1, false)
            } else if c == '&' || c == '!' {
                (Token::binary_left_assoc(c, 2), i + 1, false)
            } else if c == 'R' {
                let (id, j) = get_identifier(input, &chars, i);
                (Token::RealVar(id), j, true)
            } else if c == 'B' {
                let (id, j) = get_identifier(input, &chars, i);
                (Token::BoolVar(id), j, true)
            } else if c == '[' || c == '(' {
                (Token::LeftBracket, i + 1, false)
            } else if c == ']' || c == ')' {
                (Token::RightBracket, i + 1, true)
            } else {
                return Err(LexError { ch: c, pos: i });
            };
            proof {
                assert(with_first(tok@, lex_seq(s.skip(next as int), operand)) == lex_seq(
                    t,
                    binary,
                ));
                lemma_with_prefix_first(models(result@), tok@, lex_seq(s.skip(next as int), operand));
                assert(models(result@.push(tok)) =~= models(result@).push(tok@));
            }
            result.push(tok);
            binary = operand;
            i = next;
        }
    }
    proof {
        assert(s.skip(i as int) =~= Seq::<char>::empty());
        assert(models(result@) + Seq::<TokenModel>::empty() =~= models(result@));
    }
    Ok(result)
}

proof fn lemma_number_of_digits(t: Seq<char>, d: Seq<char>)
    requires
        forall|i: int| 0 <= i < t.len() ==> is_digit(#[trigger] t[i]),
    ensures
        lex_number(t, d) == Ok::<Seq<TokenModel>, (char, nat)>(
            seq![TokenModel::Number(number_of(d + t))],
        ),
    decreases t.len(),
{
    if t.len() == 0 {
        assert(lex_seq(t, true) == Ok::<Seq<TokenModel>, (char, nat)>(Seq::empty()));
        assert(d + t =~= d);
        assert(seq![TokenModel::Number(number_of(d))] + Seq::<TokenModel>::empty() =~= seq![
            TokenModel::Number(number_of(d)),
        ]);
    } else {
        assert(is_digit(t[0]));
        assert forall|i: int| 0 <= i < t.drop_first().len() implies is_digit(
            #[trigger] t.drop_first()[i],
        ) by {
            assert(t.drop_first()[i] == t[i + 1]);
        }
        lemma_number_of_digits(t.drop_first(), d.push(t[0]));
        assert(d.push(t[0]) + t.drop_first() =~= d + t);
    }
}

/// A text made of digits alone is one number token, whose value is the
/// decimal value of the text (modulo 2^64, so exactly that value when it fits).
pub proof fn lemma_digits_are_one_number(s: Seq<char>)
    requires
        s.len() > 0,
        forall|i: int| 0 <= i < s.len() ==> is_digit(#[trigger] s[i]),
    ensures
        lex_seq(s, false) == Ok::<Seq<TokenModel>, (char, nat)>(
            seq![TokenModel::Number(number_of(s))],
        ),
        decimal(s) < 0x1_0000_0000_0000_0000 ==> number_of(s) == decimal(s),
{
    assert(is_digit(s[0]));
    assert forall|i: int| 0 <= i < s.drop_first().len() implies is_digit(
        #[trigger] s.drop_first()[i],
    ) by {
        assert(s.drop_first()[i] == s[i + 1]);
    }
    lemma_number_of_digits(s.drop_first(), seq![s[0]]);
    assert(seq![s[0]] + s.drop_first() =~= s);
}

/// Whether the token `t` ends an operand: a number, a variable or a closing
/// bracket.
pub open spec fn ends_operand(t: TokenModel) -> bool {
    t is Number || t is RealVar || t is BoolVar || t is RightBracket
}

/// The `k`-th token, if it is a `+` or `-`, is binary exactly when it follows
/// a token that ends an operand (`first` stands for what precedes the first
/// token).
pub open spec fn sign_fits(ts: Seq<TokenModel>, k: int, first: bool) -> bool {
    match ts[k] {
        TokenModel::Operator(op) => (op.symbol == '+' || op.symbol == '-') ==> op == sign_op(
            op.symbol,
            if k == 0 {
                first
            } else {
                ends_operand(ts[k - 1])
            },
        ),
        _ => true,
    }
}

pub open spec fn signs_fit(ts: Seq<TokenModel>, first: bool) -> bool {
    forall|k: int| 0 <= k < ts.len() ==> #[trigger] sign_fits(ts, k, first)
}

pub open spec fn lexed_signs_fit(r: Lexed, first: bool) -> bool {
    match r {
        Ok(ts) => signs_fit(ts, first),
        Err(_) => true,
    }
}

proof fn lemma_signs_fit_first(t: TokenModel, r: Lexed, first: bool)
    requires
        lexed_signs_fit(r, ends_operand(t)),
        sign_fits(seq![t], 0, first),
    ensures
        lexed_signs_fit(with_first(t, r), first),
{
    if let Ok(ts) = r {
        let all = seq![t] + ts;
        assert forall|k: int| 0 <= k < all.len() implies #[trigger] sign_fits(all, k, first) by {
            if k > 0 {
                assert(all[k] == ts[k - 1]);
                assert(sign_fits(ts, k - 1, ends_operand(t)));
                if k > 1 {
                    assert(all[k - 1] == ts[k - 2]);
                }
            }
        }
    }
}

proof fn lemma_lex_seq_signs(t: Seq<char>, binary: bool)
    ensures
        lexed_signs_fit(lex_seq(t, binary), binary),
    decreases t.len(), 0int,
{
    if t.len() > 0 {
        let c = t[0];
        let rest = t.drop_first();
        if is_space(c) {
            lemma_lex_seq_signs(rest, binary);
        } else if is_digit(c) {
            lemma_lex_number_signs(rest, seq![c], binary);
        } else if c == '+' || c == '-' {
            lemma_lex_seq_signs(rest, false);
            lemma_signs_fit_first(TokenModel::Operator(sign_op(c, binary)), lex_seq(rest, false), binary);
        } else if fixed_op(c) is Some {
            lemma_lex_seq_signs(rest, false);
            lemma_signs_fit_first(TokenModel::Operator(fixed_op(c)->0), lex_seq(rest, false), binary);
        } else if c == 'R' || c == 'B' {
            lemma_lex_ident_signs(rest, seq![c], binary);
        } else if c == '[' || c == '(' {
            lemma_lex_seq_signs(rest, false);
            lemma_signs_fit_first(TokenModel::LeftBracket, lex_seq(rest, false), binary);
        } else if c == ']' || c == ')' {
            lemma_lex_seq_signs(rest, true);
            lemma_signs_fit_first(TokenModel::RightBracket, lex_seq(rest, true), binary);
        }
    }
}

proof fn lemma_lex_number_signs(t: Seq<char>, d: Seq<char>, binary: bool)
    ensures
        lexed_signs_fit(lex_number(t, d), binary),
    decreases t.len(), 1int,
{
    if t.len() > 0 && is_digit(t[0]) {
        lemma_lex_number_signs(t.drop_first(), d.push(t[0]), binary);
    } else {
        lemma_lex_seq_signs(t, true);
        lemma_signs_fit_first(TokenModel::Number(number_of(d)), lex_seq(t, true), binary);
    }
}

proof fn lemma_lex_ident_signs(t: Seq<char>, id: Seq<char>, binary: bool)
    ensures
        lexed_signs_fit(lex_ident(t, id), binary),
    decreases t.len(), 1int,
{
    if t.len() > 0 && is_alnum(t[0]) {
        lemma_lex_ident_signs(t.drop_first(), id.push(t[0]), binary);
    } else {
        lemma_lex_seq_signs(t, true);
        let v = if id[0] == 'R' {
            TokenModel::RealVar(id)
        } else {
            TokenModel::BoolVar(id)
        };
        lemma_signs_fit_first(v, lex_seq(t, true), binary);
    }
}

/// In the tokens of any text, a `+` or `-` is binary (precedence 5, left
/// associative) exactly when the token before it is a number, a variable or a
/// closing bracket, and unary (precedence 8, right associative) when it comes
/// first or after an operator or an opening bracket.
pub proof fn lemma_sign_arity(s: Seq<char>)
    ensures
        lexed_signs_fit(lex_seq(s, false), false),
{
    lemma_lex_seq_signs(s, false);
}

/// Whether `c` can stand nowhere in a text that lexes: it starts no token, is
/// not white space, and cannot continue a name.
pub open spec fn is_stray(c: char) -> bool {
    !is_known(c) && !is_alnum(c)
}

proof fn lemma_lex_seq_fails(t: Seq<char>, binary: bool, j: int)
    requires
        0 <= j < t.len(),
        is_stray(t[j]),
    ensures
        lex_seq(t, binary) is Err,
    decreases t.len(), 0int,
{
    let c = t[0];
    let rest = t.drop_first();
    if j > 0 {
        assert(rest[j - 1] == t[j]);
        if is_space(c) {
            lemma_lex_seq_fails(rest, binary, j - 1);
        } else if is_digit(c) {
            lemma_lex_number_fails(rest, seq![c], j - 1);
        } else if c == '+' || c == '-' || fixed_op(c) is Some || c == '[' || c == '(' {
            lemma_lex_seq_fails(rest, false, j - 1);
        } else if c == 'R' || c == 'B' {
            lemma_lex_ident_fails(rest, seq![c], j - 1);
        } else if c == ']' || c == ')' {
            lemma_lex_seq_fails(rest, true, j - 1);
        }
    }
}

proof fn lemma_lex_number_fails(t: Seq<char>, d: Seq<char>, j: int)
    requires
        0 <= j < t.len(),
        is_stray(t[j]),
    ensures
        lex_number(t, d) is Err,
    decreases t.len(), 1int,
{
    if is_digit(t[0]) {
        assert(t.drop_first()[j - 1] == t[j]);
        lemma_lex_number_fails(t.drop_first(), d.push(t[0]), j - 1);
    } else {
        lemma_lex_seq_fails(t, true, j);
    }
}

proof fn lemma_lex_ident_fails(t: Seq<char>, id: Seq<char>, j: int)
    requires
        0 <= j < t.len(),
        is_stray(t[j]),
    ensures
        lex_ident(t, id) is Err,
    decreases t.len(), 1int,
{
    if is_alnum(t[0]) {
        assert(t.drop_first()[j - 1] == t[j]);
        lemma_lex_ident_fails(t.drop_first(), id.push(t[0]), j - 1);
    } else {
        lemma_lex_seq_fails(t, true, j);
    }
}

/// A character that starts no token, is no white space and cannot continue a
/// name (such as `@`) makes lexing fail wherever it stands. The failure names
/// a character that starts no token, at the place where lexing stopped (see
/// the contract of `lex`).
pub proof fn lemma_stray_character_fails(s: Seq<char>, j: int)
    requires
        0 <= j < s.len(),
        is_stray(s[j]),
    ensures
        lex_seq(s, false) is Err,
{
    lemma_lex_seq_fails(s, false, j);
}

} // verus!
