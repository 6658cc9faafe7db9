//! Infix-to-postfix conversion of arithmetic and boolean expressions.
//!
//! The text is first split into tokens by [`lexer::lex`], which tells unary
//! signs from binary ones by what precedes them; [`postfix::rpn`] then
//! reorders the tokens with the shunting-yard algorithm.
pub mod lexer;
pub mod postfix;
pub mod render;
pub mod token;
