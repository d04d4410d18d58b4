//! The top-level evaluation wrapper: lists and non-symbol atoms pass
//! through as read; a bare symbol is an error.
use crate::grammar::{spec_read, LprpError, TokenV};
use crate::reader::read;
use crate::token::Token;
use vstd::prelude::*;

verus! {

// Check Token::List or not.
fn is_list(token: &Token) -> (r: bool)
    ensures
        r == (token@ is List),
{
    match token {
        Token::List(_) => true,
        _ => false,
    }
}

// Check Token::Symbol or not.
fn is_sym(token: &Token) -> (r: bool)
    ensures
        r == (token@ is Symbol),
{
    match token {
        Token::Symbol(_) => true,
        _ => false,
    }
}

/// Reads one form and hands it back unless it is a bare symbol, which is a
/// `SyntaxError`; a read failure passes through unchanged.
pub fn eval(sexp: &str) -> (r: Result<Token, LprpError>)
    ensures
        (match spec_read(sexp@) {
            Ok(tv) => if tv is Symbol {
                r matches Err(e) && e == LprpError::SyntaxError
            } else {
                r matches Ok(t) && t@ == tv
            },
            Err(e) => r matches Err(e2) && e2 == e,
        }),
{
    match read(sexp) {
        Ok(tk) => {
            if is_list(&tk) {
                Ok(tk)
            } else {
                if is_sym(&tk) {
                    Err(LprpError::SyntaxError)
                } else {
                    Ok(tk)
                }
            }
        },
        Err(e) => Err(e),
    }
}

} // verus!
