//! List primitives over parsed tokens: equality, atom test, head and tail,
//! and the atom-only evaluation stub.
use crate::grammar::{spec_read, TokenV};
use crate::reader::read;
use crate::token::{
    lemma_tokens_view_index, lemma_tokens_view_len, token_clone, tokens_view, Token,
};
use vstd::prelude::*;

verus! {

/// An atom: anything but a non-empty list, looking through quotes.
pub open spec fn spec_atom(t: TokenV) -> bool
    decreases t,
{
    match t {
        TokenV::List(l) => l.len() == 0,
        TokenV::Quote(q) => spec_atom(*q),
        _ => true,
    }
}

/// Whether `car`/`cdr` are defined: every list reached through quotes is
/// non-empty (both expect a first element).
pub open spec fn car_defined(t: TokenV) -> bool
    decreases t,
{
    match t {
        TokenV::List(l) => l.len() > 0,
        TokenV::Quote(q) => car_defined(*q),
        _ => true,
    }
}

/// The head of a list, looking through quotes; `None` off a list.
pub open spec fn spec_car(t: TokenV) -> Option<TokenV>
    decreases t,
{
    match t {
        TokenV::List(l) => if l.len() > 0 {
            Some(l[0])
        } else {
            None
        },
        TokenV::Quote(q) => spec_car(*q),
        _ => None,
    }
}

/// The tail of a list, looking through quotes; `None` off a list.
pub open spec fn spec_cdr(t: TokenV) -> Option<TokenV>
    decreases t,
{
    match t {
        TokenV::List(l) => if l.len() > 0 {
            Some(TokenV::List(l.drop_first()))
        } else {
            None
        },
        TokenV::Quote(q) => spec_cdr(*q),
        _ => None,
    }
}

pub open spec fn spec_is_car_sym(t: TokenV) -> bool {
    match spec_car(t) {
        Some(TokenV::Symbol(_)) => true,
        _ => false,
    }
}

proof fn lemma_car_cdr_some(t: TokenV)
    ensures
        (spec_car(t) is Some) == (spec_cdr(t) is Some),
    decreases t,
{
    if let TokenV::Quote(q) = t {
        lemma_car_cdr_some(*q);
    }
}

// ***** eq *****

/// Structural equality of two tokens.
pub fn eq(lhs: &Token, rhs: &Token) -> (r: bool)
    ensures
        r == (lhs@ == rhs@),
{
    lhs == rhs
}

// ***** atom *****

/// True for everything but a non-empty list, looking through quotes.
pub fn atom(tk: &Token) -> (r: bool)
    ensures
        r == spec_atom(tk@),
    decreases tk,
{
    match tk {
        Token::List(l) => {
            proof {
                lemma_tokens_view_len(l@);
            }
            l.len() == 0
        },
        Token::Quote(q) => atom(q),
        _ => true,
    }
}

// ***** car *****

/// The first element of a list, looking through quotes.
pub fn car<'a>(tk: &'a Token) -> (r: Option<&'a Token>)
    requires
        car_defined(tk@),
    ensures
        (match r {
            Some(t) => spec_car(tk@) == Some(t@),
            None => spec_car(tk@) is None,
        }),
    decreases tk,
{
    match tk {
        Token::List(l) => {
            proof {
                lemma_tokens_view_len(l@);
                lemma_tokens_view_index(l@, 0);
            }
            Some(&l[0])
        },
        Token::Quote(q) => car(q),
        _ => None,
    }
}

// ***** cdr *****

/// Everything after the first element of a list, looking through quotes.
pub fn cdr(tk: &Token) -> (r: Option<Token>)
    requires
        car_defined(tk@),
    ensures
        (match r {
            Some(t) => spec_cdr(tk@) == Some(t@),
            None => spec_cdr(tk@) is None,
        }),
    decreases tk,
{
    match tk {
        Token::List(l) => {
            proof {
                lemma_tokens_view_len(l@);
            }
            let n = l.len();
            let mut w: Vec<Token> = Vec::new();
            let mut i: usize = 1;
            #[verifier::loop_isolation(false)]
            while i < n
                invariant
                    1 <= i <= n,
                    w@.len() == i - 1,
                    forall|j: int|
                        0 <= j < i - 1 ==> tokens_view(w@)[j] == tokens_view(l@)[j + 1],
                decreases n - i,
            {
                let c = token_clone(&l[i]);
                proof {
                    crate::token::lemma_tokens_view_push(w@, c);
                    lemma_tokens_view_index(w@.push(c), i - 1);
                    lemma_tokens_view_index(l@, i as int);
                    lemma_tokens_view_len(w@);
                }
                w.push(c);
                i += 1;
            }
            proof {
                lemma_tokens_view_len(w@);
                assert(forall|j: int|
                    0 <= j < tokens_view(l@).drop_first().len() ==> tokens_view(
                        l@,
                    ).drop_first()[j] == tokens_view(l@)[j + 1]);
                assert(tokens_view(w@) =~= tokens_view(l@).drop_first());
            }
            Some(Token::List(w))
        },
        Token::Quote(q) => cdr(q),
        _ => None,
    }
}

// Check whether List's car is symbol or not.
pub fn is_car_sym(tk: &Token) -> (r: bool)
    requires
        car_defined(tk@),
    ensures
        r == spec_is_car_sym(tk@),
{
    match car(tk) {
        Some(t) => match t {
            Token::Symbol(_) => true,
            _ => false,
        },
        None => false,
    }
}

// If List's car is symbol, return symbol.
pub fn get_sym<'a>(tk: &'a Token) -> (r: Option<&'a Token>)
    requires
        car_defined(tk@),
    ensures
        (match r {
            Some(t) => spec_is_car_sym(tk@) && spec_car(tk@) == Some(t@),
            None => !spec_is_car_sym(tk@),
        }),
{
    if is_car_sym(tk) {
        Some(car(tk).unwrap())
    } else {
        None
    }
}

/// The arguments of a form whose head is a symbol.
pub fn get_args(tk: &Token) -> (r: Option<Token>)
    requires
        car_defined(tk@),
    ensures
        (match r {
            Some(t) => spec_is_car_sym(tk@) && spec_cdr(tk@) == Some(t@),
            None => !spec_is_car_sym(tk@),
        }),
{
    if is_car_sym(tk) {
        proof {
            lemma_car_cdr_some(tk@);
        }
        Some(cdr(tk).unwrap())
    } else {
        None
    }
}

/// The evaluation stub: an atom evaluates to itself, anything else to the
/// empty-list marker `Nil`.
pub fn eval(exp: &str) -> (r: Token)
    requires
        spec_read(exp@) is Ok,
    ensures
        r@ == (if spec_atom(spec_read(exp@)->Ok_0) {
            spec_read(exp@)->Ok_0
        } else {
            TokenV::Nil
        }),
{
    let token = read(exp).unwrap();
    if atom(&token) {
        token
    } else {
        Token::Nil
    }
}

} // verus!
