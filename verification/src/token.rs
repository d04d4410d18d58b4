//! The executable syntax tree the reader produces, with its abstract view,
//! deep equality and deep clone.
use crate::grammar::{LprpError, TokenV};
use vstd::prelude::*;

verus! {

/// One parsed form. A float literal is kept as its exact source text: the
/// reader never computes with it, and keeping the text makes printing the
/// token back an identity. Keyword and special symbols carry their
/// decorating punctuation as part of the `Symbol` text.
#[derive(Debug)]
pub enum Token {
    T,
    Nil,
    Int(i64),
    Float(String),
    Symbol(String),
    Quote(Box<Token>),
    Str(String),
    List(Vec<Token>),
}

pub open spec fn token_view(t: Token) -> TokenV
    decreases t,
{
    match t {
        Token::T => TokenV::True,
        Token::Nil => TokenV::Nil,
        Token::Int(i) => TokenV::Int(i as int),
        Token::Float(s) => TokenV::Float(s@),
        Token::Symbol(s) => TokenV::Symbol(s@),
        Token::Quote(q) => TokenV::Quote(Box::new(token_view(*q))),
        Token::Str(s) => TokenV::Str(s@),
        Token::List(v) => TokenV::List(tokens_view(v@)),
    }
}

pub open spec fn tokens_view(s: Seq<Token>) -> Seq<TokenV>
    decreases s,
{
    if s.len() == 0 {
        Seq::empty()
    } else {
        tokens_view(s.drop_last()).push(token_view(s.last()))
    }
}

impl View for Token {
    type V = TokenV;

    open spec fn view(&self) -> TokenV {
        token_view(*self)
    }
}

pub proof fn lemma_tokens_view_len(s: Seq<Token>)
    ensures
        tokens_view(s).len() == s.len(),
    decreases s,
{
    if s.len() > 0 {
        lemma_tokens_view_len(s.drop_last());
    }
}

pub proof fn lemma_tokens_view_index(s: Seq<Token>, i: int)
    requires
        0 <= i < s.len(),
    ensures
        tokens_view(s).len() == s.len(),
        tokens_view(s)[i] == token_view(s[i]),
    decreases s,
{
    lemma_tokens_view_len(s);
    if i < s.len() - 1 {
        lemma_tokens_view_index(s.drop_last(), i);
    }
}

pub proof fn lemma_tokens_view_push(s: Seq<Token>, t: Token)
    ensures
        tokens_view(s.push(t)) == tokens_view(s).push(token_view(t)),
{
    assert(s.push(t).drop_last() =~= s);
    assert(s.push(t).last() == t);
}

/// Deep structural equality, the meaning of `==` on tokens.
pub fn token_eq(a: &Token, b: &Token) -> (r: bool)
    ensures
        r == (a@ == b@),
    decreases a,
{
    match (a, b) {
        (Token::T, Token::T) => true,
        (Token::Nil, Token::Nil) => true,
        (Token::Int(x), Token::Int(y)) => x == y,
        (Token::Float(x), Token::Float(y)) => x.eq(y),
        (Token::Symbol(x), Token::Symbol(y)) => x.eq(y),
        (Token::Str(x), Token::Str(y)) => x.eq(y),
        (Token::Quote(x), Token::Quote(y)) => token_eq(x, y),
        (Token::List(x), Token::List(y)) => {
            if x.len() != y.len() {
                proof {
                    lemma_tokens_view_len(x@);
                    lemma_tokens_view_len(y@);
                }
                false
            } else {
                let n = x.len();
                let mut i: usize = 0;
                #[verifier::loop_isolation(false)]
                while i < n
                    invariant
                        n == x.len() == y.len(),
                        0 <= i <= n,
                        forall|j: int| 0 <= j < i ==> tokens_view(x@)[j] == tokens_view(y@)[j],
                    decreases n - i,
                {
                    proof {
                        lemma_tokens_view_index(x@, i as int);
                        lemma_tokens_view_index(y@, i as int);
                        assert(decreases_to!(*a => a->List_0));
                        assert(a->List_0 == *x);
                        assert(decreases_to!(*x => x@));
                        assert(decreases_to!(x@ => x@[i as int]));
                    }
                    if !token_eq(&x[i], &y[i]) {
                        proof {
                            assert(a@ == TokenV::List(tokens_view(x@)));
                            assert(b@ == TokenV::List(tokens_view(y@)));
                        }
                        return false;
                    }
                    i += 1;
                }
                proof {
                    lemma_tokens_view_len(x@);
                    lemma_tokens_view_len(y@);
                    assert(tokens_view(x@) =~= tokens_view(y@));
                }
                true
            }
        },
        _ => false,
    }
}

impl PartialEq for Token {
    fn eq(&self, other: &Token) -> (r: bool) {
        token_eq(self, other)
    }
}

impl vstd::std_specs::cmp::PartialEqSpecImpl for Token {
    open spec fn obeys_eq_spec() -> bool {
        true
    }

    open spec fn eq_spec(&self, other: &Token) -> bool {
        self@ == other@
    }
}

/// Deep copy; the copy has the same abstract value.
pub fn token_clone(t: &Token) -> (r: Token)
    ensures
        r@ == t@,
    decreases t,
{
    match t {
        Token::T => Token::T,
        Token::Nil => Token::Nil,
        Token::Int(i) => Token::Int(*i),
        Token::Float(s) => Token::Float(s.clone()),
        Token::Symbol(s) => Token::Symbol(s.clone()),
        Token::Str(s) => Token::Str(s.clone()),
        Token::Quote(q) => Token::Quote(Box::new(token_clone(q))),
        Token::List(v) => {
            let n = v.len();
            let mut w: Vec<Token> = Vec::new();
            let mut i: usize = 0;
            #[verifier::loop_isolation(false)]
            while i < n
                invariant
                    n == v.len(),
                    0 <= i <= n,
                    w@.len() == i,
                    forall|j: int| 0 <= j < i ==> tokens_view(w@)[j] == tokens_view(v@)[j],
                decreases n - i,
            {
                proof {
                    assert(decreases_to!(*t => t->List_0));
                    assert(t->List_0 == *v);
                    assert(decreases_to!(*v => v@));
                    assert(decreases_to!(v@ => v@[i as int]));
                }
                let c = token_clone(&v[i]);
                proof {
                    lemma_tokens_view_push(w@, c);
                    lemma_tokens_view_index(w@.push(c), i as int);
                    lemma_tokens_view_index(v@, i as int);
                    lemma_tokens_view_len(w@);
                }
                w.push(c);
                i += 1;
            }
            proof {
                lemma_tokens_view_len(w@);
                lemma_tokens_view_len(v@);
                assert(tokens_view(w@) =~= tokens_view(v@));
            }
            Token::List(w)
        },
    }
}

impl Clone for Token {
    fn clone(&self) -> (r: Token)
        ensures
            r@ == self@,
    {
        token_clone(self)
    }
}

impl Token {
    /// The integer a `Token::Int` holds; other tokens do not convert.
    pub fn into_int(self) -> (r: Result<i64, LprpError>)
        ensures
            match self@ {
                TokenV::Int(i) => r matches Ok(v) && v as int == i,
                _ => r matches Err(e) && e == LprpError::ConversionError,
            },
    {
        match self {
            Token::Int(i) => Ok(i),
            _ => Err(LprpError::ConversionError),
        }
    }

    /// The text of a `Token::Symbol`, or a `Token::Str` wrapped back in its
    /// double quotes; other tokens do not convert.
    pub fn into_string(self) -> (r: Result<String, LprpError>)
        ensures
            match self@ {
                TokenV::Symbol(s) => r matches Ok(v) && v@ == s,
                TokenV::Str(s) => r matches Ok(v) && v@ == seq!['"'] + s + seq!['"'],
                _ => r matches Err(e) && e == LprpError::ConversionError,
            },
    {
        match self {
            Token::Symbol(sym) => Ok(sym),
            Token::Str(s) => {
                let mut dq = String::from_str("\"");
                dq.append(s.as_str());
                dq.append("\"");
                proof {
                    reveal_strlit("\"");
                    assert(dq@ =~= seq!['"'] + s@ + seq!['"']);
                }
                Ok(dq)
            },
            _ => Err(LprpError::ConversionError),
        }
    }
}

impl LprpError {
    /// The error's name, for error reporting.
    pub fn description(&self) -> (r: String)
        ensures
            match *self {
                LprpError::SyntaxError => r@ == "SyntaxError"@,
                LprpError::ReadError => r@ == "ReadError"@,
                LprpError::ReadNumError => r@ == "ReadNumError"@,
                LprpError::ConversionError => r@ == "ConversionError: Not support its type."@,
                LprpError::RecursionDepthError => r@ == "RecursionDepthError"@,
            },
    {
        match *self {
            LprpError::SyntaxError => String::from_str("SyntaxError"),
            LprpError::ReadError => String::from_str("ReadError"),
            LprpError::ReadNumError => String::from_str("ReadNumError"),
            LprpError::ConversionError => String::from_str(
                "ConversionError: Not support its type.",
            ),
            LprpError::RecursionDepthError => String::from_str("RecursionDepthError"),
        }
    }
}

} // verus!
