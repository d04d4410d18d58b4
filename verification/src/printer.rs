//! Printing a token back to text with the inverse grammar; re-reading the
//! result reproduces the token (see the round-trip law in `laws`).
use crate::grammar::{digit_char, digits_text, int_text, spec_print, spec_print_items};
use crate::reader::onigiri_chars_to_string;
use crate::token::{tokens_view, Token};
use vstd::prelude::*;

verus! {

fn digit_to_char(d: u64) -> (r: char)
    requires
        d <= 9,
    ensures
        r == digit_char(d as int),
{
    if d == 0 {
        '0'
    } else if d == 1 {
        '1'
    } else if d == 2 {
        '2'
    } else if d == 3 {
        '3'
    } else if d == 4 {
        '4'
    } else if d == 5 {
        '5'
    } else if d == 6 {
        '6'
    } else if d == 7 {
        '7'
    } else if d == 8 {
        '8'
    } else {
        '9'
    }
}

fn u64_digits(m: u64) -> (r: Vec<char>)
    ensures
        r@ == digits_text(m as int),
    decreases m,
{
    if m <= 9 {
        let mut v: Vec<char> = Vec::new();
        v.push(digit_to_char(m));
        proof {
            assert(v@ =~= seq![digit_char(m as int)]);
        }
        v
    } else {
        let mut v = u64_digits(m / 10);
        v.push(digit_to_char(m % 10));
        proof {
            assert(v@ =~= digits_text((m as int) / 10).push(digit_char((m as int) % 10)));
        }
        v
    }
}

proof fn lemma_digits_ascii(n: int)
    requires
        n >= 0,
    ensures
        forall|i: int|
            0 <= i < digits_text(n).len() ==> (#[trigger] digits_text(n)[i] as u32) < 128,
    decreases n,
{
    if n <= 9 {
        assert(digits_text(n)[0] == digit_char(n));
    } else {
        lemma_digits_ascii(n / 10);
        let d = digits_text(n);
        let hd = digits_text(n / 10);
        assert forall|i: int| 0 <= i < d.len() implies (#[trigger] d[i] as u32) < 128 by {
            if i < d.len() - 1 {
                assert(d[i] == hd[i]);
            } else {
                assert(d[i] == digit_char(n % 10));
            }
        }
    }
}

/// The decimal text of an `i64`, sign included.
fn int_to_string(i: i64) -> (r: String)
    ensures
        r@ == int_text(i as int),
{
    if i >= 0 {
        let digits = u64_digits(i as u64);
        proof {
            lemma_digits_ascii(i as int);
        }
        onigiri_chars_to_string(&digits)
    } else {
        let m = ((-(i + 1)) as u64) + 1;
        let digits = u64_digits(m);
        proof {
            lemma_digits_ascii(m as int);
        }
        let tail = onigiri_chars_to_string(&digits);
        let mut out = String::from_str("-");
        out.append(tail.as_str());
        proof {
            reveal_strlit("-");
            assert(out@ =~= seq!['-'] + digits_text(-(i as int)));
        }
        out
    }
}

/// Prints one token back to source text using the inverse grammar.
pub fn print_token(t: &Token) -> (r: String)
    ensures
        r@ == spec_print(t@),
    decreases t, 0int,
{
    match t {
        Token::T => {
            let r = String::from_str("t");
            proof {
                reveal_strlit("t");
                assert(r@ =~= seq!['t']);
            }
            r
        },
        Token::Nil => {
            let r = String::from_str("nil");
            proof {
                reveal_strlit("nil");
                assert(r@ =~= seq!['n', 'i', 'l']);
            }
            r
        },
        Token::Int(i) => int_to_string(*i),
        Token::Float(s) => s.clone(),
        Token::Symbol(s) => s.clone(),
        Token::Quote(q) => {
            let mut out = String::from_str("'");
            let inner = print_token(q);
            out.append(inner.as_str());
            proof {
                reveal_strlit("'");
                assert(out@ =~= seq!['\''] + spec_print(q@));
            }
            out
        },
        Token::Str(s) => {
            let mut out = String::from_str("\"");
            out.append(s.as_str());
            out.append("\"");
            proof {
                reveal_strlit("\"");
                assert(out@ =~= seq!['"'] + s@ + seq!['"']);
            }
            out
        },
        Token::List(v) => {
            let mut out = String::from_str("(");
            let items = print_items_from(v, 0);
            out.append(items.as_str());
            out.append(")");
            proof {
                reveal_strlit("(");
                reveal_strlit(")");
                assert(tokens_view(v@).skip(0) =~= tokens_view(v@));
                assert(out@ =~= seq!['('] + spec_print_items(tokens_view(v@)) + seq![')']);
            }
            out
        },
    }
}

/// The elements of `v` from `i` on, printed with single spaces between
/// neighbours.
fn print_items_from(v: &Vec<Token>, i: usize) -> (r: String)
    requires
        i <= v@.len(),
    ensures
        r@ == spec_print_items(tokens_view(v@).skip(i as int)),
    decreases v, v@.len() - i,
{
    proof {
        crate::token::lemma_tokens_view_len(v@);
    }
    if i == v.len() {
        let r = String::new();
        proof {
            assert(tokens_view(v@).skip(i as int) =~= Seq::<crate::grammar::TokenV>::empty());
        }
        r
    } else {
        proof {
            assert(decreases_to!(*v => v@));
            assert(decreases_to!(v@ => v@[i as int]));
            crate::token::lemma_tokens_view_index(v@, i as int);
            assert(tokens_view(v@).skip(i as int)[0] == tokens_view(v@)[i as int]);
        }
        let mut out = print_token(&v[i]);
        if i + 1 == v.len() {
            proof {
                assert(tokens_view(v@).skip(i as int).len() == 1);
            }
            out
        } else {
            out.append(" ");
            let rest = print_items_from(v, i + 1);
            out.append(rest.as_str());
            proof {
                reveal_strlit(" ");
                assert(tokens_view(v@).skip(i as int).drop_first() =~= tokens_view(v@).skip(
                    i + 1,
                ));
                assert(out@ =~= spec_print_items(tokens_view(v@).skip(i as int)));
            }
            out
        }
    }
}

} // verus!
