//! The recursive-descent reader: a single-character-lookahead cursor, the
//! atom readers, the list and quote readers, and the public `read` entry.
//! Every reader's result is pinned to the specification parser in
//! `grammar`.
use crate::grammar::{
    count_char, in_class, in_i64, int_text_val, is_alpha, is_digit, is_int_text, is_kw_char,
    is_num_char, is_sp_char, is_sym_char, onigiri_float_text, onigiri_int_text, run_end,
    spec_expr_items, spec_form, spec_keyword, spec_list_items, spec_num, spec_read,
    spec_special, spec_string, spec_symbol, CharClass, LprpError, TokenV, MAX_DEPTH,
};
use crate::token::{
    lemma_tokens_view_index, lemma_tokens_view_len, lemma_tokens_view_push, tokens_view, Token,
};
use vstd::prelude::*;

verus! {

/// A single-character-lookahead view over the input text.
pub struct Cursor {
    chars: Vec<char>,
    pos: usize,
}

impl Cursor {
    /// The whole input text.
    pub closed spec fn text(&self) -> Seq<char> {
        self.chars@
    }

    /// The position of the next character to read.
    pub closed spec fn at(&self) -> int {
        self.pos as int
    }

    pub closed spec fn wf(&self) -> bool {
        self.pos <= self.chars@.len()
    }

    pub fn new(s: &str) -> (c: Cursor)
        ensures
            c.wf(),
            c.text() == s@,
            c.at() == 0,
    {
        let n = s.unicode_len();
        let mut chars: Vec<char> = Vec::new();
        let mut i: usize = 0;
        while i < n
            invariant
                n == s@.len(),
                0 <= i <= n,
                chars@.len() == i,
                forall|j: int| 0 <= j < i ==> chars@[j] == s@[j],
            decreases n - i,
        {
            chars.push(s.get_char(i));
            i += 1;
        }
        proof {
            assert(chars@ =~= s@);
        }
        Cursor { chars, pos: 0 }
    }

    /// The next character, without consuming it.
    pub fn peek(&self) -> (r: Option<char>)
        requires
            self.wf(),
        ensures
            r == if self.at() < self.text().len() {
                Some(self.text()[self.at()])
            } else {
                None::<char>
            },
    {
        if self.pos < self.chars.len() {
            Some(self.chars[self.pos])
        } else {
            None
        }
    }

    /// Consume exactly one character.
    pub fn advance(&mut self)
        requires
            old(self).wf(),
            old(self).at() < old(self).text().len(),
        ensures
            final(self).wf(),
            final(self).text() == old(self).text(),
            final(self).at() == old(self).at() + 1,
    {
        let n = self.chars.len();
        self.pos = self.pos + 1;
        proof {
            assert(self.pos <= n);
        }
    }
}

// ***** Trusted views of the outside calls *****

/// Relies on `onigiri::validator::is_integer`: on a non-empty run it
/// accepts all-digits, or a leading minus followed by digits — a lone minus
/// included (its positive check accepts the empty tail). On an empty slice
/// it panics, hence the precondition.
#[verifier::external_body]
fn onigiri_is_integer(v: &Vec<char>) -> (r: bool)
    requires
        v@.len() > 0,
    ensures
        r == onigiri_int_text(v@),
{
    onigiri::validator::is_integer(v)
}

/// Relies on `onigiri::validator::is_float`: on a non-empty run it accepts
/// exactly one dot with every other character a digit, optionally after a
/// leading minus — the dot may stand first or last. On an empty slice it
/// panics, hence the precondition.
#[verifier::external_body]
fn onigiri_is_float(v: &Vec<char>) -> (r: bool)
    requires
        v@.len() > 0,
    ensures
        r == onigiri_float_text(v@),
{
    onigiri::validator::is_float(v)
}

/// Relies on `onigiri::utils::cast::<i64>`, which validates with its own
/// `is_integer`/`is_float` and then defers to `str::parse::<i64>`: on a run
/// its validator accepts, it returns the decimal value when the run matches
/// the strict integer grammar and fits in `i64`, and `None` otherwise (a
/// lone minus, or overflow).
#[verifier::external_body]
fn onigiri_cast_i64(v: &Vec<char>) -> (r: Option<i64>)
    requires
        v@.len() > 0,
        onigiri_int_text(v@),
    ensures
        is_int_text(v@) && in_i64(int_text_val(v@)) ==> r == Some(int_text_val(v@) as i64),
        !(is_int_text(v@) && in_i64(int_text_val(v@))) ==> r is None,
{
    onigiri::utils::cast::<i64>(v)
}

/// Relies on `onigiri::utils::chars_to_string`: it narrows each character
/// to a byte, so on ASCII characters (the only ones the callers hand it) it
/// rebuilds exactly the given text.
#[verifier::external_body]
pub(crate) fn onigiri_chars_to_string(v: &Vec<char>) -> (r: String)
    requires
        forall|i: int| 0 <= i < v@.len() ==> (v@[i] as u32) < 128,
    ensures
        r@ == v@,
{
    onigiri::utils::chars_to_string(v)
}

/// Relies on std `String::push`: appends the given character to the end.
#[verifier::external_body]
pub(crate) fn push_char(s: &mut String, c: char)
    ensures
        final(s)@ == old(s)@.push(c),
{
    s.push(c);
}

// ***** Character predicates *****

/// Characters the number reader consumes.
pub fn is_lprp_num(ch: &char) -> (r: bool)
    ensures
        r == is_num_char(*ch),
{
    let c = *ch;
    (c >= '0' && c <= '9') || c == '-' || c == '.'
}

/// Characters a plain symbol is made of.
pub fn is_lprp_symbol(ch: &char) -> (r: bool)
    ensures
        r == is_sym_char(*ch),
{
    let c = *ch;
    (c >= 'a' && c <= 'z') || (c >= 'A' && c <= 'Z') || c == '-'
}

/// Characters the keyword reader consumes.
pub fn is_lprp_keyword(ch: &char) -> (r: bool)
    ensures
        r == is_kw_char(*ch),
{
    is_lprp_symbol(ch) || *ch == ':'
}

/// Characters the special reader consumes.
pub fn is_lprp_special(ch: &char) -> (r: bool)
    ensures
        r == is_sp_char(*ch),
{
    is_lprp_symbol(ch) || *ch == '*'
}

fn is_digit_char_exec(c: char) -> (r: bool)
    ensures
        r == is_digit(c),
{
    c >= '0' && c <= '9'
}

fn count_occurrences(v: &Vec<char>, c: char) -> (r: usize)
    ensures
        r == count_char(v@, c),
{
    let mut cnt: usize = 0;
    let mut i: usize = 0;
    while i < v.len()
        invariant
            0 <= i <= v@.len(),
            cnt <= i,
            cnt == count_char(v@.subrange(0, i as int), c),
        decreases v@.len() - i,
    {
        let hit = v[i] == c;
        proof {
            assert(v@.subrange(0, i + 1).drop_last() =~= v@.subrange(0, i as int));
            assert(v@.subrange(0, i + 1).last() == v@[i as int]);
        }
        if hit {
            cnt += 1;
        }
        i += 1;
    }
    proof {
        assert(v@.subrange(0, v@.len() as int) =~= v@);
    }
    cnt
}

// ***** Int, Float *****

/// Reads the maximal run of number characters and classifies it: the
/// integer grammar yields `Int`, the float grammar yields `Float` (kept as
/// its text), anything else — a lone minus, stray dots, an integer beyond
/// `i64` — fails with `ReadNumError`.
pub fn read_num(chars: &mut Cursor) -> (r: Result<Token, LprpError>)
    requires
        old(chars).wf(),
        old(chars).at() < old(chars).text().len(),
        is_num_char(old(chars).text()[old(chars).at()]),
    ensures
        final(chars).wf(),
        final(chars).text() == old(chars).text(),
        old(chars).at() < final(chars).at() <= old(chars).text().len(),
        final(chars).at() == run_end(old(chars).text(), old(chars).at(), CharClass::Num),
        (match spec_num(old(chars).text(), old(chars).at()) {
            Ok((tv, end)) => r matches Ok(t) && t@ == tv && final(chars).at() == end,
            Err(e) => r matches Err(e2) && e2 == e,
        }),
{
    let ghost s = chars.text();
    let ghost p0 = chars.at();
    let mut num: Vec<char> = Vec::new();
    loop
        invariant
            chars.wf(),
            chars.text() == s,
            0 <= p0 <= chars.at() <= s.len(),
            num@ == s.subrange(p0, chars.at()),
            forall|i: int| p0 <= i < chars.at() ==> in_class(CharClass::Num, s[i]),
        ensures
            chars.wf(),
            chars.text() == s,
            0 <= p0 <= chars.at() <= s.len(),
            num@ == s.subrange(p0, chars.at()),
            forall|i: int| p0 <= i < chars.at() ==> in_class(CharClass::Num, s[i]),
            chars.at() == s.len() || !in_class(CharClass::Num, s[chars.at()]),
        decreases s.len() - chars.at(),
    {
        match chars.peek() {
            Some(c) => {
                if is_lprp_num(&c) {
                    num.push(c);
                    chars.advance();
                    proof {
                        assert(num@ =~= s.subrange(p0, chars.at()));
                    }
                } else {
                    break ;
                }
            },
            None => {
                break ;
            },
        }
    }
    proof {
        crate::grammar::lemma_run_end_is(s, p0, chars.at(), CharClass::Num);
        assert(chars.at() > p0);
        assert(num@.len() > 0);
    }
    let ghost buf = s.subrange(p0, run_end(s, p0, CharClass::Num));
    proof {
        assert(buf == num@);
        crate::grammar::lemma_strict_implies_onigiri(buf);
    }
    if onigiri_is_integer(&num) {
        proof {
            crate::grammar::lemma_int_not_float(buf);
        }
        match onigiri_cast_i64(&num) {
            Some(i) => Ok(Token::Int(i)),
            None => Err(LprpError::ReadNumError),
        }
    } else if onigiri_is_float(&num) {
        proof {
            crate::grammar::lemma_float_shape(buf);
        }
        let nlen = num.len();
        let shape_ok = if num[0] == '-' {
            nlen >= 2 && is_digit_char_exec(num[1]) && is_digit_char_exec(num[nlen - 1])
        } else {
            is_digit_char_exec(num[0]) && is_digit_char_exec(num[nlen - 1])
        };
        if shape_ok {
            proof {
                assert(forall|i: int|
                    0 <= i < num@.len() ==> is_num_char(#[trigger] num@[i]) && (num@[i] as u32)
                        < 128);
            }
            Ok(Token::Float(onigiri_chars_to_string(&num)))
        } else {
            Err(LprpError::ReadNumError)
        }
    } else {
        Err(LprpError::ReadNumError)
    }
}

// ***** Symbol *****

/// Reads the maximal run of symbol characters; `nil` and `NIL` yield the
/// `Nil` literal, `t` yields the true literal, anything else a `Symbol`.
pub fn read_symbol(chars: &mut Cursor) -> (r: Token)
    requires
        old(chars).wf(),
        old(chars).at() < old(chars).text().len(),
        is_sym_char(old(chars).text()[old(chars).at()]),
    ensures
        final(chars).wf(),
        final(chars).text() == old(chars).text(),
        old(chars).at() < final(chars).at() <= old(chars).text().len(),
        r@ == spec_symbol(old(chars).text(), old(chars).at()).0,
        final(chars).at() == spec_symbol(old(chars).text(), old(chars).at()).1,
{
    let ghost s = chars.text();
    let ghost p0 = chars.at();
    let mut sym: Vec<char> = Vec::new();
    loop
        invariant
            chars.wf(),
            chars.text() == s,
            0 <= p0 <= chars.at() <= s.len(),
            sym@ == s.subrange(p0, chars.at()),
            forall|i: int| p0 <= i < chars.at() ==> in_class(CharClass::Sym, s[i]),
        ensures
            chars.wf(),
            chars.text() == s,
            0 <= p0 <= chars.at() <= s.len(),
            sym@ == s.subrange(p0, chars.at()),
            forall|i: int| p0 <= i < chars.at() ==> in_class(CharClass::Sym, s[i]),
            chars.at() == s.len() || !in_class(CharClass::Sym, s[chars.at()]),
        decreases s.len() - chars.at(),
    {
        match chars.peek() {
            Some(c) => {
                if is_lprp_symbol(&c) {
                    sym.push(c);
                    chars.advance();
                    proof {
                        assert(sym@ =~= s.subrange(p0, chars.at()));
                    }
                } else {
                    break ;
                }
            },
            None => {
                break ;
            },
        }
    }
    proof {
        crate::grammar::lemma_run_end_is(s, p0, chars.at(), CharClass::Sym);
        assert(chars.at() > p0);
    }
    if sym.len() == 3 && sym[0] == 'n' && sym[1] == 'i' && sym[2] == 'l' {
        proof {
            assert(sym@ =~= seq!['n', 'i', 'l']);
        }
        Token::Nil
    } else if sym.len() == 3 && sym[0] == 'N' && sym[1] == 'I' && sym[2] == 'L' {
        proof {
            assert(sym@ =~= seq!['N', 'I', 'L']);
        }
        Token::Nil
    } else if sym.len() == 1 && sym[0] == 't' {
        proof {
            assert(sym@ =~= seq!['t']);
        }
        Token::T
    } else {
        proof {
            assert(sym@ != seq!['n', 'i', 'l'] && sym@ != seq!['N', 'I', 'L'] && sym@ != seq![
                't',
            ]) by {
                assert(seq!['n', 'i', 'l'].len() == 3 && seq!['n', 'i', 'l'][0] == 'n' && seq![
                    'n',
                    'i',
                    'l',
                ][1] == 'i' && seq!['n', 'i', 'l'][2] == 'l');
                assert(seq!['N', 'I', 'L'].len() == 3 && seq!['N', 'I', 'L'][0] == 'N' && seq![
                    'N',
                    'I',
                    'L',
                ][1] == 'I' && seq!['N', 'I', 'L'][2] == 'L');
                assert(seq!['t'].len() == 1 && seq!['t'][0] == 't');
            }
            assert(forall|i: int|
                0 <= i < sym@.len() ==> is_sym_char(#[trigger] sym@[i]) && (sym@[i] as u32)
                    < 128);
        }
        Token::Symbol(onigiri_chars_to_string(&sym))
    }
}

// ***** Keyword Symbol *****

/// Reads the maximal run of keyword characters; it is a `Symbol` (leading
/// colon included) iff it holds exactly one colon and that colon stands
/// first, and a `SyntaxError` otherwise.
pub fn read_keyword(chars: &mut Cursor) -> (r: Result<Token, LprpError>)
    requires
        old(chars).wf(),
        old(chars).at() < old(chars).text().len(),
        is_kw_char(old(chars).text()[old(chars).at()]),
    ensures
        final(chars).wf(),
        final(chars).text() == old(chars).text(),
        old(chars).at() < final(chars).at() <= old(chars).text().len(),
        final(chars).at() == run_end(old(chars).text(), old(chars).at(), CharClass::Kw),
        (match spec_keyword(old(chars).text(), old(chars).at()) {
            Ok((tv, end)) => r matches Ok(t) && t@ == tv && final(chars).at() == end,
            Err(e) => r matches Err(e2) && e2 == e,
        }),
{
    let ghost s = chars.text();
    let ghost p0 = chars.at();
    let mut k: Vec<char> = Vec::new();
    loop
        invariant
            chars.wf(),
            chars.text() == s,
            0 <= p0 <= chars.at() <= s.len(),
            k@ == s.subrange(p0, chars.at()),
            forall|i: int| p0 <= i < chars.at() ==> in_class(CharClass::Kw, s[i]),
        ensures
            chars.wf(),
            chars.text() == s,
            0 <= p0 <= chars.at() <= s.len(),
            k@ == s.subrange(p0, chars.at()),
            forall|i: int| p0 <= i < chars.at() ==> in_class(CharClass::Kw, s[i]),
            chars.at() == s.len() || !in_class(CharClass::Kw, s[chars.at()]),
        decreases s.len() - chars.at(),
    {
        match chars.peek() {
            Some(c) => {
                if is_lprp_keyword(&c) {
                    k.push(c);
                    chars.advance();
                    proof {
                        assert(k@ =~= s.subrange(p0, chars.at()));
                    }
                } else {
                    break ;
                }
            },
            None => {
                break ;
            },
        }
    }
    proof {
        crate::grammar::lemma_run_end_is(s, p0, chars.at(), CharClass::Kw);
        assert(chars.at() > p0);
    }
    let cnt = count_occurrences(&k, ':');
    if cnt == 1 && k[0] == ':' {
        proof {
            assert(forall|i: int|
                0 <= i < k@.len() ==> is_kw_char(#[trigger] k@[i]) && (k@[i] as u32) < 128);
        }
        Ok(Token::Symbol(onigiri_chars_to_string(&k)))
    } else {
        Err(LprpError::SyntaxError)
    }
}

// ***** Special Symbol *****

/// Reads the maximal run of special characters; it is a `Symbol` (both
/// asterisks included) iff it holds exactly two asterisks, they stand first
/// and last, and something stands between them; otherwise a `SyntaxError`.
pub fn read_special(chars: &mut Cursor) -> (r: Result<Token, LprpError>)
    requires
        old(chars).wf(),
        old(chars).at() < old(chars).text().len(),
        is_sp_char(old(chars).text()[old(chars).at()]),
    ensures
        final(chars).wf(),
        final(chars).text() == old(chars).text(),
        old(chars).at() < final(chars).at() <= old(chars).text().len(),
        final(chars).at() == run_end(old(chars).text(), old(chars).at(), CharClass::Sp),
        (match spec_special(old(chars).text(), old(chars).at()) {
            Ok((tv, end)) => r matches Ok(t) && t@ == tv && final(chars).at() == end,
            Err(e) => r matches Err(e2) && e2 == e,
        }),
{
    let ghost s = chars.text();
    let ghost p0 = chars.at();
    let mut sp: Vec<char> = Vec::new();
    loop
        invariant
            chars.wf(),
            chars.text() == s,
            0 <= p0 <= chars.at() <= s.len(),
            sp@ == s.subrange(p0, chars.at()),
            forall|i: int| p0 <= i < chars.at() ==> in_class(CharClass::Sp, s[i]),
        ensures
            chars.wf(),
            chars.text() == s,
            0 <= p0 <= chars.at() <= s.len(),
            sp@ == s.subrange(p0, chars.at()),
            forall|i: int| p0 <= i < chars.at() ==> in_class(CharClass::Sp, s[i]),
            chars.at() == s.len() || !in_class(CharClass::Sp, s[chars.at()]),
        decreases s.len() - chars.at(),
    {
        match chars.peek() {
            Some(c) => {
                if is_lprp_special(&c) {
                    sp.push(c);
                    chars.advance();
                    proof {
                        assert(sp@ =~= s.subrange(p0, chars.at()));
                    }
                } else {
                    break ;
                }
            },
            None => {
                break ;
            },
        }
    }
    proof {
        crate::grammar::lemma_run_end_is(s, p0, chars.at(), CharClass::Sp);
        assert(chars.at() > p0);
    }
    let cnt = count_occurrences(&sp, '*');
    let n = sp.len();
    if cnt == 2 && n >= 3 && sp[0] == '*' && sp[n - 1] == '*' {
        proof {
            assert(forall|i: int|
                0 <= i < sp@.len() ==> is_sp_char(#[trigger] sp@[i]) && (sp@[i] as u32) < 128);
        }
        Ok(Token::Symbol(onigiri_chars_to_string(&sp)))
    } else {
        Err(LprpError::SyntaxError)
    }
}

// ***** Str *****

/// Reads everything between the opening double quote and the next double
/// quote, verbatim — no escape processing. Input that ends before a closing
/// quote is a `SyntaxError`.
pub fn read_string(chars: &mut Cursor) -> (r: Result<Token, LprpError>)
    requires
        old(chars).wf(),
        old(chars).at() < old(chars).text().len(),
        old(chars).text()[old(chars).at()] == '"',
    ensures
        final(chars).wf(),
        final(chars).text() == old(chars).text(),
        old(chars).at() < final(chars).at() <= old(chars).text().len(),
        (match spec_string(old(chars).text(), old(chars).at()) {
            Ok((tv, end)) => r matches Ok(t) && t@ == tv && final(chars).at() == end,
            Err(e) => r matches Err(e2) && e2 == e,
        }),
{
    let ghost s = chars.text();
    let ghost p0 = chars.at();
    chars.advance();
    let mut collected = String::new();
    loop
        invariant
            chars.wf(),
            chars.text() == s,
            0 <= p0 < p0 + 1 <= chars.at() <= s.len(),
            collected@ == s.subrange(p0 + 1, chars.at()),
            forall|i: int| p0 + 1 <= i < chars.at() ==> in_class(CharClass::StrBody, s[i]),
        ensures
            chars.wf(),
            chars.text() == s,
            0 <= p0 < p0 + 1 <= chars.at() <= s.len(),
            collected@ == s.subrange(p0 + 1, chars.at()),
            forall|i: int| p0 + 1 <= i < chars.at() ==> in_class(CharClass::StrBody, s[i]),
            chars.at() == s.len() || !in_class(CharClass::StrBody, s[chars.at()]),
        decreases s.len() - chars.at(),
    {
        match chars.peek() {
            Some(c) => {
                if c != '"' {
                    push_char(&mut collected, c);
                    chars.advance();
                    proof {
                        assert(collected@ =~= s.subrange(p0 + 1, chars.at()));
                    }
                } else {
                    break ;
                }
            },
            None => {
                break ;
            },
        }
    }
    proof {
        crate::grammar::lemma_run_end_is(s, p0 + 1, chars.at(), CharClass::StrBody);
    }
    match chars.peek() {
        Some(_) => {
            chars.advance();
            Ok(Token::Str(collected))
        },
        None => Err(LprpError::SyntaxError),
    }
}

fn is_alpha_exec(c: char) -> (r: bool)
    ensures
        r == is_alpha(c),
{
    (c >= 'a' && c <= 'z') || (c >= 'A' && c <= 'Z')
}

// ***** The dispatcher and the compound readers *****

/// Reads one form, dispatching on the lookahead character; shared by the
/// list reader and the top-level reader. `depth` is the remaining nesting
/// allowance for lists and quotes.
pub fn read_form(chars: &mut Cursor, depth: u64) -> (r: Result<Token, LprpError>)
    requires
        old(chars).wf(),
    ensures
        final(chars).wf(),
        final(chars).text() == old(chars).text(),
        old(chars).at() <= final(chars).at() <= old(chars).text().len(),
        (match spec_form(old(chars).text(), old(chars).at(), depth as nat) {
            Ok((tv, end)) => r matches Ok(t) && t@ == tv && final(chars).at() == end
                && old(chars).at() < end,
            Err(e) => r matches Err(e2) && e2 == e,
        }),
    decreases depth, 1int,
{
    match chars.peek() {
        None => Err(LprpError::SyntaxError),
        Some(c) => {
            if c == '(' {
                if depth == 0 {
                    Err(LprpError::RecursionDepthError)
                } else {
                    read_list(chars, depth - 1)
                }
            } else if c == '\'' {
                read_quote(chars, depth)
            } else if is_digit_char_exec(c) || c == '-' {
                read_num(chars)
            } else if is_alpha_exec(c) {
                Ok(read_symbol(chars))
            } else if c == '*' {
                read_special(chars)
            } else if c == ':' {
                read_keyword(chars)
            } else if c == '"' {
                read_string(chars)
            } else {
                Err(LprpError::SyntaxError)
            }
        },
    }
}

// ***** Quote *****

/// Reads the quote character and then exactly one following form, which it
/// wraps; a space, a closing parenthesis or the end of input in that
/// position is a `SyntaxError`.
pub fn read_quote(chars: &mut Cursor, depth: u64) -> (r: Result<Token, LprpError>)
    requires
        old(chars).wf(),
        old(chars).at() < old(chars).text().len(),
        old(chars).text()[old(chars).at()] == '\'',
    ensures
        final(chars).wf(),
        final(chars).text() == old(chars).text(),
        old(chars).at() <= final(chars).at() <= old(chars).text().len(),
        (match spec_form(old(chars).text(), old(chars).at(), depth as nat) {
            Ok((tv, end)) => r matches Ok(t) && t@ == tv && final(chars).at() == end
                && old(chars).at() < end,
            Err(e) => r matches Err(e2) && e2 == e,
        }),
    decreases depth, 0int,
{
    if depth == 0 {
        return Err(LprpError::RecursionDepthError);
    }
    chars.advance();
    match read_form(chars, depth - 1) {
        Ok(t) => Ok(Token::Quote(Box::new(t))),
        Err(e) => Err(e),
    }
}

// ***** List *****

/// Reads the elements of a list after its opening parenthesis, skipping
/// spaces, until the closing parenthesis; the end of input before the
/// closing parenthesis is a `SyntaxError`.
pub fn read_list(chars: &mut Cursor, depth: u64) -> (r: Result<Token, LprpError>)
    requires
        old(chars).wf(),
        old(chars).at() < old(chars).text().len(),
        old(chars).text()[old(chars).at()] == '(',
    ensures
        final(chars).wf(),
        final(chars).text() == old(chars).text(),
        old(chars).at() < final(chars).at() <= old(chars).text().len(),
        (match spec_list_items(old(chars).text(), old(chars).at() + 1, depth as nat) {
            Ok((items, end)) => r matches Ok(t) && t@ == TokenV::List(items)
                && final(chars).at() == end,
            Err(e) => r matches Err(e2) && e2 == e,
        }),
    decreases depth, 2int,
{
    let ghost s = chars.text();
    let ghost p0 = chars.at();
    let ghost d = depth as nat;
    chars.advance();
    let mut v: Vec<Token> = Vec::new();
    proof {
        if let Ok((rest, end)) = spec_list_items(s, p0 + 1, d) {
            assert(tokens_view(v@) + rest =~= rest);
        }
    }
    #[verifier::loop_isolation(false)]
    loop
        invariant
            chars.wf(),
            chars.text() == s,
            0 <= p0 + 1 <= chars.at() <= s.len(),
            spec_list_items(s, p0 + 1, d) == (match spec_list_items(s, chars.at(), d) {
                Ok((rest, end)) => Ok::<(Seq<TokenV>, int), LprpError>(
                    (tokens_view(v@) + rest, end),
                ),
                Err(e) => Err::<(Seq<TokenV>, int), LprpError>(e),
            }),
        decreases s.len() - chars.at(),
    {
        match chars.peek() {
            None => {
                return Err(LprpError::SyntaxError);
            },
            Some(c) => {
                if c == ')' {
                    chars.advance();
                    proof {
                        assert(tokens_view(v@) + Seq::<TokenV>::empty() =~= tokens_view(v@));
                    }
                    return Ok(Token::List(v));
                } else if c == ' ' {
                    chars.advance();
                } else {
                    match read_form(chars, depth) {
                        Err(e) => {
                            return Err(e);
                        },
                        Ok(t) => {
                            proof {
                                lemma_tokens_view_push(v@, t);
                                if let Ok((rest2, end2)) = spec_list_items(s, chars.at(), d) {
                                    assert(tokens_view(v@.push(t)) + rest2 =~= tokens_view(v@)
                                        + (seq![t@] + rest2));
                                }
                            }
                            v.push(t);
                        },
                    }
                }
            },
        }
    }
}

// ***** Top-level expression reader *****

/// Reads the whole input as an implicit sequence of forms, skipping
/// spaces, and returns them as a `List`.
pub fn read_expr(chars: &mut Cursor) -> (r: Result<Token, LprpError>)
    requires
        old(chars).wf(),
    ensures
        final(chars).wf(),
        final(chars).text() == old(chars).text(),
        old(chars).at() <= final(chars).at() <= old(chars).text().len(),
        (match spec_expr_items(old(chars).text(), old(chars).at()) {
            Ok(items) => r matches Ok(t) && t@ == TokenV::List(items),
            Err(e) => r matches Err(e2) && e2 == e,
        }),
{
    let ghost s = chars.text();
    let ghost p0 = chars.at();
    let mut v: Vec<Token> = Vec::new();
    proof {
        if let Ok(rest) = spec_expr_items(s, p0) {
            assert(tokens_view(v@) + rest =~= rest);
        }
    }
    #[verifier::loop_isolation(false)]
    loop
        invariant
            chars.wf(),
            chars.text() == s,
            0 <= p0 <= chars.at() <= s.len(),
            spec_expr_items(s, p0) == (match spec_expr_items(s, chars.at()) {
                Ok(rest) => Ok::<Seq<TokenV>, LprpError>(tokens_view(v@) + rest),
                Err(e) => Err::<Seq<TokenV>, LprpError>(e),
            }),
        decreases s.len() - chars.at(),
    {
        match chars.peek() {
            None => {
                proof {
                    assert(tokens_view(v@) + Seq::<TokenV>::empty() =~= tokens_view(v@));
                }
                return Ok(Token::List(v));
            },
            Some(c) => {
                if c == ' ' {
                    chars.advance();
                } else {
                    match read_form(chars, MAX_DEPTH) {
                        Err(e) => {
                            return Err(e);
                        },
                        Ok(t) => {
                            proof {
                                lemma_tokens_view_push(v@, t);
                                if let Ok(rest2) = spec_expr_items(s, chars.at()) {
                                    assert(tokens_view(v@.push(t)) + rest2 =~= tokens_view(v@)
                                        + (seq![t@] + rest2));
                                }
                            }
                            v.push(t);
                        },
                    }
                }
            },
        }
    }
}

/// Reads the first form of the input. The whole input is parsed first: a
/// malformed later form still fails, and an input with no forms at all
/// fails with `ReadError`.
pub fn read(expr: &str) -> (r: Result<Token, LprpError>)
    ensures
        (match spec_read(expr@) {
            Ok(tv) => r matches Ok(t) && t@ == tv,
            Err(e) => r matches Err(e2) && e2 == e,
        }),
{
    let mut chars = Cursor::new(expr);
    match read_expr(&mut chars) {
        Err(e) => Err(e),
        Ok(ex) => match ex {
            Token::List(mut l) => {
                proof {
                    lemma_tokens_view_len(l@);
                }
                if l.len() == 0 {
                    Err(LprpError::ReadError)
                } else {
                    proof {
                        lemma_tokens_view_index(l@, 0);
                    }
                    let t = l.remove(0);
                    Ok(t)
                }
            },
            _ => Err(LprpError::ReadError),
        },
    }
}

} // verus!
