//! The mathematical model of the reader: the abstract syntax tree, the
//! character classes and token grammars, and a functional description of
//! parsing and printing, stated over `Seq<char>`.
use vstd::prelude::*;

verus! {

/// The closed error taxonomy of the reader.
///
/// `SyntaxError` covers malformed keyword/special forms, an unexpected
/// lookahead character, a missing quote target and unterminated strings or
/// lists; `ReadError` means the top level held no form at all;
/// `ReadNumError` means a numeric run matched neither the integer nor the
/// float grammar (or an integer did not fit in `i64`);
/// `ConversionError` comes from the `Token` conversion helpers; and
/// `RecursionDepthError` reports input nested deeper than `MAX_DEPTH`.
#[derive(Debug, Clone, PartialEq, Eq, Structural)]
pub enum LprpError {
    SyntaxError,
    ReadError,
    ReadNumError,
    ConversionError,
    RecursionDepthError,
}

/// The abstract value of a `Token`: text is a `Seq<char>`, numbers are
/// unbounded, and a list is a `Seq` of children.
#[verifier::ext_equal]
pub enum TokenV {
    True,
    Nil,
    Int(int),
    Float(Seq<char>),
    Symbol(Seq<char>),
    Quote(Box<TokenV>),
    Str(Seq<char>),
    List(Seq<TokenV>),
}

/// Parenthesis and quote nesting deeper than this fails with
/// `RecursionDepthError` instead of exhausting the call stack.
pub const MAX_DEPTH: u64 = 256;

// ***** Character classes *****

pub open spec fn is_digit(c: char) -> bool {
    '0' <= c && c <= '9'
}

pub open spec fn is_alpha(c: char) -> bool {
    ('a' <= c && c <= 'z') || ('A' <= c && c <= 'Z')
}

/// Characters a number run consumes; validation happens afterwards.
pub open spec fn is_num_char(c: char) -> bool {
    is_digit(c) || c == '-' || c == '.'
}

/// Characters a plain symbol is made of.
pub open spec fn is_sym_char(c: char) -> bool {
    is_alpha(c) || c == '-'
}

/// Characters a keyword-symbol run consumes.
pub open spec fn is_kw_char(c: char) -> bool {
    is_sym_char(c) || c == ':'
}

/// Characters a special-symbol run consumes.
pub open spec fn is_sp_char(c: char) -> bool {
    is_sym_char(c) || c == '*'
}

/// The maximal-run character classes of the atom readers.
pub enum CharClass {
    Num,
    Sym,
    Kw,
    Sp,
    StrBody,
}

pub open spec fn in_class(cl: CharClass, c: char) -> bool {
    match cl {
        CharClass::Num => is_num_char(c),
        CharClass::Sym => is_sym_char(c),
        CharClass::Kw => is_kw_char(c),
        CharClass::Sp => is_sp_char(c),
        CharClass::StrBody => c != '"',
    }
}

/// The end of the maximal run of `cl`-characters starting at `pos`.
pub open spec fn run_end(s: Seq<char>, pos: int, cl: CharClass) -> int
    decreases s.len() - pos,
{
    if !(0 <= pos < s.len()) {
        pos
    } else if in_class(cl, s[pos]) {
        run_end(s, pos + 1, cl)
    } else {
        pos
    }
}

/// The maximal run lies within the input, all its characters are in the
/// class, and it ends at the end of input or at a character outside the
/// class.
pub proof fn lemma_run_end(s: Seq<char>, pos: int, cl: CharClass)
    requires
        0 <= pos <= s.len(),
    ensures
        pos <= run_end(s, pos, cl) <= s.len(),
        forall|i: int| pos <= i < run_end(s, pos, cl) ==> in_class(cl, s[i]),
        run_end(s, pos, cl) == s.len() || !in_class(cl, s[run_end(s, pos, cl)]),
    decreases s.len() - pos,
{
    if pos < s.len() && in_class(cl, s[pos]) {
        lemma_run_end(s, pos + 1, cl);
    }
}

/// The run end is the unique cut with `cl`-characters before it and a
/// non-`cl` character (or the end of input) at it.
pub proof fn lemma_run_end_is(s: Seq<char>, pos: int, end: int, cl: CharClass)
    requires
        0 <= pos <= end <= s.len(),
        forall|i: int| pos <= i < end ==> in_class(cl, s[i]),
        end == s.len() || !in_class(cl, s[end]),
    ensures
        run_end(s, pos, cl) == end,
    decreases end - pos,
{
    if pos < end {
        lemma_run_end_is(s, pos + 1, end, cl);
    }
}

// ***** Number texts and values *****

pub open spec fn count_char(s: Seq<char>, c: char) -> nat
    decreases s.len(),
{
    if s.len() == 0 {
        0
    } else {
        count_char(s.drop_last(), c) + if s.last() == c {
            1nat
        } else {
            0nat
        }
    }
}

pub open spec fn all_digits(s: Seq<char>) -> bool {
    forall|i: int| 0 <= i < s.len() ==> is_digit(#[trigger] s[i])
}

/// The integer grammar: an optional single leading minus, then one or more
/// digits.
pub open spec fn is_int_text(s: Seq<char>) -> bool {
    if s.len() > 0 && s[0] == '-' {
        s.len() >= 2 && all_digits(s.skip(1))
    } else {
        s.len() >= 1 && all_digits(s)
    }
}

/// What `onigiri::validator::is_integer` accepts on a non-empty run: digits,
/// optionally after a leading minus — a lone minus passes too.
pub open spec fn onigiri_int_text(s: Seq<char>) -> bool {
    all_digits(s) || (s.len() > 0 && s[0] == '-' && all_digits(s.skip(1)))
}

/// The float grammar without a sign: one or more digits, one dot, one or
/// more digits.
pub open spec fn is_float_body(s: Seq<char>) -> bool {
    s.len() >= 3 && count_char(s, '.') == 1 && is_digit(s[0]) && is_digit(s[s.len() - 1])
        && forall|i: int| 0 <= i < s.len() ==> s[i] == '.' || is_digit(#[trigger] s[i])
}

/// The float grammar: an optional single leading minus, then digits, one
/// dot, digits.
pub open spec fn is_float_text(s: Seq<char>) -> bool {
    if s.len() > 0 && s[0] == '-' {
        is_float_body(s.skip(1))
    } else {
        is_float_body(s)
    }
}

/// What `onigiri::validator::is_float` accepts on a non-empty run: exactly
/// one dot and otherwise digits, optionally after a leading minus — the dot
/// may stand first or last.
pub open spec fn onigiri_float_text(s: Seq<char>) -> bool {
    if s.len() > 0 && s[0] == '-' {
        onigiri_float_body(s.skip(1))
    } else {
        onigiri_float_body(s)
    }
}

pub open spec fn onigiri_float_body(s: Seq<char>) -> bool {
    count_char(s, '.') == 1 && forall|i: int|
        0 <= i < s.len() ==> s[i] == '.' || is_digit(#[trigger] s[i])
}

pub open spec fn digit_val(c: char) -> int {
    c as u32 - 48
}

/// The value of a run of digits, most significant first.
pub open spec fn digits_val(s: Seq<char>) -> int
    decreases s.len(),
{
    if s.len() == 0 {
        0
    } else {
        digits_val(s.drop_last()) * 10 + digit_val(s.last())
    }
}

/// The value of a text matching the integer grammar.
pub open spec fn int_text_val(s: Seq<char>) -> int {
    if s.len() > 0 && s[0] == '-' {
        -digits_val(s.skip(1))
    } else {
        digits_val(s)
    }
}

pub open spec fn in_i64(n: int) -> bool {
    i64::MIN <= n <= i64::MAX
}

pub proof fn lemma_count_char_zero(s: Seq<char>, c: char)
    requires
        forall|i: int| 0 <= i < s.len() ==> s[i] != c,
    ensures
        count_char(s, c) == 0,
    decreases s.len(),
{
    if s.len() > 0 {
        assert(forall|i: int| 0 <= i < s.drop_last().len() ==> s.drop_last()[i] != c);
        lemma_count_char_zero(s.drop_last(), c);
    }
}

pub proof fn lemma_count_char_pos(s: Seq<char>, c: char)
    requires
        count_char(s, c) > 0,
    ensures
        exists|i: int| 0 <= i < s.len() && s[i] == c,
    decreases s.len(),
{
    if s.last() == c {
        assert(s[s.len() - 1] == c);
    } else {
        lemma_count_char_pos(s.drop_last(), c);
        let i = choose|i: int| 0 <= i < s.drop_last().len() && s.drop_last()[i] == c;
        assert(s[i] == c);
    }
}

/// Two distinct occurrences give a count of at least two.
pub proof fn lemma_count_char_two_distinct(s: Seq<char>, c: char, k1: int, k2: int)
    requires
        0 <= k1 < k2 < s.len(),
        s[k1] == c,
        s[k2] == c,
    ensures
        count_char(s, c) >= 2,
    decreases s.len(),
{
    if k2 == s.len() - 1 {
        assert(s.drop_last()[k1] == c);
        lemma_count_char_one_distinct(s.drop_last(), c, k1);
    } else {
        assert(s.drop_last()[k1] == c && s.drop_last()[k2] == c);
        lemma_count_char_two_distinct(s.drop_last(), c, k1, k2);
    }
}

/// One occurrence gives a count of at least one.
pub proof fn lemma_count_char_one_distinct(s: Seq<char>, c: char, k: int)
    requires
        0 <= k < s.len(),
        s[k] == c,
    ensures
        count_char(s, c) >= 1,
    decreases s.len(),
{
    if k < s.len() - 1 {
        assert(s.drop_last()[k] == c);
        lemma_count_char_one_distinct(s.drop_last(), c, k);
    }
}

/// Three distinct occurrences give a count of at least three.
pub proof fn lemma_count_char_three_distinct(s: Seq<char>, c: char, k1: int, k2: int, k3: int)
    requires
        0 <= k1 < k2 < k3 < s.len(),
        s[k1] == c,
        s[k2] == c,
        s[k3] == c,
    ensures
        count_char(s, c) >= 3,
    decreases s.len(),
{
    if k3 == s.len() - 1 {
        assert(s.drop_last()[k1] == c && s.drop_last()[k2] == c);
        lemma_count_char_two_distinct(s.drop_last(), c, k1, k2);
    } else {
        assert(s.drop_last()[k1] == c && s.drop_last()[k2] == c && s.drop_last()[k3] == c);
        lemma_count_char_three_distinct(s.drop_last(), c, k1, k2, k3);
    }
}

/// A run that onigiri's integer validator accepts holds no dot, so it can
/// never match the float grammar.
pub proof fn lemma_int_not_float(s: Seq<char>)
    requires
        onigiri_int_text(s),
    ensures
        !is_float_text(s),
{
    if s.len() > 0 && s[0] == '-' {
        if is_float_body(s.skip(1)) {
            if all_digits(s) {
                assert(is_digit(s[0]));
                assert(false);
            }
            assert(all_digits(s.skip(1)));
            assert(forall|i: int| 0 <= i < s.skip(1).len() ==> s.skip(1)[i] != '.');
            lemma_count_char_zero(s.skip(1), '.');
        }
    } else {
        if is_float_body(s) {
            assert(all_digits(s));
            assert(forall|i: int| 0 <= i < s.len() ==> s[i] != '.');
            lemma_count_char_zero(s, '.');
        }
    }
}

/// Under onigiri's float validator, the strict float grammar comes down to
/// a digit at both ends of the unsigned body.
pub proof fn lemma_float_shape(s: Seq<char>)
    requires
        s.len() > 0,
        onigiri_float_text(s),
    ensures
        is_float_text(s) <==> (if s[0] == '-' {
            s.len() >= 2 && is_digit(s[1]) && is_digit(s[s.len() - 1])
        } else {
            is_digit(s[0]) && is_digit(s[s.len() - 1])
        }),
{
    let b = if s[0] == '-' {
        s.skip(1)
    } else {
        s
    };
    assert(onigiri_float_body(b));
    if b.len() > 0 && is_digit(b[0]) && is_digit(b[b.len() - 1]) {
        lemma_count_char_pos(b, '.');
        let k = choose|k: int| 0 <= k < b.len() && b[k] == '.';
        assert(k != 0 && k != b.len() - 1);
        assert(b.len() >= 3);
        assert(is_float_body(b));
    }
    if s[0] == '-' {
        assert(b.len() == s.len() - 1);
        if s.len() >= 2 {
            assert(b[0] == s[1]);
            assert(b[b.len() - 1] == s[s.len() - 1]);
        }
        if b.len() == 0 {
            assert(!is_float_body(b));
        }
    }
}

/// The strict grammars imply what onigiri's validators accept.
pub proof fn lemma_strict_implies_onigiri(s: Seq<char>)
    ensures
        is_int_text(s) ==> onigiri_int_text(s),
        is_float_text(s) ==> onigiri_float_text(s),
{
}

// ***** The atom grammars *****

/// What the number reader returns: the maximal run of number characters,
/// validated against the integer grammar first, then the float grammar.
pub open spec fn spec_num(s: Seq<char>, pos: int) -> Result<(TokenV, int), LprpError> {
    let end = run_end(s, pos, CharClass::Num);
    let buf = s.subrange(pos, end);
    if is_int_text(buf) {
        if in_i64(int_text_val(buf)) {
            Ok((TokenV::Int(int_text_val(buf)), end))
        } else {
            Err(LprpError::ReadNumError)
        }
    } else if is_float_text(buf) {
        Ok((TokenV::Float(buf), end))
    } else {
        Err(LprpError::ReadNumError)
    }
}

/// What the symbol reader returns: the maximal run of symbol characters,
/// with `nil`, `NIL` and `t` reserved.
pub open spec fn spec_symbol(s: Seq<char>, pos: int) -> (TokenV, int) {
    let end = run_end(s, pos, CharClass::Sym);
    let buf = s.subrange(pos, end);
    if buf == seq!['n', 'i', 'l'] || buf == seq!['N', 'I', 'L'] {
        (TokenV::Nil, end)
    } else if buf == seq!['t'] {
        (TokenV::True, end)
    } else {
        (TokenV::Symbol(buf), end)
    }
}

/// What the keyword reader returns: the maximal run of keyword characters,
/// accepted iff it holds exactly one colon and that colon stands first.
pub open spec fn spec_keyword(s: Seq<char>, pos: int) -> Result<(TokenV, int), LprpError> {
    let end = run_end(s, pos, CharClass::Kw);
    let buf = s.subrange(pos, end);
    if buf.len() > 0 && buf[0] == ':' && count_char(buf, ':') == 1 {
        Ok((TokenV::Symbol(buf), end))
    } else {
        Err(LprpError::SyntaxError)
    }
}

/// What the special reader returns: the maximal run of special characters,
/// accepted iff it holds exactly two asterisks, they stand first and last,
/// and at least one character stands between them.
pub open spec fn spec_special(s: Seq<char>, pos: int) -> Result<(TokenV, int), LprpError> {
    let end = run_end(s, pos, CharClass::Sp);
    let buf = s.subrange(pos, end);
    if buf.len() >= 3 && buf[0] == '*' && buf[buf.len() - 1] == '*' && count_char(buf, '*')
        == 2 {
        Ok((TokenV::Symbol(buf), end))
    } else {
        Err(LprpError::SyntaxError)
    }
}

/// What the string reader returns: everything between the opening quote at
/// `pos` and the next double quote, verbatim. Input that ends before a
/// closing quote is a `SyntaxError`.
pub open spec fn spec_string(s: Seq<char>, pos: int) -> Result<(TokenV, int), LprpError> {
    let close = run_end(s, pos + 1, CharClass::StrBody);
    if close < s.len() {
        Ok((TokenV::Str(s.subrange(pos + 1, close)), close + 1))
    } else {
        Err(LprpError::SyntaxError)
    }
}

// ***** The dispatcher and the compound grammars *****

/// One form at `pos`, dispatched on the lookahead character; `depth` is the
/// remaining nesting allowance. On success the second component is the
/// position just after the form.
pub open spec fn spec_form(s: Seq<char>, pos: int, depth: nat) -> Result<
    (TokenV, int),
    LprpError,
>
    decreases s.len() - pos, 0nat,
{
    if !(0 <= pos < s.len()) {
        Err(LprpError::SyntaxError)
    } else {
        let c = s[pos];
        if c == '(' {
            if depth == 0 {
                Err(LprpError::RecursionDepthError)
            } else {
                match spec_list_items(s, pos + 1, (depth - 1) as nat) {
                    Ok((items, end)) => Ok((TokenV::List(items), end)),
                    Err(e) => Err(e),
                }
            }
        } else if c == '\'' {
            if depth == 0 {
                Err(LprpError::RecursionDepthError)
            } else {
                match spec_form(s, pos + 1, (depth - 1) as nat) {
                    Ok((t, end)) => Ok((TokenV::Quote(Box::new(t)), end)),
                    Err(e) => Err(e),
                }
            }
        } else if is_digit(c) || c == '-' {
            spec_num(s, pos)
        } else if is_alpha(c) {
            Ok(spec_symbol(s, pos))
        } else if c == '*' {
            spec_special(s, pos)
        } else if c == ':' {
            spec_keyword(s, pos)
        } else if c == '"' {
            spec_string(s, pos)
        } else {
            Err(LprpError::SyntaxError)
        }
    }
}

/// The elements of a list whose opening parenthesis stands just before
/// `pos`, up to and including the closing parenthesis. Spaces separate
/// elements; input that ends before the closing parenthesis is a
/// `SyntaxError`. On success the second component is the position just
/// after the closing parenthesis.
///
/// A parsed form always ends past where it began; the clamp on `p` below
/// only serves the termination measure and is never the value taken.
pub open spec fn spec_list_items(s: Seq<char>, pos: int, depth: nat) -> Result<
    (Seq<TokenV>, int),
    LprpError,
>
    decreases s.len() - pos, 1nat,
{
    if !(0 <= pos < s.len()) {
        Err(LprpError::SyntaxError)
    } else if s[pos] == ')' {
        Ok((Seq::empty(), pos + 1))
    } else if s[pos] == ' ' {
        spec_list_items(s, pos + 1, depth)
    } else {
        match spec_form(s, pos, depth) {
            Err(e) => Err(e),
            Ok((t, p)) => {
                let p2 = if p <= pos {
                    pos + 1
                } else if p > s.len() {
                    s.len() as int
                } else {
                    p
                };
                match spec_list_items(s, p2, depth) {
                    Err(e) => Err(e),
                    Ok((rest, end)) => Ok((seq![t] + rest, end)),
                }
            },
        }
    }
}

/// The implicit sequence of forms that makes up a whole input, each parsed
/// with a fresh nesting allowance, with spaces skipped in between.
pub open spec fn spec_expr_items(s: Seq<char>, pos: int) -> Result<Seq<TokenV>, LprpError>
    decreases s.len() - pos,
{
    if !(0 <= pos < s.len()) {
        Ok(Seq::empty())
    } else if s[pos] == ' ' {
        spec_expr_items(s, pos + 1)
    } else {
        match spec_form(s, pos, MAX_DEPTH as nat) {
            Err(e) => Err(e),
            Ok((t, p)) => {
                let p2 = if p <= pos {
                    pos + 1
                } else if p > s.len() {
                    s.len() as int
                } else {
                    p
                };
                match spec_expr_items(s, p2) {
                    Err(e) => Err(e),
                    Ok(rest) => Ok(seq![t] + rest),
                }
            },
        }
    }
}

/// What `read` returns: the first top-level form; an input with no forms is
/// a `ReadError`.
pub open spec fn spec_read(s: Seq<char>) -> Result<TokenV, LprpError> {
    match spec_expr_items(s, 0) {
        Err(e) => Err(e),
        Ok(items) => if items.len() == 0 {
            Err(LprpError::ReadError)
        } else {
            Ok(items[0])
        },
    }
}

// ***** Printing: the inverse grammar *****

pub open spec fn digit_char(d: int) -> char {
    if d == 0 {
        '0'
    } else if d == 1 {
        '1'
    } else if d == 2 {
        '2'
    } else if d == 3 {
        '3'
    } else if d == 4 {
        '4'
    } else if d == 5 {
        '5'
    } else if d == 6 {
        '6'
    } else if d == 7 {
        '7'
    } else if d == 8 {
        '8'
    } else {
        '9'
    }
}

/// The decimal digits of `n >= 0`, most significant first.
pub open spec fn digits_text(n: int) -> Seq<char>
    decreases n,
{
    if n <= 9 {
        seq![digit_char(n)]
    } else {
        digits_text(n / 10).push(digit_char(n % 10))
    }
}

/// The decimal text of an integer, with a leading minus when negative.
pub open spec fn int_text(n: int) -> Seq<char> {
    if n < 0 {
        seq!['-'] + digits_text(-n)
    } else {
        digits_text(n)
    }
}

/// The text a token prints to; re-reading it yields the token back (see the
/// round-trip law).
pub open spec fn spec_print(t: TokenV) -> Seq<char>
    decreases t,
{
    match t {
        TokenV::True => seq!['t'],
        TokenV::Nil => seq!['n', 'i', 'l'],
        TokenV::Int(i) => int_text(i),
        TokenV::Float(s) => s,
        TokenV::Symbol(s) => s,
        TokenV::Quote(q) => seq!['\''] + spec_print(*q),
        TokenV::Str(s) => seq!['"'] + s + seq!['"'],
        TokenV::List(items) => seq!['('] + spec_print_items(items) + seq![')'],
    }
}

/// List elements printed with a single space between neighbours.
pub open spec fn spec_print_items(items: Seq<TokenV>) -> Seq<char>
    decreases items,
{
    if items.len() == 0 {
        Seq::empty()
    } else if items.len() == 1 {
        spec_print(items[0])
    } else {
        spec_print(items[0]) + seq![' '] + spec_print_items(items.drop_first())
    }
}

// ***** Well-formed tokens *****

/// A plain symbol as the reader can produce it: a letter followed by
/// letters and hyphens, not a reserved word.
pub open spec fn is_plain_sym_text(s: Seq<char>) -> bool {
    s.len() > 0 && is_alpha(s[0]) && (forall|i: int|
        0 <= i < s.len() ==> is_sym_char(#[trigger] s[i])) && s != seq!['n', 'i', 'l'] && s
        != seq!['N', 'I', 'L'] && s != seq!['t']
}

/// A keyword symbol: a leading colon, then letters and hyphens.
pub open spec fn is_keyword_text(s: Seq<char>) -> bool {
    s.len() > 0 && s[0] == ':' && forall|i: int|
        1 <= i < s.len() ==> is_sym_char(#[trigger] s[i])
}

/// A special symbol: asterisks first and last, letters and hyphens between.
pub open spec fn is_special_text(s: Seq<char>) -> bool {
    s.len() >= 3 && s[0] == '*' && s[s.len() - 1] == '*' && forall|i: int|
        1 <= i < s.len() - 1 ==> is_sym_char(#[trigger] s[i])
}

pub open spec fn is_symbol_text(s: Seq<char>) -> bool {
    is_plain_sym_text(s) || is_keyword_text(s) || is_special_text(s)
}

/// A token the reader could have produced: exactly these print to text that
/// reads back.
pub open spec fn wf_token(t: TokenV) -> bool
    decreases t,
{
    match t {
        TokenV::True => true,
        TokenV::Nil => true,
        TokenV::Int(i) => in_i64(i),
        TokenV::Float(s) => is_float_text(s),
        TokenV::Symbol(s) => is_symbol_text(s),
        TokenV::Quote(q) => wf_token(*q),
        TokenV::Str(s) => forall|i: int| 0 <= i < s.len() ==> s[i] != '"',
        TokenV::List(items) => wf_tokens(items),
    }
}

pub open spec fn wf_tokens(items: Seq<TokenV>) -> bool
    decreases items,
{
    if items.len() == 0 {
        true
    } else {
        wf_token(items[0]) && wf_tokens(items.drop_first())
    }
}

/// How much nesting allowance a token needs to parse: one level per list or
/// quote.
pub open spec fn token_depth(t: TokenV) -> nat
    decreases t,
{
    match t {
        TokenV::Quote(q) => 1 + token_depth(*q),
        TokenV::List(items) => 1 + tokens_depth(items),
        _ => 0,
    }
}

pub open spec fn tokens_depth(items: Seq<TokenV>) -> nat
    decreases items,
{
    if items.len() == 0 {
        0
    } else if token_depth(items[0]) >= tokens_depth(items.drop_first()) {
        token_depth(items[0])
    } else {
        tokens_depth(items.drop_first())
    }
}

} // verus!
