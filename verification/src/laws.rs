//! The laws of the reader, proved against the specification parser: what
//! whole-input numeric texts read to; that printing any well-formed token
//! and re-reading it reproduces the token; and that nesting is read
//! correctly up to the depth allowance and fails cleanly past it.
use crate::grammar::{
    all_digits, count_char, digit_char, digit_val, digits_text, digits_val, in_class, in_i64,
    int_text, int_text_val, is_alpha, is_float_text, is_int_text, is_keyword_text,
    is_digit, is_kw_char, is_plain_sym_text, is_sp_char, is_special_text, is_sym_char,
    is_symbol_text, lemma_count_char_zero, lemma_int_not_float, lemma_run_end,
    lemma_run_end_is, lemma_strict_implies_onigiri, run_end,
    spec_expr_items, spec_form, spec_keyword, spec_list_items, spec_num, spec_print,
    spec_print_items, spec_read, spec_special, spec_string, spec_symbol, token_depth,
    tokens_depth, wf_token, wf_tokens, CharClass, LprpError, TokenV, MAX_DEPTH,
};
use vstd::arithmetic::div_mod::{lemma_fundamental_div_mod, lemma_mod_bound};
use vstd::prelude::*;

verus! {

// ***** Decimal printing round-trips through the integer grammar *****

proof fn lemma_digit_char(d: int)
    requires
        0 <= d <= 9,
    ensures
        is_digit(digit_char(d)),
        digit_val(digit_char(d)) == d,
{
}

proof fn lemma_digits_text_val(n: int)
    requires
        n >= 0,
    ensures
        digits_text(n).len() >= 1,
        all_digits(digits_text(n)),
        digits_val(digits_text(n)) == n,
    decreases n,
{
    if n <= 9 {
        lemma_digit_char(n);
        assert(digits_text(n) == seq![digit_char(n)]);
        assert(digits_text(n).drop_last() =~= Seq::<char>::empty());
        assert(digits_val(Seq::<char>::empty()) == 0);
        assert(digits_text(n).last() == digit_char(n));
        assert(digits_val(digits_text(n)) == digit_val(digit_char(n)));
    } else {
        lemma_digits_text_val(n / 10);
        lemma_mod_bound(n, 10);
        lemma_digit_char(n % 10);
        let hd = digits_text(n / 10);
        let d = digits_text(n);
        assert(d == hd.push(digit_char(n % 10)));
        assert(d.drop_last() =~= hd);
        assert(digits_val(d) == digits_val(hd) * 10 + digit_val(d.last()));
        lemma_fundamental_div_mod(n, 10);
        assert forall|i: int| 0 <= i < d.len() implies is_digit(#[trigger] d[i]) by {
            if i < d.len() - 1 {
                assert(d[i] == hd[i]);
            } else {
                assert(d[i] == digit_char(n % 10));
            }
        }
    }
}

proof fn lemma_int_text_props(n: int)
    ensures
        int_text(n).len() >= 1,
        is_int_text(int_text(n)),
        int_text_val(int_text(n)) == n,
        forall|i: int| 0 <= i < int_text(n).len() ==> in_class(CharClass::Num, int_text(n)[i]),
        int_text(n)[0] == '-' || is_digit(int_text(n)[0]),
{
    if n >= 0 {
        lemma_digits_text_val(n);
        assert(int_text(n) == digits_text(n));
        assert(is_digit(int_text(n)[0]));
    } else {
        lemma_digits_text_val(-n);
        let d = digits_text(-n);
        let s = int_text(n);
        assert(s == seq!['-'] + d);
        assert(s[0] == '-');
        assert(s.skip(1) =~= d);
        assert(is_int_text(s));
        assert(int_text_val(s) == -digits_val(d) == n);
        assert forall|i: int| 0 <= i < s.len() implies in_class(CharClass::Num, s[i]) by {
            if i >= 1 {
                assert(s[i] == d[i - 1]);
            }
        }
    }
}

// ***** Character counts of the decorated symbol shapes *****

proof fn lemma_count_single(s: Seq<char>, c: char, k: int)
    requires
        0 <= k < s.len(),
        s[k] == c,
        forall|i: int| 0 <= i < s.len() && i != k ==> s[i] != c,
    ensures
        count_char(s, c) == 1,
    decreases s.len(),
{
    if k == s.len() - 1 {
        assert(forall|i: int| 0 <= i < s.drop_last().len() ==> s.drop_last()[i] != c);
        lemma_count_char_zero(s.drop_last(), c);
    } else {
        assert(s.drop_last()[k] == c);
        lemma_count_single(s.drop_last(), c, k);
        assert(s.last() != c);
    }
}

proof fn lemma_count_two(s: Seq<char>, c: char, k1: int, k2: int)
    requires
        0 <= k1 < k2 < s.len(),
        s[k1] == c,
        s[k2] == c,
        forall|i: int| 0 <= i < s.len() && i != k1 && i != k2 ==> s[i] != c,
    ensures
        count_char(s, c) == 2,
    decreases s.len(),
{
    if k2 == s.len() - 1 {
        assert(s.drop_last()[k1] == c);
        assert(forall|i: int| 0 <= i < s.drop_last().len() && i != k1 ==> s.drop_last()[i] != c);
        lemma_count_single(s.drop_last(), c, k1);
    } else {
        assert(s.drop_last()[k1] == c && s.drop_last()[k2] == c);
        lemma_count_two(s.drop_last(), c, k1, k2);
        assert(s.last() != c);
    }
}

// ***** What a printed token starts with *****

proof fn lemma_print_first(t: TokenV)
    requires
        wf_token(t),
    ensures
        spec_print(t).len() >= 1,
        spec_print(t)[0] != ')',
        spec_print(t)[0] != ' ',
{
    match t {
        TokenV::Int(i) => {
            lemma_int_text_props(i);
        },
        _ => {},
    }
}

// ***** Parsing a printed token resumes exactly after it *****

/// A character that ends any atom run: the inter-element space or the list
/// closer.
pub open spec fn is_delim(c: char) -> bool {
    c == ' ' || c == ')'
}

/// Parsing at the start of a printed token, followed by a delimiter or the
/// end of input, yields exactly that token and stops right after it.
proof fn lemma_parse_print_form(s: Seq<char>, pos: int, t: TokenV, depth: nat)
    requires
        wf_token(t),
        token_depth(t) <= depth,
        0 <= pos,
        pos + spec_print(t).len() <= s.len(),
        s.subrange(pos, pos + spec_print(t).len()) == spec_print(t),
        pos + spec_print(t).len() == s.len() || is_delim(s[pos + spec_print(t).len()]),
    ensures
        spec_form(s, pos, depth) == Ok::<(TokenV, int), LprpError>(
            (t, pos + spec_print(t).len()),
        ),
    decreases t, 0nat,
{
    let p = spec_print(t);
    let l = p.len() as int;
    let end = pos + l;
    lemma_print_first(t);
    assert forall|i: int| 0 <= i < l implies s[pos + i] == p[i] by {
        assert(s.subrange(pos, end)[i] == s[pos + i]);
    }
    match t {
        TokenV::True => {
            assert(s[pos] == 't');
            lemma_run_end_is(s, pos, end, CharClass::Sym);
            assert(s.subrange(pos, end) =~= seq!['t']);
            assert(spec_symbol(s, pos) == (TokenV::True, end));
        },
        TokenV::Nil => {
            assert(s[pos] == 'n');
            lemma_run_end_is(s, pos, end, CharClass::Sym);
            assert(s.subrange(pos, end) =~= seq!['n', 'i', 'l']);
            assert(spec_symbol(s, pos) == (TokenV::Nil, end));
        },
        TokenV::Int(n) => {
            lemma_int_text_props(n);
            assert forall|i: int| pos <= i < end implies in_class(CharClass::Num, s[i]) by {
                assert(s[pos + (i - pos)] == p[i - pos]);
            }
            lemma_run_end_is(s, pos, end, CharClass::Num);
            assert(s.subrange(pos, end) == int_text(n));
            assert(spec_num(s, pos) == Ok::<(TokenV, int), LprpError>((TokenV::Int(n), end)));
            assert(s[pos] == '-' || is_digit(s[pos]));
        },
        TokenV::Float(fs) => {
            assert(is_float_text(fs));
            assert(forall|i: int| 0 <= i < fs.len() ==> in_class(CharClass::Num, fs[i])) by {
                if fs.len() > 0 && fs[0] == '-' {
                    assert(forall|i: int|
                        1 <= i < fs.len() ==> fs.skip(1)[i - 1] == fs[i] && (0 <= i - 1
                            < fs.skip(1).len()));
                }
            }
            assert forall|i: int| pos <= i < end implies in_class(CharClass::Num, s[i]) by {
                assert(s[pos + (i - pos)] == p[i - pos]);
            }
            lemma_run_end_is(s, pos, end, CharClass::Num);
            assert(s.subrange(pos, end) == fs);
            if is_int_text(fs) {
                lemma_strict_implies_onigiri(fs);
                lemma_int_not_float(fs);
                assert(false);
            }
            assert(spec_num(s, pos) == Ok::<(TokenV, int), LprpError>(
                (TokenV::Float(fs), end),
            ));
            assert(s[pos] == '-' || is_digit(s[pos])) by {
                if fs[0] != '-' {
                    assert(is_digit(fs[0]));
                }
            }
        },
        TokenV::Symbol(ss) => {
            assert(is_symbol_text(ss));
            if is_plain_sym_text(ss) {
                assert(is_alpha(s[pos]));
                assert forall|i: int| pos <= i < end implies in_class(CharClass::Sym, s[i]) by {
                    assert(s[pos + (i - pos)] == p[i - pos]);
                }
                lemma_run_end_is(s, pos, end, CharClass::Sym);
                assert(s.subrange(pos, end) == ss);
                assert(spec_symbol(s, pos) == (TokenV::Symbol(ss), end));
            } else if is_keyword_text(ss) {
                assert(s[pos] == ':');
                assert forall|i: int| pos <= i < end implies in_class(CharClass::Kw, s[i]) by {
                    assert(s[pos + (i - pos)] == p[i - pos]);
                }
                lemma_run_end_is(s, pos, end, CharClass::Kw);
                assert(s.subrange(pos, end) == ss);
                assert(forall|i: int| 0 <= i < ss.len() && i != 0 ==> ss[i] != ':');
                lemma_count_single(ss, ':', 0);
                assert(spec_keyword(s, pos) == Ok::<(TokenV, int), LprpError>(
                    (TokenV::Symbol(ss), end),
                ));
                assert(!is_alpha(':') && !is_digit(':'));
            } else {
                assert(is_special_text(ss));
                assert(s[pos] == '*');
                assert forall|i: int| pos <= i < end implies in_class(CharClass::Sp, s[i]) by {
                    assert(s[pos + (i - pos)] == p[i - pos]);
                }
                lemma_run_end_is(s, pos, end, CharClass::Sp);
                assert(s.subrange(pos, end) == ss);
                assert(forall|i: int|
                    0 <= i < ss.len() && i != 0 && i != ss.len() - 1 ==> ss[i] != '*');
                lemma_count_two(ss, '*', 0, ss.len() - 1);
                assert(spec_special(s, pos) == Ok::<(TokenV, int), LprpError>(
                    (TokenV::Symbol(ss), end),
                ));
                assert(!is_alpha('*') && !is_digit('*'));
            }
        },
        TokenV::Str(body) => {
            let a = seq!['"'] + body;
            assert(p == a + seq!['"']);
            assert(s[pos] == '"') by {
                assert(s.subrange(pos, end)[0] == p[0]);
                assert((a + seq!['"'])[0] == a[0]);
            }
            assert forall|i: int| pos + 1 <= i < end - 1 implies in_class(
                CharClass::StrBody,
                s[i],
            ) && s[i] == body[i - pos - 1] by {
                assert(s.subrange(pos, end)[i - pos] == s[pos + (i - pos)]);
                assert((a + seq!['"'])[i - pos] == a[i - pos]);
                assert(a[i - pos] == body[i - pos - 1]);
            }
            assert(s[end - 1] == '"') by {
                assert(s.subrange(pos, end)[l - 1] == s[pos + (l - 1)]);
                assert((a + seq!['"'])[l - 1] == seq!['"'][0]);
            }
            lemma_run_end_is(s, pos + 1, end - 1, CharClass::StrBody);
            assert(s.subrange(pos + 1, end - 1) =~= body);
            assert(spec_string(s, pos) == Ok::<(TokenV, int), LprpError>(
                (TokenV::Str(body), end),
            ));
        },
        TokenV::Quote(q) => {
            assert(s[pos] == '\'');
            assert(token_depth(t) >= 1);
            let pq = spec_print(*q);
            assert(p == seq!['\''] + pq);
            assert forall|i: int| 0 <= i < pq.len() implies #[trigger] s[pos + 1 + i]
                == pq[i] by {
                assert((seq!['\''] + pq)[1 + i] == pq[i]);
                assert(s.subrange(pos, end)[1 + i] == s[pos + (1 + i)]);
            }
            assert(s.subrange(pos + 1, pos + 1 + pq.len()) =~= pq) by {
                assert(forall|i: int|
                    0 <= i < pq.len() ==> #[trigger] s.subrange(pos + 1, pos + 1 + pq.len())[i]
                        == s[pos + 1 + i]);
            }
            lemma_parse_print_form(s, pos + 1, *q, (depth - 1) as nat);
            assert(spec_form(s, pos + 1, (depth - 1) as nat) == Ok::<(TokenV, int), LprpError>(
                (*q, end),
            ));
            assert(TokenV::Quote(Box::new(*q)) == t);
        },
        TokenV::List(items) => {
            assert(s[pos] == '(');
            assert(token_depth(t) >= 1);
            let pi = spec_print_items(items);
            let a = seq!['('] + pi;
            assert(p == a + seq![')']);
            assert forall|i: int| 0 <= i < pi.len() implies #[trigger] s[pos + 1 + i]
                == pi[i] by {
                assert((a + seq![')'])[1 + i] == a[1 + i]);
                assert(a[1 + i] == pi[i]);
                assert(s.subrange(pos, end)[1 + i] == s[pos + (1 + i)]);
            }
            assert(s.subrange(pos + 1, pos + 1 + pi.len()) =~= pi) by {
                assert(forall|i: int|
                    0 <= i < pi.len() ==> #[trigger] s.subrange(pos + 1, pos + 1 + pi.len())[i]
                        == s[pos + 1 + i]);
            }
            assert(s[pos + 1 + pi.len()] == ')') by {
                assert(s.subrange(pos, end)[l - 1] == s[pos + (l - 1)]);
                assert((a + seq![')'])[l - 1] == seq![')'][0]);
            }
            lemma_parse_print_items(s, pos + 1, items, (depth - 1) as nat);
            assert(spec_list_items(s, pos + 1, (depth - 1) as nat) == Ok::<
                (Seq<TokenV>, int),
                LprpError,
            >((items, end)));
        },
    }
}

/// Parsing the printed elements of a list, with the closing parenthesis
/// right after them, yields exactly those elements and stops after the
/// closer.
proof fn lemma_parse_print_items(s: Seq<char>, pos: int, items: Seq<TokenV>, depth: nat)
    requires
        wf_tokens(items),
        tokens_depth(items) <= depth,
        0 <= pos,
        pos + spec_print_items(items).len() + 1 <= s.len(),
        s.subrange(pos, pos + spec_print_items(items).len()) == spec_print_items(items),
        s[pos + spec_print_items(items).len()] == ')',
    ensures
        spec_list_items(s, pos, depth) == Ok::<(Seq<TokenV>, int), LprpError>(
            (items, pos + spec_print_items(items).len() + 1),
        ),
    decreases items, 1nat,
{
    let pi = spec_print_items(items);
    let li = pi.len() as int;
    let close = pos + li;
    assert forall|i: int| 0 <= i < li implies s[pos + i] == pi[i] by {
        assert(s.subrange(pos, close)[i] == s[pos + i]);
    }
    if items.len() == 0 {
        assert(s[pos] == ')');
        assert(spec_list_items(s, pos, depth) == Ok::<(Seq<TokenV>, int), LprpError>(
            (Seq::empty(), pos + 1),
        ));
        assert(items =~= Seq::<TokenV>::empty());
    } else {
        assert(wf_token(items[0]) && wf_tokens(items.drop_first()));
        assert(token_depth(items[0]) <= depth && tokens_depth(items.drop_first()) <= depth);
        let p0 = spec_print(items[0]);
        let l0 = p0.len() as int;
        lemma_print_first(items[0]);
        let mid = pos + l0;
        if items.len() == 1 {
            assert(pi == p0);
            assert(s.subrange(pos, mid) == p0);
            assert(mid == close && s[mid] == ')');
            lemma_parse_print_form(s, pos, items[0], depth);
            assert(spec_form(s, pos, depth) == Ok::<(TokenV, int), LprpError>(
                (items[0], mid),
            ));
            assert(s[pos] == p0[0] && p0[0] != ')' && p0[0] != ' ');
            assert(items.drop_first() =~= Seq::<TokenV>::empty());
            assert(spec_print_items(items.drop_first()) == Seq::<char>::empty());
            assert(s.subrange(mid, mid) =~= Seq::<char>::empty());
            lemma_parse_print_items(s, mid, items.drop_first(), depth);
            assert(spec_list_items(s, mid, depth) == Ok::<(Seq<TokenV>, int), LprpError>(
                (Seq::empty(), close + 1),
            ));
            assert(seq![items[0]] + Seq::<TokenV>::empty() =~= items);
        } else {
            let rest = items.drop_first();
            let pr = spec_print_items(rest);
            let lr = pr.len() as int;
            assert(pi == p0 + seq![' '] + pr);
            assert(li == l0 + 1 + lr);
            assert(forall|i: int| 0 <= i < l0 ==> pi[i] == p0[i]);
            assert(pi[l0] == ' ');
            assert(forall|i: int| 0 <= i < lr ==> pi[l0 + 1 + i] == pr[i]);
            assert(s.subrange(pos, mid) =~= p0) by {
                assert(forall|i: int| 0 <= i < l0 ==> s[pos + i] == pi[i]);
            }
            assert(s[mid] == ' ');
            lemma_parse_print_form(s, pos, items[0], depth);
            assert(spec_form(s, pos, depth) == Ok::<(TokenV, int), LprpError>(
                (items[0], mid),
            ));
            assert(s[pos] == p0[0] && p0[0] != ')' && p0[0] != ' ');
            assert(s.subrange(mid + 1, mid + 1 + lr) =~= pr) by {
                assert(forall|i: int| 0 <= i < lr ==> #[trigger] s[mid + 1 + i] == pi[l0 + 1 + i]);
            }
            assert(mid + 1 + lr == close && s[close] == ')');
            lemma_parse_print_items(s, mid + 1, rest, depth);
            assert(spec_list_items(s, mid + 1, depth) == Ok::<(Seq<TokenV>, int), LprpError>(
                (rest, close + 1),
            ));
            assert(spec_list_items(s, mid, depth) == spec_list_items(s, mid + 1, depth));
            assert(seq![items[0]] + rest =~= items);
        }
    }
}

// ***** The reader only produces well-formed tokens *****

proof fn lemma_symbol_wf(s: Seq<char>, pos: int)
    requires
        0 <= pos < s.len(),
        is_alpha(s[pos]),
    ensures
        wf_token(spec_symbol(s, pos).0),
        token_depth(spec_symbol(s, pos).0) == 0,
{
    lemma_run_end(s, pos, CharClass::Sym);
    let end = run_end(s, pos, CharClass::Sym);
    assert(end > pos);
    let buf = s.subrange(pos, end);
    assert(buf[0] == s[pos]);
    assert(forall|i: int| 0 <= i < buf.len() ==> is_sym_char(#[trigger] buf[i]));
}

proof fn lemma_keyword_wf(s: Seq<char>, pos: int)
    requires
        0 <= pos <= s.len(),
    ensures
        (match spec_keyword(s, pos) {
            Ok((t, p)) => wf_token(t) && token_depth(t) == 0,
            Err(_) => true,
        }),
{
    lemma_run_end(s, pos, CharClass::Kw);
    let end = run_end(s, pos, CharClass::Kw);
    let buf = s.subrange(pos, end);
    if buf.len() > 0 && buf[0] == ':' && count_char(buf, ':') == 1 {
        assert forall|i: int| 1 <= i < buf.len() implies is_sym_char(#[trigger] buf[i]) by {
            assert(is_kw_char(buf[i]));
            if buf[i] == ':' {
                crate::grammar::lemma_count_char_two_distinct(buf, ':', 0, i);
            }
        }
        assert(is_keyword_text(buf));
    }
}

proof fn lemma_special_wf(s: Seq<char>, pos: int)
    requires
        0 <= pos <= s.len(),
    ensures
        (match spec_special(s, pos) {
            Ok((t, p)) => wf_token(t) && token_depth(t) == 0,
            Err(_) => true,
        }),
{
    lemma_run_end(s, pos, CharClass::Sp);
    let end = run_end(s, pos, CharClass::Sp);
    let buf = s.subrange(pos, end);
    if buf.len() >= 3 && buf[0] == '*' && buf[buf.len() - 1] == '*' && count_char(buf, '*')
        == 2 {
        assert forall|i: int| 1 <= i < buf.len() - 1 implies is_sym_char(#[trigger] buf[i]) by {
            assert(is_sp_char(buf[i]));
            if buf[i] == '*' {
                crate::grammar::lemma_count_char_three_distinct(buf, '*', 0, i, buf.len() - 1);
            }
        }
        assert(is_special_text(buf));
    }
}

proof fn lemma_string_wf(s: Seq<char>, pos: int)
    requires
        0 <= pos < s.len(),
    ensures
        (match spec_string(s, pos) {
            Ok((t, p)) => wf_token(t) && token_depth(t) == 0,
            Err(_) => true,
        }),
{
    lemma_run_end(s, pos + 1, CharClass::StrBody);
}

/// Whatever one parsed form yields is well formed and fits the remaining
/// nesting allowance.
proof fn lemma_form_wf(s: Seq<char>, pos: int, depth: nat)
    ensures
        (match spec_form(s, pos, depth) {
            Ok((t, p)) => wf_token(t) && token_depth(t) <= depth,
            Err(_) => true,
        }),
    decreases s.len() - pos, 0nat,
{
    if 0 <= pos < s.len() {
        let c = s[pos];
        if c == '(' {
            if depth > 0 {
                lemma_items_wf(s, pos + 1, (depth - 1) as nat);
            }
        } else if c == '\'' {
            if depth > 0 {
                lemma_form_wf(s, pos + 1, (depth - 1) as nat);
            }
        } else if is_digit(c) || c == '-' {
        } else if is_alpha(c) {
            lemma_symbol_wf(s, pos);
        } else if c == '*' {
            lemma_special_wf(s, pos);
        } else if c == ':' {
            lemma_keyword_wf(s, pos);
        } else if c == '"' {
            lemma_string_wf(s, pos);
        }
    }
}

/// Whatever a list body yields is a sequence of well-formed elements whose
/// nesting fits the remaining allowance.
proof fn lemma_items_wf(s: Seq<char>, pos: int, depth: nat)
    ensures
        (match spec_list_items(s, pos, depth) {
            Ok((items, end)) => wf_tokens(items) && tokens_depth(items) <= depth,
            Err(_) => true,
        }),
    decreases s.len() - pos, 1nat,
{
    if !(0 <= pos < s.len()) {
    } else if s[pos] == ')' {
        assert(wf_tokens(Seq::<TokenV>::empty()));
        assert(tokens_depth(Seq::<TokenV>::empty()) == 0);
    } else if s[pos] == ' ' {
        lemma_items_wf(s, pos + 1, depth);
    } else {
        lemma_form_wf(s, pos, depth);
        match spec_form(s, pos, depth) {
            Err(_) => {},
            Ok((t, p)) => {
                let p2 = if p <= pos {
                    pos + 1
                } else if p > s.len() {
                    s.len() as int
                } else {
                    p
                };
                lemma_items_wf(s, p2, depth);
                match spec_list_items(s, p2, depth) {
                    Err(_) => {},
                    Ok((rest, end)) => {
                        assert((seq![t] + rest)[0] == t);
                        assert((seq![t] + rest).drop_first() =~= rest);
                        assert(wf_tokens(seq![t] + rest));
                        assert(tokens_depth(seq![t] + rest) <= depth);
                    },
                }
            },
        }
    }
}

proof fn lemma_expr_items_wf(s: Seq<char>, pos: int)
    ensures
        (match spec_expr_items(s, pos) {
            Ok(items) => wf_tokens(items) && tokens_depth(items) <= MAX_DEPTH,
            Err(_) => true,
        }),
    decreases s.len() - pos,
{
    if !(0 <= pos < s.len()) {
        assert(wf_tokens(Seq::<TokenV>::empty()));
        assert(tokens_depth(Seq::<TokenV>::empty()) == 0);
    } else if s[pos] == ' ' {
        lemma_expr_items_wf(s, pos + 1);
    } else {
        lemma_form_wf(s, pos, MAX_DEPTH as nat);
        match spec_form(s, pos, MAX_DEPTH as nat) {
            Err(_) => {},
            Ok((t, p)) => {
                let p2 = if p <= pos {
                    pos + 1
                } else if p > s.len() {
                    s.len() as int
                } else {
                    p
                };
                lemma_expr_items_wf(s, p2);
                match spec_expr_items(s, p2) {
                    Err(_) => {},
                    Ok(rest) => {
                        assert((seq![t] + rest)[0] == t);
                        assert((seq![t] + rest).drop_first() =~= rest);
                        assert(wf_tokens(seq![t] + rest));
                        assert(tokens_depth(seq![t] + rest) <= MAX_DEPTH);
                    },
                }
            },
        }
    }
}

/// Whatever `read` returns is well formed, with nesting within the depth
/// allowance: exactly the tokens the round-trip law speaks of.
pub proof fn lemma_read_wf(s: Seq<char>)
    ensures
        (match spec_read(s) {
            Ok(t) => wf_token(t) && token_depth(t) <= MAX_DEPTH,
            Err(_) => true,
        }),
{
    lemma_expr_items_wf(s, 0);
    if let Ok(items) = spec_expr_items(s, 0) {
        if items.len() > 0 {
            assert(wf_tokens(items) ==> wf_token(items[0]));
            assert(tokens_depth(items) >= token_depth(items[0]));
        }
    }
}

/// The round-trip law with no side condition: printing whatever `read`
/// returned and re-reading it reproduces the same token.
pub proof fn lemma_read_then_print_round_trip(s: Seq<char>, t: TokenV)
    requires
        spec_read(s) == Ok::<TokenV, LprpError>(t),
    ensures
        spec_read(spec_print(t)) == Ok::<TokenV, LprpError>(t),
{
    lemma_read_wf(s);
    lemma_read_print_round_trip(t);
}

/// The round-trip law: printing any well-formed token whose nesting fits
/// the depth allowance and re-reading the text reproduces the token.
pub proof fn lemma_read_print_round_trip(t: TokenV)
    requires
        wf_token(t),
        token_depth(t) <= MAX_DEPTH,
    ensures
        spec_read(spec_print(t)) == Ok::<TokenV, LprpError>(t),
{
    let s = spec_print(t);
    lemma_print_first(t);
    assert(s.subrange(0, s.len() as int) =~= s);
    lemma_parse_print_form(s, 0, t, MAX_DEPTH as nat);
    assert(spec_form(s, 0, MAX_DEPTH as nat) == Ok::<(TokenV, int), LprpError>(
        (t, s.len() as int),
    ));
    assert(s[0] != ' ');
    assert(spec_expr_items(s, s.len() as int) == Ok::<Seq<TokenV>, LprpError>(Seq::empty()));
    let items = seq![t] + Seq::<TokenV>::empty();
    assert(spec_expr_items(s, 0) == Ok::<Seq<TokenV>, LprpError>(items));
    assert(items.len() == 1 && items[0] == t);
}

/// A whole input matching the integer grammar reads to `Int` with its
/// decimal value, whenever that value fits in `i64`.
pub proof fn lemma_read_int_text(s: Seq<char>)
    requires
        is_int_text(s),
        in_i64(int_text_val(s)),
    ensures
        spec_read(s) == Ok::<TokenV, LprpError>(TokenV::Int(int_text_val(s))),
{
    assert(forall|i: int| 0 <= i < s.len() ==> in_class(CharClass::Num, s[i])) by {
        if s.len() > 0 && s[0] == '-' {
            assert(forall|i: int|
                1 <= i < s.len() ==> s.skip(1)[i - 1] == s[i] && (0 <= i - 1 < s.skip(
                    1,
                ).len()));
        }
    }
    lemma_run_end_is(s, 0, s.len() as int, CharClass::Num);
    assert(s.subrange(0, s.len() as int) =~= s);
    assert(spec_num(s, 0) == Ok::<(TokenV, int), LprpError>(
        (TokenV::Int(int_text_val(s)), s.len() as int),
    ));
    assert(spec_form(s, 0, MAX_DEPTH as nat) == Ok::<(TokenV, int), LprpError>(
        (TokenV::Int(int_text_val(s)), s.len() as int),
    ));
    assert(spec_expr_items(s, s.len() as int) == Ok::<Seq<TokenV>, LprpError>(Seq::empty()));
    let items = seq![TokenV::Int(int_text_val(s))] + Seq::<TokenV>::empty();
    assert(spec_expr_items(s, 0) == Ok::<Seq<TokenV>, LprpError>(items));
    assert(items.len() == 1 && items[0] == TokenV::Int(int_text_val(s)));
}

/// A whole input matching the float grammar reads to `Float` carrying that
/// very text.
pub proof fn lemma_read_float_text(s: Seq<char>)
    requires
        is_float_text(s),
    ensures
        spec_read(s) == Ok::<TokenV, LprpError>(TokenV::Float(s)),
{
    assert(forall|i: int| 0 <= i < s.len() ==> in_class(CharClass::Num, s[i])) by {
        if s.len() > 0 && s[0] == '-' {
            assert(forall|i: int|
                1 <= i < s.len() ==> s.skip(1)[i - 1] == s[i] && (0 <= i - 1 < s.skip(
                    1,
                ).len()));
        }
    }
    lemma_run_end_is(s, 0, s.len() as int, CharClass::Num);
    assert(s.subrange(0, s.len() as int) =~= s);
    if is_int_text(s) {
        lemma_strict_implies_onigiri(s);
        lemma_int_not_float(s);
        assert(false);
    }
    assert(spec_num(s, 0) == Ok::<(TokenV, int), LprpError>(
        (TokenV::Float(s), s.len() as int),
    ));
    assert(s.len() >= 3 || (s[0] == '-' && s.len() >= 4));
    assert(spec_form(s, 0, MAX_DEPTH as nat) == Ok::<(TokenV, int), LprpError>(
        (TokenV::Float(s), s.len() as int),
    ));
    assert(spec_expr_items(s, s.len() as int) == Ok::<Seq<TokenV>, LprpError>(Seq::empty()));
    let items = seq![TokenV::Float(s)] + Seq::<TokenV>::empty();
    assert(spec_expr_items(s, 0) == Ok::<Seq<TokenV>, LprpError>(items));
    assert(items.len() == 1 && items[0] == TokenV::Float(s));
}

/// `n` opening parentheses and nothing else.
pub open spec fn open_parens(n: nat) -> Seq<char>
    decreases n,
{
    if n == 0 {
        Seq::empty()
    } else {
        seq!['('] + open_parens((n - 1) as nat)
    }
}

proof fn lemma_open_parens_chars(n: nat)
    ensures
        open_parens(n).len() == n,
        forall|i: int| 0 <= i < n ==> open_parens(n)[i] == '(',
    decreases n,
{
    if n > 0 {
        lemma_open_parens_chars((n - 1) as nat);
    }
}

proof fn lemma_all_parens_form(s: Seq<char>, pos: int, depth: nat)
    requires
        forall|i: int| 0 <= i < s.len() ==> s[i] == '(',
        0 <= pos < s.len(),
        depth < s.len() - pos,
    ensures
        spec_form(s, pos, depth) == Err::<(TokenV, int), LprpError>(
            LprpError::RecursionDepthError,
        ),
    decreases depth,
{
    if depth > 0 {
        assert(s[pos + 1] == '(');
        lemma_all_parens_form(s, pos + 1, (depth - 1) as nat);
        assert(spec_list_items(s, pos + 1, (depth - 1) as nat) == Err::<
            (Seq<TokenV>, int),
            LprpError,
        >(LprpError::RecursionDepthError));
    }
}

/// Lists nested `n` deep and otherwise empty: `(((...)))`.
pub open spec fn nested_list(n: nat) -> TokenV
    decreases n,
{
    if n == 0 {
        TokenV::List(Seq::empty())
    } else {
        TokenV::List(seq![nested_list((n - 1) as nat)])
    }
}

proof fn lemma_nested_list_wf(n: nat)
    ensures
        wf_token(nested_list(n)),
        token_depth(nested_list(n)) == n + 1,
    decreases n,
{
    if n == 0 {
        assert(wf_tokens(Seq::empty()));
        assert(tokens_depth(Seq::empty()) == 0);
    } else {
        lemma_nested_list_wf((n - 1) as nat);
        let inner = nested_list((n - 1) as nat);
        assert(seq![inner].drop_first() =~= Seq::<TokenV>::empty());
        assert(seq![inner][0] == inner);
        assert(wf_tokens(Seq::<TokenV>::empty()));
        assert(tokens_depth(Seq::<TokenV>::empty()) == 0);
        assert(wf_tokens(seq![inner]));
        assert(tokens_depth(seq![inner]) == token_depth(inner));
    }
}

/// Nesting parses correctly at any depth up to the allowance: the printed
/// form of a list nested `n` deep reads back to it.
pub proof fn lemma_deep_nesting_reads_back(n: nat)
    requires
        n + 1 <= MAX_DEPTH,
    ensures
        spec_read(spec_print(nested_list(n))) == Ok::<TokenV, LprpError>(nested_list(n)),
{
    lemma_nested_list_wf(n);
    lemma_read_print_round_trip(nested_list(n));
}

/// Input nested deeper than the depth allowance fails with
/// `RecursionDepthError`, not a crash: here, one parenthesis past the
/// limit.
pub proof fn lemma_read_too_deep()
    ensures
        spec_read(open_parens((MAX_DEPTH + 1) as nat)) == Err::<TokenV, LprpError>(
            LprpError::RecursionDepthError,
        ),
{
    let s = open_parens((MAX_DEPTH + 1) as nat);
    lemma_open_parens_chars((MAX_DEPTH + 1) as nat);
    lemma_all_parens_form(s, 0, MAX_DEPTH as nat);
    assert(spec_expr_items(s, 0) == Err::<Seq<TokenV>, LprpError>(
        LprpError::RecursionDepthError,
    ));
}

} // verus!
