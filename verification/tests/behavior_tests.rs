use lprp::grammar::{LprpError, MAX_DEPTH};
use lprp::printer::print_token;
use lprp::reader::read;
use lprp::token::Token;

#[test]
fn test_read_integers() {
    assert_eq!(read("123"), Ok(Token::Int(123)));
    assert_eq!(read("-456"), Ok(Token::Int(-456)));
    assert_eq!(read("0"), Ok(Token::Int(0)));
    assert_eq!(read("9223372036854775807"), Ok(Token::Int(i64::MAX)));
    assert_eq!(read("-9223372036854775808"), Ok(Token::Int(i64::MIN)));
}

#[test]
fn test_read_floats() {
    assert_eq!(read("3.14"), Ok(Token::Float("3.14".to_string())));
    assert_eq!(read("-0.5"), Ok(Token::Float("-0.5".to_string())));
}

#[test]
fn test_read_num_errors() {
    assert_eq!(read("-"), Err(LprpError::ReadNumError));
    assert_eq!(read("1.2.3"), Err(LprpError::ReadNumError));
    assert_eq!(read("1."), Err(LprpError::ReadNumError));
    assert_eq!(read(".5"), Err(LprpError::SyntaxError));
    assert_eq!(read("1-2"), Err(LprpError::ReadNumError));
    assert_eq!(read("99999999999999999999"), Err(LprpError::ReadNumError));
}

#[test]
fn test_read_reserved_words() {
    assert_eq!(read("nil"), Ok(Token::Nil));
    assert_eq!(read("NIL"), Ok(Token::Nil));
    assert_eq!(read("t"), Ok(Token::T));
}

#[test]
fn test_read_simple_list() {
    assert_eq!(
        read("(cons 1 2)"),
        Ok(Token::List(vec![
            Token::Symbol("cons".to_string()),
            Token::Int(1),
            Token::Int(2),
        ]))
    );
}

#[test]
fn test_read_quoted_list() {
    assert_eq!(
        read("'(1 2 3)"),
        Ok(Token::Quote(Box::new(Token::List(vec![
            Token::Int(1),
            Token::Int(2),
            Token::Int(3),
        ]))))
    );
}

#[test]
fn test_read_double_quote_form() {
    assert_eq!(
        read("''a"),
        Ok(Token::Quote(Box::new(Token::Quote(Box::new(Token::Symbol("a".to_string()))))))
    );
}

#[test]
fn test_read_special_symbols() {
    assert_eq!(read("*special*"), Ok(Token::Symbol("*special*".to_string())));
    assert_eq!(read("*bad"), Err(LprpError::SyntaxError));
    assert_eq!(read("**"), Err(LprpError::SyntaxError));
}

#[test]
fn test_read_keyword_symbols() {
    assert_eq!(read(":my-key"), Ok(Token::Symbol(":my-key".to_string())));
    assert_eq!(read(":error:"), Err(LprpError::SyntaxError));
}

#[test]
fn test_read_str() {
    assert_eq!(read("\"Hello\""), Ok(Token::Str("Hello".to_string())));
}

#[test]
fn test_read_nested_list() {
    assert_eq!(
        read("(1 (2 3))"),
        Ok(Token::List(vec![
            Token::Int(1),
            Token::List(vec![Token::Int(2), Token::Int(3)]),
        ]))
    );
}

#[test]
fn test_read_empty_input() {
    assert_eq!(read(""), Err(LprpError::ReadError));
    assert_eq!(read("   "), Err(LprpError::ReadError));
}

#[test]
fn test_read_unexpected_char() {
    assert_eq!(read("&"), Err(LprpError::SyntaxError));
}

#[test]
fn test_read_unterminated() {
    assert_eq!(read("(1 2"), Err(LprpError::SyntaxError));
    assert_eq!(read("\"abc"), Err(LprpError::SyntaxError));
    assert_eq!(read("'"), Err(LprpError::SyntaxError));
}

#[test]
fn test_read_first_form_wins() {
    assert_eq!(read("1 2 3"), Ok(Token::Int(1)));
}

#[test]
fn test_depth_limit() {
    let deep = MAX_DEPTH as usize;
    let mut ok_input = String::new();
    for _ in 0..deep {
        ok_input.push('(');
    }
    for _ in 0..deep {
        ok_input.push(')');
    }
    assert!(read(&ok_input).is_ok());

    let mut too_deep = String::from("(");
    too_deep.push_str(&ok_input);
    too_deep.push(')');
    assert_eq!(read(&too_deep), Err(LprpError::RecursionDepthError));

    let mut open_only = String::new();
    for _ in 0..(deep + 1) {
        open_only.push('(');
    }
    assert_eq!(read(&open_only), Err(LprpError::RecursionDepthError));
}

#[test]
fn test_print_read_round_trip() {
    let inputs = [
        "t",
        "nil",
        "123",
        "-456",
        "-2.5",
        "with-open",
        ":my-key",
        "*special*",
        "\"Hello, world!!\"",
        "'(1 2 3)",
        "(cons (cons -1 2.0) (cons \"Hello\" nil))",
        "()",
    ];
    for input in inputs.iter() {
        let tok = read(input).unwrap();
        let printed = print_token(&tok);
        assert_eq!(read(&printed), Ok(tok));
    }
}

#[test]
fn test_print_normalizes_spacing() {
    let tok = read("( 1   2 )").unwrap();
    assert_eq!(print_token(&tok), "(1 2)".to_string());
}

#[test]
fn test_into_int() {
    let num = read("42").unwrap();
    let v: Result<i64, LprpError> = num.into_int();
    assert_eq!(v, Ok(42));

    let not_num = read("nil").unwrap();
    let e: Result<i64, LprpError> = not_num.into_int();
    assert_eq!(e, Err(LprpError::ConversionError));
}

#[test]
fn test_error_descriptions() {
    assert_eq!(LprpError::SyntaxError.description(), "SyntaxError".to_string());
    assert_eq!(LprpError::ReadError.description(), "ReadError".to_string());
    assert_eq!(LprpError::ReadNumError.description(), "ReadNumError".to_string());
    assert_eq!(
        LprpError::ConversionError.description(),
        "ConversionError: Not support its type.".to_string()
    );
    assert_eq!(
        LprpError::RecursionDepthError.description(),
        "RecursionDepthError".to_string()
    );
}

#[test]
fn test_eval_stub() {
    assert_eq!(lprp::primitives::eval("123"), Token::Int(123));
    assert_eq!(lprp::primitives::eval("\"hi\""), Token::Str("hi".to_string()));
    assert_eq!(lprp::primitives::eval("(cons 1 2)"), Token::Nil);
}

#[test]
fn test_eval_top_level() {
    assert_eq!(
        lprp::eval::eval("(cons 1 2)"),
        Ok(Token::List(vec![
            Token::Symbol("cons".to_string()),
            Token::Int(1),
            Token::Int(2),
        ]))
    );
    assert_eq!(lprp::eval::eval("foo"), Err(LprpError::SyntaxError));
    assert_eq!(lprp::eval::eval("12"), Ok(Token::Int(12)));
    assert_eq!(lprp::eval::eval("bad&input"), Err(LprpError::SyntaxError));
}
