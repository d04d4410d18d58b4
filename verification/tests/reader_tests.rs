use lprp::grammar::{LprpError, MAX_DEPTH};
use lprp::reader::{
    read, read_keyword, read_list, read_num, read_quote, read_special, read_string,
    read_symbol, Cursor,
};
use lprp::token::Token;

#[test]
fn test_token_into() {
    let st = Token::Str("Hello, world!!".to_string());
    let st2: Result<String, LprpError> = st.into_string();
    assert_eq!(st2, Ok("\"Hello, world!!\"".to_string()));
}

#[test]
fn test_read_num() {
    let mut i = Cursor::new("123");
    let mut f = Cursor::new("-0.12");
    assert_eq!(read_num(&mut i), Ok(Token::Int(123)));
    assert_eq!(read_num(&mut f), Ok(Token::Float("-0.12".to_string())));
}

#[test]
fn test_read_symbol() {
    let mut sym = Cursor::new("with-open");
    let mut error_sym = Cursor::new("with_open");
    let mut nil = Cursor::new("nil");
    let mut t = Cursor::new("t");
    assert_eq!(read_symbol(&mut sym), Token::Symbol("with-open".to_string()));
    assert_eq!(read_symbol(&mut error_sym), Token::Symbol("with".to_string()));
    assert_eq!(read_symbol(&mut nil), Token::Nil);
    assert_eq!(read_symbol(&mut t), Token::T);
}

#[test]
fn test_read_keyword() {
    let mut key = Cursor::new(":my-key");
    let mut err_key = Cursor::new(":error:");
    assert_eq!(read_keyword(&mut key), Ok(Token::Symbol(":my-key".to_string())));
    assert_eq!(read_keyword(&mut err_key), Err(LprpError::SyntaxError));
}

#[test]
fn test_read_special() {
    let mut sp = Cursor::new("*special*");
    let mut e = Cursor::new("*special");
    let mut e2 = Cursor::new("***");
    assert_eq!(read_special(&mut sp), Ok(Token::Symbol("*special*".to_string())));
    assert_eq!(read_special(&mut e), Err(LprpError::SyntaxError));
    assert_eq!(read_special(&mut e2), Err(LprpError::SyntaxError));
}

#[test]
fn test_read_string() {
    let mut s = Cursor::new("\"(Oops!)\"");
    assert_eq!(read_string(&mut s), Ok(Token::Str("(Oops!)".to_string())));
}

#[test]
fn test_read_list() {
    let mut l = Cursor::new("(1 (2 3))");
    assert_eq!(
        read_list(&mut l, MAX_DEPTH),
        Ok(Token::List(vec![
            Token::Int(1),
            Token::List(vec![Token::Int(2), Token::Int(3),])
        ]))
    );
}

#[test]
fn test_read_quote() {
    let mut q = Cursor::new("'(1 2 3)");
    assert_eq!(
        read_quote(&mut q, MAX_DEPTH),
        Ok(Token::Quote(Box::new(Token::List(vec![
            Token::Int(1),
            Token::Int(2),
            Token::Int(3),
        ]))))
    );
}

#[test]
fn reader_test_read() {
    let mut expr = Cursor::new("((1 -2.3) (*a* :b))");
    assert_eq!(
        read_list(&mut expr, MAX_DEPTH),
        Ok(Token::List(vec![
            Token::List(vec![Token::Int(1), Token::Float("-2.3".to_string()),]),
            Token::List(vec![
                Token::Symbol("*a*".to_string()),
                Token::Symbol(":b".to_string()),
            ])
        ]))
    );
}

#[test]
fn lib_test_read() {
    let gv = "*global*".to_string();
    assert_eq!(read(&gv), Ok(Token::Symbol("*global*".to_string())));

    let expr = "(cons (cons -1 2.0) (cons \"Hello, world!!\" nil))".to_string();
    assert_eq!(
        read(&expr),
        Ok(Token::List(vec![
            Token::Symbol("cons".to_string()),
            Token::List(vec![
                Token::Symbol("cons".to_string()),
                Token::Int(-1),
                Token::Float("2.0".to_string())
            ]),
            Token::List(vec![
                Token::Symbol("cons".to_string()),
                Token::Str("Hello, world!!".to_string()),
                Token::Nil
            ])
        ]))
    );
}
