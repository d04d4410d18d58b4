use lprp::primitives::{atom, car, cdr, eq, get_args, get_sym, is_car_sym};
use lprp::reader::read;
use lprp::token::Token;

#[test]
fn test_eq() {
    let list_1 = read("'(1 2 3)").unwrap();
    assert_eq!(
        eq(
            &list_1,
            &Token::Quote(Box::new(Token::List(vec![
                Token::Int(1),
                Token::Int(2),
                Token::Int(3),
            ])))
        ),
        true
    );

    let sym_1 = read("cons").unwrap();
    let sym_2 = read("conj").unwrap();
    assert_eq!(eq(&sym_1, &sym_2), false);
}

#[test]
fn test_atom() {
    let num = read("123").unwrap();
    assert_eq!(atom(&num), true);

    let nil = read("'()").unwrap();
    assert_eq!(atom(&nil), true);

    let list = read("'(1 2 3)").unwrap();
    assert_eq!(atom(&list), false);
}

#[test]
fn test_car() {
    let list = read("(cons 1 2)").unwrap();
    assert_eq!(car(&list), Some(&Token::Symbol("cons".to_string())));

    let quote_list = read("'(1 2 3)").unwrap();
    assert_eq!(car(&quote_list), Some(&Token::Int(1)));
}

#[test]
fn test_cdr() {
    let list = read("(cons 1 2)").unwrap();

    assert_eq!(cdr(&list), Some(Token::List(vec![Token::Int(1), Token::Int(2)])));

    let quote_list = read("'(1 2 3)").unwrap();

    assert_eq!(cdr(&quote_list), Some(Token::List(vec![Token::Int(2), Token::Int(3)])));
}

#[test]
fn test_is_car_sym() {
    let list = read("(cons 1 nil)").unwrap();
    assert!(is_car_sym(&list));

    let e = read("'(1 2 3)").unwrap();
    assert!(!is_car_sym(&e));

    let quote = read("'(cons 1.2 \"Hello\")").unwrap();
    assert!(is_car_sym(&quote));
}

#[test]
fn test_get_sym() {
    let list = read("(format t \"Hello\")").unwrap();

    assert_eq!(get_sym(&list), Some(&Token::Symbol("format".to_string())));

    let e = read("'(1 2 3)").unwrap();
    assert_eq!(get_sym(&e), None);
}

#[test]
fn test_get_args() {
    let list = read("(car '(1 2))").unwrap();

    assert_eq!(
        get_args(&list),
        Some(Token::List(vec![Token::Quote(Box::new(Token::List(vec![
            Token::Int(1),
            Token::Int(2)
        ])))]))
    );
}
