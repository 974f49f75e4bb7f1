use pseudocode::lexer::lexer;
use pseudocode::token::{LiteralValue, Number, Operator, Token};

#[test]
fn lexer_number() {
    let output = lexer(&String::from("1.03e8")).unwrap();
    let first_token = &output.get(0).unwrap().token;
    assert!(
        first_token
            == &Token::Literal(LiteralValue::Number(Number {
                base: String::from("1"),
                decimal: Some(String::from("03")),
                exponent: Some(String::from("8")),
            }))
    )
}

#[test]
fn lexer_assignment() {
    let output = lexer(&String::from("x=1")).unwrap();
    let identifier = output.get(0).unwrap();
    let equals = output.get(1).unwrap();
    let value = output.get(2).unwrap();
    let eos = output.get(3).unwrap();
    assert!(identifier.token == Token::Identifier(String::from("x")));
    assert!(equals.token == Token::Operator(Operator::Equals));
    assert!(
        value.token
            == Token::Literal(LiteralValue::Number(Number {
                base: String::from("1"),
                decimal: None,
                exponent: None,
            }))
    );
    assert!(eos.token == Token::EndOfSequence);
}

#[test]
fn lexer_divide() {
    let output = lexer(&String::from("x/y")).unwrap();
    assert!(output.get(0).unwrap().token == Token::Identifier(String::from("x")));
    assert!(output.get(1).unwrap().token == Token::Operator(Operator::Divide));
    assert!(output.get(2).unwrap().token == Token::Identifier(String::from("y")));
}

#[test]
fn lexer_integer_divide() {
    let output = lexer(&String::from("x//y")).unwrap();
    println!("{:?}", output);
    assert!(output.get(0).unwrap().token == Token::Identifier(String::from("x")));
    assert!(output.get(1).unwrap().token == Token::Operator(Operator::IntegerDivide));
    assert!(output.get(2).unwrap().token == Token::Identifier(String::from("y")));
}

#[test]
fn lexer_add() {
    let output = lexer(&String::from("x+y")).unwrap();
    assert!(output.get(0).unwrap().token == Token::Identifier(String::from("x")));
    assert!(output.get(1).unwrap().token == Token::Operator(Operator::Plus));
    assert!(output.get(2).unwrap().token == Token::Identifier(String::from("y")));
}

#[test]
fn lexer_multiply() {
    let output = lexer(&String::from("x*y")).unwrap();
    assert!(output.get(0).unwrap().token == Token::Identifier(String::from("x")));
    assert!(output.get(1).unwrap().token == Token::Operator(Operator::Times));
    assert!(output.get(2).unwrap().token == Token::Identifier(String::from("y")));
}

#[test]
fn lexer_minus() {
    let output = lexer(&String::from("x-y")).unwrap();
    assert!(output.get(0).unwrap().token == Token::Identifier(String::from("x")));
    assert!(output.get(1).unwrap().token == Token::Operator(Operator::Minus));
    assert!(output.get(2).unwrap().token == Token::Identifier(String::from("y")));
}

#[test]
fn and() {
    let output = lexer(&String::from("x and y")).unwrap();
    assert!(output.get(0).unwrap().token == Token::Identifier(String::from("x")));
    assert!(output.get(1).unwrap().token == Token::Operator(Operator::And));
    assert!(output.get(2).unwrap().token == Token::Identifier(String::from("y")));
}

#[test]
fn or() {
    let output = lexer(&String::from("x or y")).unwrap();
    assert!(output.get(0).unwrap().token == Token::Identifier(String::from("x")));
    assert!(output.get(1).unwrap().token == Token::Operator(Operator::Or));
    assert!(output.get(2).unwrap().token == Token::Identifier(String::from("y")));
}

#[test]
fn lexer_string() {}

#[test]
fn lexer_list() {}

#[test]
fn lexer_dot() {}

#[test]
fn lexer_for_loop() {}

#[test]
fn lexer_while_loop() {}

#[test]
fn lexer_function() {}

#[test]
fn mod_number() {
    let output = lexer(&String::from("1.03e8")).unwrap();
    let first_token = &output.get(0).unwrap().token;
    assert!(
        first_token
            == &Token::Literal(LiteralValue::Number(Number {
                base: String::from("1"),
                decimal: Some(String::from("03")),
                exponent: Some(String::from("8")),
            }))
    )
}

#[test]
fn mod_assignment() {
    let output = lexer(&String::from("x=1")).unwrap();
    let identifier = output.get(0).unwrap();
    let equals = output.get(1).unwrap();
    let value = output.get(2).unwrap();
    let eos = output.get(3).unwrap();
    assert!(identifier.token == Token::Identifier(String::from("x")));
    assert!(equals.token == Token::Operator(Operator::Equals));
    assert!(
        value.token
            == Token::Literal(LiteralValue::Number(Number {
                base: String::from("1"),
                decimal: None,
                exponent: None,
            }))
    );
    assert!(eos.token == Token::EndOfSequence);
}

#[test]
fn mod_divide() {
    let output = lexer(&String::from("x/y")).unwrap();
    assert!(output.get(0).unwrap().token == Token::Identifier(String::from("x")));
    assert!(output.get(1).unwrap().token == Token::Operator(Operator::Divide));
    assert!(output.get(2).unwrap().token == Token::Identifier(String::from("y")));
}

#[test]
fn mod_integer_divide() {}

#[test]
fn mod_add() {}

#[test]
fn mod_multiply() {}

#[test]
fn mod_minus() {}

#[test]
fn boolean() {}

#[test]
fn mod_string() {}

#[test]
fn mod_list() {}

#[test]
fn mod_dot() {}

#[test]
fn mod_for_loop() {}

#[test]
fn mod_while_loop() {}

#[test]
fn mod_function() {}
