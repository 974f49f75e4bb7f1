use pseudocode::arena::{Arena, Item};
use pseudocode::lexer::{get_next, lexer};
use pseudocode::parser::parser;
use pseudocode::token::{
    Keyword, LexErrorKind, LiteralValue, Loc, Number, Operator, ParseError, ParseErrorKind, Token,
};

fn parse_source(src: &str) -> (Arena, usize) {
    let tokens = lexer(&String::from(src)).unwrap();
    parser(&tokens).unwrap()
}

fn parse_error(src: &str) -> ParseError {
    let tokens = lexer(&String::from(src)).unwrap();
    parser(&tokens).unwrap_err()
}

fn number(base: &str) -> Token {
    Token::Literal(LiteralValue::Number(Number {
        base: String::from(base),
        decimal: None,
        exponent: None,
    }))
}

#[test]
fn number_fragments_round_trip() {
    let cases = vec!["7", "42", "3.14", "2e9", "42.5e7", "1.03e8"];
    for src in cases {
        let output = lexer(&String::from(src)).unwrap();
        assert_eq!(output.len(), 2);
        match &output[0].token {
            Token::Literal(LiteralValue::Number(n)) => {
                let mut rebuilt = n.base.clone();
                if let Some(d) = &n.decimal {
                    rebuilt.push('.');
                    rebuilt.push_str(d);
                }
                if let Some(e) = &n.exponent {
                    rebuilt.push('e');
                    rebuilt.push_str(e);
                }
                assert_eq!(rebuilt, src);
            }
            other => panic!("expected a number literal, found {:?}", other),
        }
        assert!(output[1].token == Token::EndOfSequence);
    }
}

#[test]
fn newline_tokens_and_positions() {
    let output = lexer(&String::from("x\ny")).unwrap();
    assert!(output[0].token == Token::Identifier(String::from("x")));
    assert!(output[1].token == Token::NewLine);
    assert!(output[2].token == Token::Identifier(String::from("y")));
    assert!(output[3].token == Token::EndOfSequence);
    assert_eq!(output[1].loc, Loc::new(1, 1));
    assert_eq!(output[2].loc, Loc::new(2, 0));
}

#[test]
fn keyword_table() {
    let cases = vec![
        ("if", Keyword::If),
        ("elseif", Keyword::ElseIf),
        ("endif", Keyword::EndIf),
        ("for", Keyword::For),
        ("endfor", Keyword::EndFor),
        ("while", Keyword::While),
        ("endwhile", Keyword::EndWhile),
        ("function", Keyword::Function),
        ("endfunction", Keyword::EndFunction),
        ("return", Keyword::Return),
        ("do", Keyword::Do),
        ("to", Keyword::To),
        ("then", Keyword::Then),
    ];
    for (src, kw) in cases {
        let output = lexer(&String::from(src)).unwrap();
        assert!(output[0].token == Token::Keyword(kw));
    }
}

#[test]
fn word_operators_and_booleans() {
    assert!(lexer(&String::from("not")).unwrap()[0].token == Token::Operator(Operator::Not));
    assert!(lexer(&String::from("in")).unwrap()[0].token == Token::Operator(Operator::In));
    assert!(
        lexer(&String::from("true")).unwrap()[0].token == Token::Literal(LiteralValue::Bool(true))
    );
    assert!(
        lexer(&String::from("false")).unwrap()[0].token
            == Token::Literal(LiteralValue::Bool(false))
    );
}

#[test]
fn modulo_and_not_equals() {
    let output = lexer(&String::from("x%y")).unwrap();
    assert!(output[1].token == Token::Operator(Operator::Modulo));
    let output = lexer(&String::from("x!=y")).unwrap();
    assert!(output[1].token == Token::Operator(Operator::NotEquals));
}

#[test]
fn brackets_and_commas() {
    let output = lexer(&String::from("f(1,2)")).unwrap();
    assert!(output[0].token == Token::Identifier(String::from("f")));
    assert!(output[1].token == Token::OpenBracket);
    assert!(output[2].token == number("1"));
    assert!(output[3].token == Token::Comma);
    assert!(output[4].token == number("2"));
    assert!(output[5].token == Token::CloseBracket);
    assert!(output[6].token == Token::EndOfSequence);
}

#[test]
fn unexpected_character() {
    let err = lexer(&String::from("\"hello\"")).unwrap_err();
    assert_eq!(err.kind, LexErrorKind::UnexpectedCharacter('"'));
    assert_eq!(err.loc, Loc::new(1, 0));
}

#[test]
fn malformed_number_trailing_dot() {
    let err = lexer(&String::from("1.")).unwrap_err();
    assert_eq!(err.kind, LexErrorKind::MalformedNumber);
    assert_eq!(err.loc, Loc::new(1, 1));
}

#[test]
fn malformed_number_trailing_exponent() {
    let err = lexer(&String::from("12e")).unwrap_err();
    assert_eq!(err.kind, LexErrorKind::MalformedNumber);
    assert_eq!(err.loc, Loc::new(1, 2));
}

#[test]
fn unterminated_operator() {
    let err = lexer(&String::from("!")).unwrap_err();
    assert_eq!(err.kind, LexErrorKind::UnterminatedOperator);
    assert_eq!(err.loc, Loc::new(1, 0));
}

#[test]
fn precedence_times_binds_tighter() {
    let (arena, root) = parse_source("x=1+2*3");
    let assign = arena.child(root, 0);
    let expr = arena.child(assign, 1);
    let plus = arena.child(expr, 0);
    assert!(arena.get(plus).item == Item::Operator(Operator::Plus));
    let left = arena.child(plus, 0);
    assert!(arena.get(left).item
        == Item::Number(Number { base: String::from("1"), decimal: None, exponent: None }));
    let right = arena.child(plus, 1);
    assert!(arena.get(right).item == Item::Operator(Operator::Times));
    assert!(arena.get(arena.child(right, 0)).item
        == Item::Number(Number { base: String::from("2"), decimal: None, exponent: None }));
    assert!(arena.get(arena.child(right, 1)).item
        == Item::Number(Number { base: String::from("3"), decimal: None, exponent: None }));
}

#[test]
fn subtraction_is_left_associative() {
    let (arena, root) = parse_source("x=1-2-3");
    let assign = arena.child(root, 0);
    let expr = arena.child(assign, 1);
    let outer = arena.child(expr, 0);
    assert!(arena.get(outer).item == Item::Operator(Operator::Minus));
    let inner = arena.child(outer, 0);
    assert!(arena.get(inner).item == Item::Operator(Operator::Minus));
    assert!(arena.get(arena.child(inner, 0)).item
        == Item::Number(Number { base: String::from("1"), decimal: None, exponent: None }));
    assert!(arena.get(arena.child(inner, 1)).item
        == Item::Number(Number { base: String::from("2"), decimal: None, exponent: None }));
    assert!(arena.get(arena.child(outer, 1)).item
        == Item::Number(Number { base: String::from("3"), decimal: None, exponent: None }));
}

#[test]
fn unary_not_takes_one_operand() {
    let (arena, root) = parse_source("x=not y");
    let assign = arena.child(root, 0);
    let expr = arena.child(assign, 1);
    let not_node = arena.child(expr, 0);
    assert!(arena.get(not_node).item == Item::Operator(Operator::Not));
    assert_eq!(arena.child_count(not_node), 1);
    assert!(arena.get(arena.child(not_node, 0)).item == Item::Identifier(String::from("y")));
}

#[test]
fn call_arguments_in_order() {
    let (arena, root) = parse_source("x=f(1,2)");
    let assign = arena.child(root, 0);
    let expr = arena.child(assign, 1);
    let call = arena.child(expr, 0);
    assert!(arena.get(call).item == Item::Call(String::from("f")));
    assert_eq!(arena.child_count(call), 2);
    assert!(arena.get(arena.child(call, 0)).item
        == Item::Number(Number { base: String::from("1"), decimal: None, exponent: None }));
    assert!(arena.get(arena.child(call, 1)).item
        == Item::Number(Number { base: String::from("2"), decimal: None, exponent: None }));
}

#[test]
fn unterminated_call() {
    let err = parse_error("x=f(1,2");
    assert_eq!(err.kind, ParseErrorKind::UnterminatedCall);
    assert_eq!(err.loc, Loc::new(1, 7));
}

#[test]
fn unterminated_bracket() {
    let err = parse_error("x=(1+2");
    assert_eq!(err.kind, ParseErrorKind::UnterminatedBracket);
    assert_eq!(err.loc, Loc::new(1, 2));
}

#[test]
fn closing_bracket_without_opening() {
    let err = parse_error("x=1)");
    assert_eq!(err.kind, ParseErrorKind::UnterminatedBracket);
    assert_eq!(err.loc, Loc::new(1, 3));
}

#[test]
fn empty_assigned_expression() {
    let err = parse_error("x=\n");
    assert_eq!(err.kind, ParseErrorKind::MalformedExpression);
    assert_eq!(err.loc, Loc::new(1, 2));
}

#[test]
fn boolean_literal_rejected_in_expression() {
    let err = parse_error("x=true");
    assert_eq!(err.kind, ParseErrorKind::UnexpectedToken);
}

#[test]
fn while_statement_shape() {
    let (arena, root) = parse_source("while x do\ny=1\nendwhile\n");
    let w = arena.child(root, 0);
    assert!(arena.get(w).item == Item::While);
    assert_eq!(arena.child_count(w), 2);
    let cond = arena.child(w, 0);
    assert!(arena.get(cond).item == Item::Expression);
    assert!(arena.get(arena.child(cond, 0)).item == Item::Identifier(String::from("x")));
    let body = arena.child(w, 1);
    assert!(arena.get(body).item == Item::Block);
    assert!(arena.get(arena.child(body, 0)).item == Item::Assign);
}

#[test]
fn while_missing_do() {
    let err = parse_error("while x\ny=1\nendwhile");
    assert_eq!(err.kind, ParseErrorKind::ExpectedKeyword(Keyword::Do));
    assert_eq!(err.loc, Loc::new(1, 7));
}

#[test]
fn while_missing_endwhile() {
    let err = parse_error("while x do\ny=1\n");
    assert_eq!(err.kind, ParseErrorKind::ExpectedKeyword(Keyword::EndWhile));
}

#[test]
fn if_with_elseif_shape() {
    let (arena, root) = parse_source("if x then\ny=1\nelseif z then\ny=2\nendif\n");
    let i = arena.child(root, 0);
    assert!(arena.get(i).item == Item::If);
    assert_eq!(arena.child_count(i), 3);
    assert!(arena.get(arena.child(i, 0)).item == Item::Expression);
    assert!(arena.get(arena.child(i, 1)).item == Item::Block);
    let elif = arena.child(i, 2);
    assert!(arena.get(elif).item == Item::ElseIf);
    assert_eq!(arena.child_count(elif), 2);
    assert!(arena.get(arena.child(elif, 0)).item == Item::Expression);
    assert!(arena.get(arena.child(elif, 1)).item == Item::Block);
}

#[test]
fn if_missing_then() {
    let err = parse_error("if x\ny=1\nendif");
    assert_eq!(err.kind, ParseErrorKind::ExpectedKeyword(Keyword::Then));
}

#[test]
fn if_missing_newline_after_then() {
    let err = parse_error("if x then y=1\nendif");
    assert_eq!(err.kind, ParseErrorKind::ExpectedNewLine);
}

#[test]
fn if_missing_endif() {
    let err = parse_error("if x then\ny=1\n");
    assert_eq!(err.kind, ParseErrorKind::ExpectedKeyword(Keyword::EndIf));
}

#[test]
fn for_counting_shape() {
    let (arena, root) = parse_source("for i=1 to 3 do\nx=i\nendfor\n");
    let f = arena.child(root, 0);
    assert!(arena.get(f).item == Item::For);
    assert_eq!(arena.child_count(f), 4);
    assert!(arena.get(arena.child(f, 0)).item == Item::Identifier(String::from("i")));
    assert!(arena.get(arena.child(f, 1)).item == Item::Expression);
    assert!(arena.get(arena.child(f, 2)).item == Item::Expression);
    assert!(arena.get(arena.child(f, 3)).item == Item::Block);
}

#[test]
fn for_iteration_shape() {
    let (arena, root) = parse_source("for i in xs do\nx=i\nendfor\n");
    let f = arena.child(root, 0);
    assert!(arena.get(f).item == Item::For);
    assert_eq!(arena.child_count(f), 3);
    assert!(arena.get(arena.child(f, 0)).item == Item::Identifier(String::from("i")));
    assert!(arena.get(arena.child(f, 1)).item == Item::Expression);
    assert!(arena.get(arena.child(f, 2)).item == Item::Block);
}

#[test]
fn for_missing_to() {
    let err = parse_error("for i=1 do\nx=i\nendfor");
    assert_eq!(err.kind, ParseErrorKind::ExpectedKeyword(Keyword::To));
}

#[test]
fn for_without_variable() {
    let err = parse_error("for 1=2 to 3 do\nx=1\nendfor");
    assert_eq!(err.kind, ParseErrorKind::ExpectedIdentifier);
}

#[test]
fn function_definition_shape() {
    let (arena, root) = parse_source("function f(a,b)\nx=a\nendfunction\n");
    let f = arena.child(root, 0);
    assert!(arena.get(f).item == Item::Function);
    assert_eq!(arena.child_count(f), 3);
    assert!(arena.get(arena.child(f, 0)).item == Item::Identifier(String::from("f")));
    assert!(
        arena.get(arena.child(f, 1)).item
            == Item::ParameterList(vec![String::from("a"), String::from("b")])
    );
    assert!(arena.get(arena.child(f, 2)).item == Item::Block);
}

#[test]
fn function_with_malformed_parameters() {
    let err = parse_error("function f(1)\nx=1\nendfunction");
    assert_eq!(err.kind, ParseErrorKind::MalformedParameterList);
}

#[test]
fn function_missing_bracket() {
    let err = parse_error("function f\nx=1\nendfunction");
    assert_eq!(err.kind, ParseErrorKind::ExpectedOpenBracket);
}

#[test]
fn statement_cannot_start_with_operator() {
    let err = parse_error("+x");
    assert_eq!(err.kind, ParseErrorKind::UnexpectedToken);
    assert_eq!(err.loc, Loc::new(1, 0));
}

#[test]
fn stray_end_keyword_rejected() {
    let err = parse_error("endif");
    assert_eq!(err.kind, ParseErrorKind::UnexpectedToken);
}

#[test]
fn nested_blocks() {
    let (arena, root) = parse_source("if x then\nwhile y do\nz=1\nendwhile\nendif\n");
    let i = arena.child(root, 0);
    assert!(arena.get(i).item == Item::If);
    let body = arena.child(i, 1);
    assert!(arena.get(body).item == Item::Block);
    let w = arena.child(body, 0);
    assert!(arena.get(w).item == Item::While);
    assert_eq!(arena.child_count(w), 2);
}

#[test]
fn several_statements_under_program() {
    let (arena, root) = parse_source("x=1\ny=2\n");
    assert!(arena.get(root).item == Item::Program);
    assert_eq!(arena.child_count(root), 2);
    assert!(arena.get(arena.child(root, 0)).item == Item::Assign);
    assert!(arena.get(arena.child(root, 1)).item == Item::Assign);
    let second_target = arena.child(arena.child(root, 1), 0);
    assert_eq!(arena.get(second_target).loc, Loc::new(2, 0));
}

#[test]
fn blank_lines_and_tabs_are_insignificant() {
    let (arena, root) = parse_source("\n\nif x then\n\ty=1\nendif\n");
    assert_eq!(arena.child_count(root), 1);
    assert!(arena.get(arena.child(root, 0)).item == Item::If);
}

#[test]
fn get_next_removes_the_first_character() {
    let mut s = String::from("ab");
    let c = get_next(&mut s);
    assert_eq!(c, 'a');
    assert_eq!(s, "b");
}
