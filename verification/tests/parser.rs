use pseudocode::arena::{Arena, Item};
use pseudocode::lexer::lexer;
use pseudocode::parser::parser;
use pseudocode::token::Number;

#[test]
fn test_assignment() {
    let tokens = lexer(&String::from("x=1")).unwrap();
    let (arena, initial_node): (Arena, usize) = parser(&tokens).unwrap();
    let assign_operator = arena.first_child(initial_node).unwrap();
    let assign_operator_node = arena.get(assign_operator);
    assert!(assign_operator_node.item == Item::Assign);
    let identifier_node = arena.first_child(assign_operator).unwrap();
    let identifier = arena.get(identifier_node);
    assert!(identifier.item == Item::Identifier(String::from("x")));
    let expression_node = arena.last_child(assign_operator).unwrap();
    let expression = arena.get(expression_node);
    assert!(expression.item == Item::Expression);
    let number_node = arena.last_child(expression_node).unwrap();
    let number = arena.get(number_node);
    assert!(
        number.item
            == Item::Number(Number {
                base: String::from("1"),
                exponent: None,
                decimal: None,
            })
    );
}
