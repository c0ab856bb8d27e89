use nous::ast::{items_are_wf, Block, BlockItem, Expression, Identifier, Statement};
use nous::errors::Error;
use nous::lexer::Token;
use nous::loop_labeling::LoopLabeling;

#[test]
fn precedences() {
    assert_eq!(Token::Mul.precedence().ok(), Some(50));
    assert_eq!(Token::Negation.precedence().ok(), Some(45));
    assert_eq!(Token::GreaterThanOrEq.precedence().ok(), Some(35));
    assert_eq!(Token::NotEqualTo.precedence().ok(), Some(30));
    assert_eq!(Token::And.precedence().ok(), Some(10));
    assert_eq!(Token::Or.precedence().ok(), Some(5));
    assert_eq!(Token::QuestionMark.precedence().ok(), Some(3));
    assert_eq!(Token::Assign.precedence().ok(), Some(1));
}

#[test]
fn precedence_of_non_operator_is_an_error() {
    match Token::Semicolon.precedence() {
        Err(Error::Precedence { found }) => assert_eq!(found, Token::Semicolon),
        _ => panic!("expected a precedence error"),
    }
    assert!(!Token::Identifier(String::from("x")).is_binary_operator());
    assert!(Token::QuestionMark.is_binary_operator());
    assert!(!Token::Not.is_binary_operator());
}

#[test]
fn loop_labels_are_numbered() {
    let mut labeling = LoopLabeling::new();
    assert_eq!(labeling.make_label(), Identifier(String::from("label.1")));
    assert_eq!(labeling.make_label(), Identifier(String::from("label.2")));
    labeling.current_label = Some(Identifier(String::from("label.2")));
    assert_eq!(labeling.annotate(), Identifier(String::from("label.2")));
}

#[test]
fn break_outside_loop_is_rejected() {
    let mut labeling = LoopLabeling::new();
    let s = Statement::Compound(Block(vec![
        BlockItem::S(Statement::Null),
        BlockItem::S(Statement::Break { label: None }),
    ]));
    assert!(matches!(labeling.label_statement(s, &None), Err(Error::JumpOutsideLoop)));
}

#[test]
fn nested_loops_get_innermost_label() {
    let mut labeling = LoopLabeling::new();
    let inner = Statement::DoWhile {
        body: Box::new(Statement::Continue { label: None }),
        condition: Expression::Constant(1),
        identifier: None,
    };
    let outer = Statement::While {
        condition: Expression::Constant(1),
        body: Box::new(Statement::Compound(Block(vec![
            BlockItem::S(inner),
            BlockItem::S(Statement::Break { label: None }),
        ]))),
        identifier: None,
    };
    let labeled = labeling.label_statement(outer, &None).ok().unwrap();
    let expected = Statement::While {
        condition: Expression::Constant(1),
        body: Box::new(Statement::Compound(Block(vec![
            BlockItem::S(Statement::DoWhile {
                body: Box::new(Statement::Continue {
                    label: Some(Identifier(String::from("label.2"))),
                }),
                condition: Expression::Constant(1),
                identifier: Some(Identifier(String::from("label.2"))),
            }),
            BlockItem::S(Statement::Break { label: Some(Identifier(String::from("label.1"))) }),
        ]))),
        identifier: Some(Identifier(String::from("label.1"))),
    };
    assert_eq!(labeled, expected);
}

#[test]
fn well_formedness_check() {
    let assign_to_constant = vec![BlockItem::S(Statement::Expression(Expression::Assignment(
        Box::new(Expression::Constant(1)),
        Box::new(Expression::Constant(2)),
    )))];
    assert!(!items_are_wf(&assign_to_constant));
    let unlabeled = vec![BlockItem::S(Statement::Break { label: None })];
    assert!(!items_are_wf(&unlabeled));
    let fine = vec![BlockItem::S(Statement::Break {
        label: Some(Identifier(String::from("label.1"))),
    })];
    assert!(items_are_wf(&fine));
}
