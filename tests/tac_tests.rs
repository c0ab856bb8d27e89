use nous::ast::{
    self, BinaryOperator, Block, BlockItem, Declaration, Expression, Identifier, Statement,
    UnaryOperator, VariableDeclaration,
};
use nous::loop_labeling::LoopLabeling;
use nous::tac::{self, Instruction, Val, TAC};

fn id(s: &str) -> Identifier {
    Identifier(String::from(s))
}

fn constant(i: i64) -> Box<Expression> {
    Box::new(Expression::Constant(i))
}

fn var(s: &str) -> Box<Expression> {
    Box::new(Expression::Var(id(s)))
}

fn binary(op: BinaryOperator, a: Box<Expression>, b: Box<Expression>) -> Box<Expression> {
    Box::new(Expression::Binary(op, a, b))
}

fn program(items: Vec<BlockItem>) -> ast::Program {
    ast::Program(ast::Function { name: id("main"), body: Block(items) })
}

fn lower(items: Vec<BlockItem>) -> Vec<Instruction> {
    let mut generator = TAC::new(program(items));
    generator.to_tac_program().0.body
}

fn tmp(s: &str) -> Val {
    Val::Var(id(s))
}

#[test]
fn test_binary_op() {
    // return 4 - 2 + 2 - 3;
    let e = binary(
        BinaryOperator::Subtract,
        binary(
            BinaryOperator::Add,
            binary(BinaryOperator::Subtract, constant(4), constant(2)),
            constant(2),
        ),
        constant(3),
    );
    let body = lower(vec![BlockItem::S(Statement::Return(*e))]);

    let expected_instructions = vec![
        Instruction::Binary {
            binary_operator: BinaryOperator::Subtract,
            src_1: Val::Constant(4),
            src_2: Val::Constant(2),
            dst: Val::Var(Identifier(String::from("tmp.1"))),
        },
        Instruction::Binary {
            binary_operator: BinaryOperator::Add,
            src_1: Val::Var(Identifier(String::from("tmp.1"))),
            src_2: Val::Constant(2),
            dst: Val::Var(Identifier(String::from("tmp.2"))),
        },
        Instruction::Binary {
            binary_operator: BinaryOperator::Subtract,
            src_1: Val::Var(Identifier(String::from("tmp.2"))),
            src_2: Val::Constant(3),
            dst: Val::Var(Identifier(String::from("tmp.3"))),
        },
        Instruction::Return(Val::Var(Identifier(String::from("tmp.3")))),
    ];

    assert_eq!(expected_instructions, body);
}

#[test]
fn tac_tests_test_if_statement() {
    // if (2 > 1) return 3; else if (1 > 1) return 2; else return 1;
    let inner = Statement::If {
        condition: *binary(BinaryOperator::GreaterThan, constant(1), constant(1)),
        then: Box::new(Statement::Return(Expression::Constant(2))),
        else_statement: Some(Box::new(Statement::Return(Expression::Constant(1)))),
    };
    let outer = Statement::If {
        condition: *binary(BinaryOperator::GreaterThan, constant(2), constant(1)),
        then: Box::new(Statement::Return(Expression::Constant(3))),
        else_statement: Some(Box::new(inner)),
    };
    let body = lower(vec![BlockItem::S(outer)]);

    let expected_instructions: tac::Instructions = vec![
        Instruction::Binary {
            binary_operator: BinaryOperator::GreaterThan,
            src_1: Val::Constant(2),
            src_2: Val::Constant(1),
            dst: tmp("tmp.1"),
        },
        Instruction::JumpIfZero { condition: tmp("tmp.1"), target: id("else2") },
        Instruction::Return(Val::Constant(3)),
        Instruction::Jump { target: id("end1") },
        Instruction::Label(id("else2")),
        Instruction::Binary {
            binary_operator: BinaryOperator::GreaterThan,
            src_1: Val::Constant(1),
            src_2: Val::Constant(1),
            dst: tmp("tmp.2"),
        },
        Instruction::JumpIfZero { condition: tmp("tmp.2"), target: id("else4") },
        Instruction::Return(Val::Constant(2)),
        Instruction::Jump { target: id("end3") },
        Instruction::Label(id("else4")),
        Instruction::Return(Val::Constant(1)),
        Instruction::Label(id("end3")),
        Instruction::Label(id("end1")),
    ];

    assert_eq!(expected_instructions, body);
}

#[test]
fn return_constant_lowers_to_one_return() {
    let body = lower(vec![BlockItem::S(Statement::Return(Expression::Constant(2)))]);
    assert_eq!(body, vec![Instruction::Return(Val::Constant(2))]);
}

#[test]
fn if_else_skeleton() {
    // if (2 > 1) return 3; else return 1;
    let s = Statement::If {
        condition: *binary(BinaryOperator::GreaterThan, constant(2), constant(1)),
        then: Box::new(Statement::Return(Expression::Constant(3))),
        else_statement: Some(Box::new(Statement::Return(Expression::Constant(1)))),
    };
    let body = lower(vec![BlockItem::S(s)]);
    assert_eq!(
        body,
        vec![
            Instruction::Binary {
                binary_operator: BinaryOperator::GreaterThan,
                src_1: Val::Constant(2),
                src_2: Val::Constant(1),
                dst: tmp("tmp.1"),
            },
            Instruction::JumpIfZero { condition: tmp("tmp.1"), target: id("else2") },
            Instruction::Return(Val::Constant(3)),
            Instruction::Jump { target: id("end1") },
            Instruction::Label(id("else2")),
            Instruction::Return(Val::Constant(1)),
            Instruction::Label(id("end1")),
        ]
    );
}

#[test]
fn if_without_else_jumps_to_end() {
    let s = Statement::If {
        condition: Expression::Var(id("x.1")),
        then: Box::new(Statement::Return(Expression::Constant(1))),
        else_statement: None,
    };
    let body = lower(vec![BlockItem::S(s)]);
    assert_eq!(
        body,
        vec![
            Instruction::JumpIfZero { condition: tmp("x.1"), target: id("end1") },
            Instruction::Return(Val::Constant(1)),
            Instruction::Label(id("end1")),
        ]
    );
}

#[test]
fn and_with_zero_left_jumps_to_false_branch() {
    // return 0 && 5;
    let e = binary(BinaryOperator::And, constant(0), constant(5));
    let body = lower(vec![BlockItem::S(Statement::Return(*e))]);
    assert_eq!(
        body,
        vec![
            Instruction::JumpIfZero { condition: Val::Constant(0), target: id("and_false.1") },
            Instruction::JumpIfZero { condition: Val::Constant(5), target: id("and_false.1") },
            Instruction::Copy { src: Val::Constant(1), dst: tmp("result.1") },
            Instruction::Jump { target: id("end.1") },
            Instruction::Label(id("and_false.1")),
            Instruction::Copy { src: Val::Constant(0), dst: tmp("result.1") },
            Instruction::Label(id("end.1")),
            Instruction::Return(tmp("result.1")),
        ]
    );
}

#[test]
fn or_jumps_before_right_operand_is_computed() {
    // return 1 || -2;
    let right = Box::new(Expression::Unary(UnaryOperator::Negate, constant(2)));
    let e = binary(BinaryOperator::Or, constant(1), right);
    let body = lower(vec![BlockItem::S(Statement::Return(*e))]);
    assert_eq!(
        body,
        vec![
            Instruction::JumpIfNotZero { condition: Val::Constant(1), target: id("or_false.1") },
            Instruction::Unary {
                operator: UnaryOperator::Negate,
                src: Val::Constant(2),
                dst: tmp("tmp.1"),
            },
            Instruction::JumpIfNotZero { condition: tmp("tmp.1"), target: id("or_false.1") },
            Instruction::Copy { src: Val::Constant(0), dst: tmp("result.1") },
            Instruction::Jump { target: id("end.1") },
            Instruction::Label(id("or_false.1")),
            Instruction::Copy { src: Val::Constant(1), dst: tmp("result.1") },
            Instruction::Label(id("end.1")),
            Instruction::Return(tmp("result.1")),
        ]
    );
}

#[test]
fn nested_and_labels_stay_distinct() {
    // return 1 && (2 && 3);
    let e = binary(
        BinaryOperator::And,
        constant(1),
        binary(BinaryOperator::And, constant(2), constant(3)),
    );
    let body = lower(vec![BlockItem::S(Statement::Return(*e))]);
    let labels: Vec<&Identifier> = body
        .iter()
        .filter_map(|i| match i {
            Instruction::Label(l) => Some(l),
            _ => None,
        })
        .collect();
    assert_eq!(labels, vec![&id("and_false.2"), &id("end.2"), &id("and_false.1"), &id("end.1")]);
    assert_eq!(body.last(), Some(&Instruction::Return(tmp("result.1"))));
}

#[test]
fn conditional_expression_shares_result() {
    // return x ? 1 : 2;
    let e = Expression::Conditional {
        condition: var("x.1"),
        exp1: constant(1),
        exp2: constant(2),
    };
    let body = lower(vec![BlockItem::S(Statement::Return(e))]);
    assert_eq!(
        body,
        vec![
            Instruction::JumpIfZero { condition: tmp("x.1"), target: id("exp21") },
            Instruction::Copy { src: Val::Constant(1), dst: tmp("result3") },
            Instruction::Jump { target: id("end2") },
            Instruction::Label(id("exp21")),
            Instruction::Copy { src: Val::Constant(2), dst: tmp("result3") },
            Instruction::Label(id("end2")),
            Instruction::Return(tmp("result3")),
        ]
    );
}

#[test]
fn declaration_with_initializer_copies() {
    // int a = 5; a = a + 1; ;
    let decl = BlockItem::D(Declaration::VarDecl(VariableDeclaration {
        name: id("a.1"),
        initializer: Some(Expression::Constant(5)),
    }));
    let assign = BlockItem::S(Statement::Expression(Expression::Assignment(
        var("a.1"),
        binary(BinaryOperator::Add, var("a.1"), constant(1)),
    )));
    let body = lower(vec![decl, assign, BlockItem::S(Statement::Null)]);
    assert_eq!(
        body,
        vec![
            Instruction::Copy { src: Val::Constant(5), dst: tmp("a.1") },
            Instruction::Binary {
                binary_operator: BinaryOperator::Add,
                src_1: tmp("a.1"),
                src_2: Val::Constant(1),
                dst: tmp("tmp.1"),
            },
            Instruction::Copy { src: tmp("tmp.1"), dst: tmp("a.1") },
        ]
    );
}

#[test]
fn while_loop_continue_and_break_targets() {
    // while (x) { if (y) break; continue; }
    let body = Statement::Compound(Block(vec![
        BlockItem::S(Statement::If {
            condition: Expression::Var(id("y.2")),
            then: Box::new(Statement::Break { label: None }),
            else_statement: None,
        }),
        BlockItem::S(Statement::Continue { label: None }),
    ]));
    let w = Statement::While {
        condition: Expression::Var(id("x.1")),
        body: Box::new(body),
        identifier: None,
    };
    let mut labeling = LoopLabeling::new();
    let labeled = labeling.label_statement(w, &None).ok().unwrap();
    let code = lower(vec![BlockItem::S(labeled)]);
    assert_eq!(
        code,
        vec![
            Instruction::Label(id("continue_label.1")),
            Instruction::JumpIfZero { condition: tmp("x.1"), target: id("break_label.1") },
            Instruction::JumpIfZero { condition: tmp("y.2"), target: id("end1") },
            Instruction::Jump { target: id("break_label.1") },
            Instruction::Label(id("end1")),
            Instruction::Jump { target: id("continue_label.1") },
            Instruction::Jump { target: id("continue_label.1") },
            Instruction::Label(id("break_label.1")),
        ]
    );
}

#[test]
fn do_while_and_for_loops() {
    // do ; while (x);  for (i = 0; i < 3; i = i + 1) ;
    let d = Statement::DoWhile {
        body: Box::new(Statement::Null),
        condition: Expression::Var(id("x.1")),
        identifier: Some(id("label.1")),
    };
    let f = Statement::For {
        initializer: ast::ForInit::InitExp(Some(Expression::Assignment(var("i.2"), constant(0)))),
        condition: Some(*binary(BinaryOperator::LessThan, var("i.2"), constant(3))),
        post: Some(Expression::Assignment(
            var("i.2"),
            binary(BinaryOperator::Add, var("i.2"), constant(1)),
        )),
        body: Box::new(Statement::Null),
        identifier: Some(id("label.2")),
    };
    let code = lower(vec![BlockItem::S(d), BlockItem::S(f)]);
    assert_eq!(
        code,
        vec![
            Instruction::Label(id("start_label.1")),
            Instruction::Label(id("continue_label.1")),
            Instruction::JumpIfNotZero { condition: tmp("x.1"), target: id("start_label.1") },
            Instruction::Label(id("break_label.1")),
            Instruction::Copy { src: Val::Constant(0), dst: tmp("i.2") },
            Instruction::Label(id("start_label.2")),
            Instruction::Binary {
                binary_operator: BinaryOperator::LessThan,
                src_1: tmp("i.2"),
                src_2: Val::Constant(3),
                dst: tmp("tmp.1"),
            },
            Instruction::JumpIfZero { condition: tmp("tmp.1"), target: id("break_label.2") },
            Instruction::Label(id("continue_label.2")),
            Instruction::Binary {
                binary_operator: BinaryOperator::Add,
                src_1: tmp("i.2"),
                src_2: Val::Constant(1),
                dst: tmp("tmp.2"),
            },
            Instruction::Copy { src: tmp("tmp.2"), dst: tmp("i.2") },
            Instruction::Jump { target: id("start_label.2") },
            Instruction::Label(id("break_label.2")),
        ]
    );
}

#[test]
fn lowering_twice_gives_same_code() {
    let make = || {
        vec![BlockItem::S(Statement::Return(*binary(
            BinaryOperator::Or,
            constant(0),
            binary(BinaryOperator::Multiply, constant(2), constant(3)),
        )))]
    };
    let mut generator = TAC::new(program(make()));
    let first = generator.to_tac_program().0.body;
    let second = generator.to_tac_program().0.body;
    assert_eq!(first, second);
    assert_eq!(first, lower(make()));
}

#[test]
fn labels_defined_once_and_jumps_land_on_them() {
    // if (a && b) return c ? 1 : 2; else if (d || 0) return 3; else { e = 4; }
    let cond = Expression::Conditional { condition: var("c.3"), exp1: constant(1), exp2: constant(2) };
    let inner = Statement::If {
        condition: *binary(BinaryOperator::Or, var("d.4"), constant(0)),
        then: Box::new(Statement::Return(Expression::Constant(3))),
        else_statement: Some(Box::new(Statement::Compound(Block(vec![BlockItem::S(
            Statement::Expression(Expression::Assignment(var("e.5"), constant(4))),
        )])))),
    };
    let outer = Statement::If {
        condition: *binary(BinaryOperator::And, var("a.1"), var("b.2")),
        then: Box::new(Statement::Return(cond)),
        else_statement: Some(Box::new(inner)),
    };
    let code = lower(vec![BlockItem::S(outer)]);
    let mut defined: Vec<&Identifier> = Vec::new();
    for i in &code {
        if let Instruction::Label(l) = i {
            assert!(!defined.contains(&l), "label {:?} defined twice", l);
            defined.push(l);
        }
    }
    assert_eq!(defined.len(), 10);
    for i in &code {
        let target = match i {
            Instruction::Jump { target } => Some(target),
            Instruction::JumpIfZero { target, .. } => Some(target),
            Instruction::JumpIfNotZero { target, .. } => Some(target),
            _ => None,
        };
        if let Some(t) = target {
            assert!(defined.contains(&t), "jump to undefined label {:?}", t);
        }
    }
}
