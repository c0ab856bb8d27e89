use nous::assembly::{
    Assembly, BinaryOperator, CondCode, Function, Instruction, Operand, Platform, Program, Reg,
    UnaryOperator,
};
use nous::assembly_parser::AssemblyParser;
use nous::assembly_passes::{
    AllocateStack, ReplacePseudoRegisters, RewriteBinaryOp, RewriteCmp, RewriteMov,
};
use nous::ast::{self, Block, BlockItem, Expression, Identifier, Statement};
use nous::tac::{self, Val, TAC};
use nous::visitor::{
    apply_visitor, apply_visitor_with_context, assembly_passes, compile_program, Visitor,
    VisitorWithContext,
};

fn id(s: &str) -> Identifier {
    Identifier(String::from(s))
}

fn pseudo(s: &str) -> Operand {
    Operand::Pseudo(id(s))
}

fn reg(r: Reg) -> Operand {
    Operand::Register(r)
}

fn ast_program(items: Vec<BlockItem>) -> ast::Program {
    ast::Program(ast::Function { name: id("main"), body: Block(items) })
}

fn ir_program(body: Vec<tac::Instruction>) -> tac::Program {
    tac::Program(tac::Function { identifier: id("main"), body })
}

fn return_of(e: Expression) -> ast::Program {
    ast_program(vec![BlockItem::S(Statement::Return(e))])
}

#[test]
fn return_constant_selects_mov_and_ret() {
    let mut generator = TAC::new(return_of(Expression::Constant(2)));
    let ir = generator.to_tac_program();
    let mut assembly = Assembly::new(ir);
    let program = assembly.parse_program();
    assert_eq!(
        program.0.instructions,
        vec![Instruction::Mov { src: Operand::Imm(2), dst: reg(Reg::AX) }, Instruction::Ret]
    );
    assembly_passes(&mut assembly);
    assert_eq!(
        assembly.program.unwrap().0.instructions,
        vec![
            Instruction::AllocateStack(0),
            Instruction::Mov { src: Operand::Imm(2), dst: reg(Reg::AX) },
            Instruction::Ret,
        ]
    );
}

#[test]
fn return_constant_text_on_linux() {
    let text = compile_program(return_of(Expression::Constant(2)), Platform::Linux);
    assert_eq!(
        text,
        "\t.globl main\nmain:\n\tpushq\t%rbp\n\tmovq\t%rsp, %rbp\n\tsubq\t$0, %rsp\n\tmovl\t$2, %eax\n\tmovq\t%rbp, %rsp\n\tpopq\t%rbp\n\tret\n.section .note.GNU-stack,\"\",@progbits"
    );
}

#[test]
fn other_platform_has_no_note_section() {
    let text = compile_program(return_of(Expression::Constant(-7)), Platform::Other);
    assert!(text.ends_with("\tret\n"));
    assert!(text.contains("\tmovl\t$-7, %eax\n"));
}

#[test]
fn compiling_twice_gives_same_text() {
    let make = || {
        return_of(Expression::Binary(
            ast::BinaryOperator::Divide,
            Box::new(Expression::Constant(9)),
            Box::new(Expression::Unary(
                ast::UnaryOperator::Not,
                Box::new(Expression::Constant(0)),
            )),
        ))
    };
    let a = compile_program(make(), Platform::Linux);
    let b = compile_program(make(), Platform::Linux);
    assert_eq!(a, b);
}

#[test]
fn selection_table_and_first_use_slots() {
    let body = vec![
        tac::Instruction::Binary {
            binary_operator: ast::BinaryOperator::LessThan,
            src_1: Val::Var(id("a")),
            src_2: Val::Var(id("b")),
            dst: Val::Var(id("c")),
        },
        tac::Instruction::Binary {
            binary_operator: ast::BinaryOperator::Remainder,
            src_1: Val::Var(id("c")),
            src_2: Val::Constant(3),
            dst: Val::Var(id("d")),
        },
        tac::Instruction::Unary {
            operator: ast::UnaryOperator::Complement,
            src: Val::Var(id("d")),
            dst: Val::Var(id("a")),
        },
        tac::Instruction::JumpIfNotZero { condition: Val::Var(id("a")), target: id("l") },
        tac::Instruction::Label(id("l")),
    ];
    let mut assembly = Assembly::new(ir_program(body));
    let program = assembly.parse_program();
    assert_eq!(
        program.0.instructions,
        vec![
            Instruction::Cmp(pseudo("b"), pseudo("a")),
            Instruction::Mov { src: Operand::Imm(0), dst: pseudo("c") },
            Instruction::SetCC(CondCode::L, pseudo("c")),
            Instruction::Mov { src: pseudo("c"), dst: reg(Reg::AX) },
            Instruction::Cdq,
            Instruction::Idiv(Operand::Imm(3)),
            Instruction::Mov { src: reg(Reg::DX), dst: pseudo("d") },
            Instruction::Mov { src: pseudo("d"), dst: pseudo("a") },
            Instruction::Unary(UnaryOperator::Not, pseudo("a")),
            Instruction::Cmp(Operand::Imm(0), pseudo("a")),
            Instruction::JumpCC(CondCode::NE, id("l")),
            Instruction::Label(id("l")),
        ]
    );
    // b is seen first (the comparison reads its right operand first), then a, c, d.
    assert_eq!(
        assembly.pseudo_registers,
        vec![(id("b"), 4), (id("a"), 8), (id("c"), 12), (id("d"), 16)]
    );
    assert_eq!(assembly.offset, 16);

    assembly_passes(&mut assembly);
    assert_eq!(
        assembly.program.unwrap().0.instructions,
        vec![
            Instruction::AllocateStack(16),
            Instruction::Mov { src: Operand::Stack(4), dst: reg(Reg::R10) },
            Instruction::Cmp(reg(Reg::R10), Operand::Stack(8)),
            Instruction::Mov { src: Operand::Imm(0), dst: Operand::Stack(12) },
            Instruction::SetCC(CondCode::L, Operand::Stack(12)),
            Instruction::Mov { src: Operand::Stack(12), dst: reg(Reg::AX) },
            Instruction::Cdq,
            Instruction::Mov { src: Operand::Imm(3), dst: reg(Reg::R10) },
            Instruction::Idiv(reg(Reg::R10)),
            Instruction::Mov { src: reg(Reg::DX), dst: Operand::Stack(16) },
            Instruction::Mov { src: Operand::Stack(16), dst: reg(Reg::R10) },
            Instruction::Mov { src: reg(Reg::R10), dst: Operand::Stack(8) },
            Instruction::Unary(UnaryOperator::Not, Operand::Stack(8)),
            Instruction::Cmp(Operand::Imm(0), Operand::Stack(8)),
            Instruction::JumpCC(CondCode::NE, id("l")),
            Instruction::Label(id("l")),
        ]
    );
}

#[test]
fn rewrite_mov_splits_stack_to_stack() {
    let mut code = vec![
        Instruction::Mov { src: Operand::Stack(4), dst: Operand::Stack(8) },
        Instruction::Mov { src: Operand::Imm(1), dst: Operand::Stack(8) },
    ];
    RewriteMov.rewrite(&mut code);
    assert_eq!(
        code,
        vec![
            Instruction::Mov { src: Operand::Stack(4), dst: reg(Reg::R10) },
            Instruction::Mov { src: reg(Reg::R10), dst: Operand::Stack(8) },
            Instruction::Mov { src: Operand::Imm(1), dst: Operand::Stack(8) },
        ]
    );
}

#[test]
fn rewrite_binary_fixes_idiv_add_and_imul() {
    let mut code = vec![
        Instruction::Idiv(Operand::Imm(3)),
        Instruction::Idiv(Operand::Stack(4)),
        Instruction::Binary(BinaryOperator::Add, Operand::Stack(4), Operand::Stack(8)),
        Instruction::Binary(BinaryOperator::Sub, Operand::Imm(2), Operand::Stack(8)),
        Instruction::Binary(BinaryOperator::Mult, Operand::Imm(2), Operand::Stack(8)),
    ];
    RewriteBinaryOp.visit(&mut code);
    assert_eq!(
        code,
        vec![
            Instruction::Mov { src: Operand::Imm(3), dst: reg(Reg::R10) },
            Instruction::Idiv(reg(Reg::R10)),
            Instruction::Idiv(Operand::Stack(4)),
            Instruction::Mov { src: Operand::Stack(4), dst: reg(Reg::R10) },
            Instruction::Binary(BinaryOperator::Add, reg(Reg::R10), Operand::Stack(8)),
            Instruction::Binary(BinaryOperator::Sub, Operand::Imm(2), Operand::Stack(8)),
            Instruction::Mov { src: Operand::Stack(8), dst: reg(Reg::R11) },
            Instruction::Binary(BinaryOperator::Mult, Operand::Imm(2), reg(Reg::R11)),
            Instruction::Mov { src: reg(Reg::R11), dst: Operand::Stack(8) },
        ]
    );
}

#[test]
fn rewrite_cmp_fixes_both_forms() {
    let mut code = vec![
        Instruction::Cmp(Operand::Stack(4), Operand::Stack(8)),
        Instruction::Cmp(Operand::Imm(0), Operand::Imm(1)),
        Instruction::Cmp(Operand::Imm(0), Operand::Stack(8)),
    ];
    RewriteCmp.rewrite(&mut code);
    assert_eq!(
        code,
        vec![
            Instruction::Mov { src: Operand::Stack(4), dst: reg(Reg::R10) },
            Instruction::Cmp(reg(Reg::R10), Operand::Stack(8)),
            Instruction::Mov { src: Operand::Imm(1), dst: reg(Reg::R11) },
            Instruction::Cmp(Operand::Imm(0), reg(Reg::R11)),
            Instruction::Cmp(Operand::Imm(0), Operand::Stack(8)),
        ]
    );
}

#[test]
fn replace_pseudo_registers_leaves_unknown_names() {
    let mut code = vec![
        Instruction::Mov { src: pseudo("x"), dst: pseudo("y") },
        Instruction::SetCC(CondCode::GE, pseudo("z")),
    ];
    let map = vec![(id("x"), 4), (id("y"), 8)];
    ReplacePseudoRegisters.rewrite(&mut code, &map);
    assert_eq!(
        code,
        vec![
            Instruction::Mov { src: Operand::Stack(4), dst: Operand::Stack(8) },
            Instruction::SetCC(CondCode::GE, pseudo("z")),
        ]
    );
}

#[test]
fn allocate_stack_goes_first() {
    let mut code = vec![Instruction::Ret];
    AllocateStack.rewrite(&mut code, 12);
    assert_eq!(code, vec![Instruction::AllocateStack(12), Instruction::Ret]);
}

#[test]
fn apply_visitor_keeps_items() {
    let mut bodies = vec![
        vec![Instruction::Mov { src: Operand::Stack(4), dst: Operand::Stack(8) }],
        vec![Instruction::Ret],
    ];
    apply_visitor(&mut bodies, RewriteMov);
    assert_eq!(bodies.len(), 2);
    assert_eq!(bodies[0].len(), 2);
    assert_eq!(bodies[1], vec![Instruction::Ret]);
}

#[test]
fn instruction_text() {
    assert_eq!(
        Instruction::Mov { src: Operand::Imm(-5), dst: Operand::Stack(12) }.format(),
        "movl\t$-5, -12(%rbp)"
    );
    assert_eq!(Instruction::SetCC(CondCode::LE, reg(Reg::R11)).format(), "setle\t%r11b");
    assert_eq!(Instruction::JumpCC(CondCode::NE, id("end1")).format(), "jne\t.L_end1");
    assert_eq!(Instruction::Jmp(id("x")).format(), "jmp\t.L_x");
    assert_eq!(Instruction::Label(id("x")).format(), ".L_x:");
    assert_eq!(Instruction::AllocateStack(20).format(), "subq\t$20, %rsp");
    assert_eq!(Instruction::Idiv(reg(Reg::R10)).format(), "idivl\t%r10d");
    assert_eq!(Instruction::Cdq.format(), "cdq");
    assert_eq!(
        Instruction::Binary(BinaryOperator::Mult, Operand::Imm(3), reg(Reg::R11)).format(),
        "imull\t$3, %r11d"
    );
    assert_eq!(Instruction::Unary(UnaryOperator::Neg, reg(Reg::DX)).format(), "negl\t%edx");
    assert_eq!(Instruction::Cmp(Operand::Imm(0), reg(Reg::AX)).format(), "cmpl\t$0, %eax");
    assert_eq!(Instruction::Ret.format(), "movq\t%rbp, %rsp\n\tpopq\t%rbp\n\tret");
}

#[test]
fn operand_and_register_text() {
    assert_eq!(Reg::AX.format(), "%eax");
    assert_eq!(Reg::DX.format_inside_setcc(), "%dl");
    assert_eq!(Reg::R10.format_inside_setcc(), "%r10b");
    assert_eq!(Operand::Imm(i64::MIN).format(), "$-9223372036854775808");
    assert_eq!(Operand::Stack(4).format_inside_setcc(), "-4(%rbp)");
    assert_eq!(CondCode::GE.format(), "ge");
    assert_eq!(UnaryOperator::Not.format(), "notl");
    assert_eq!(BinaryOperator::Sub.format(), "subl");
}

#[test]
fn function_text_indents_all_but_labels() {
    let f = Function {
        name: id("f"),
        instructions: vec![Instruction::Label(id("a")), Instruction::Cdq],
    };
    assert_eq!(
        f.format(),
        "\t.globl f\nf:\n\tpushq\t%rbp\n\tmovq\t%rsp, %rbp\n.L_a:\n\tcdq\n"
    );
    assert_eq!(Program(f).format(Platform::Other).len(), 53);
}

#[test]
fn assembly_parser_steps() {
    let body = vec![
        tac::Instruction::Copy { src: Val::Constant(1), dst: Val::Var(id("x")) },
        tac::Instruction::Return(Val::Var(id("x"))),
    ];
    let mut parser = AssemblyParser::new(ir_program(body));
    let selected = parser.convert_program();
    assert_eq!(
        selected.0.instructions,
        vec![
            Instruction::Mov { src: Operand::Imm(1), dst: pseudo("x") },
            Instruction::Mov { src: pseudo("x"), dst: reg(Reg::AX) },
            Instruction::Ret,
        ]
    );
    parser.replace_pseudo_reg();
    let framed = parser.allocate_stack().unwrap();
    assert_eq!(
        framed.0.instructions,
        vec![
            Instruction::AllocateStack(4),
            Instruction::Mov { src: Operand::Imm(1), dst: Operand::Stack(4) },
            Instruction::Mov { src: Operand::Stack(4), dst: reg(Reg::AX) },
            Instruction::Ret,
        ]
    );
    let replaced = parser.replace_pseudo_registers().unwrap();
    assert_eq!(replaced.0.instructions.len(), 3);
}

#[test]
fn assembly_parser_without_program() {
    let mut parser = AssemblyParser::new(ir_program(vec![]));
    assert!(parser.allocate_stack().is_none());
    assert!(parser.replace_pseudo_registers().is_none());
}

#[test]
fn visitors_with_context_keep_the_context() {
    let mut bodies = vec![vec![Instruction::Ret], vec![Instruction::Cdq, Instruction::Ret]];
    let mut offset: i64 = 8;
    apply_visitor_with_context(&mut bodies, AllocateStack, &mut offset);
    assert_eq!(offset, 8);
    assert_eq!(bodies[0], vec![Instruction::AllocateStack(8), Instruction::Ret]);
    assert_eq!(bodies[1][0], Instruction::AllocateStack(8));

    let mut code = vec![Instruction::Idiv(pseudo("q"))];
    let mut map = vec![(id("q"), 4)];
    ReplacePseudoRegisters.visit(&mut code, &mut map);
    assert_eq!(code, vec![Instruction::Idiv(Operand::Stack(4))]);
    assert_eq!(map, vec![(id("q"), 4)]);
}
