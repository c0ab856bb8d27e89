//! The assembly model, the instruction selector that builds it from three-address
//! code, and the emitter that renders it as text.
use vstd::prelude::*;
use vstd::string::*;

use crate::ast::{self, Identifier};
use crate::decimal::{dec_signed, push_signed_decimal};
use crate::tac::{self, ir_view, IrInstr, IrVal};

verus! {

#[derive(Debug, Clone, Copy, PartialEq, Eq, Hash, Structural)]
pub enum Reg {
    AX,
    DX,
    R10,
    R11,
}

#[derive(Debug, Clone, Copy, PartialEq, Eq, Hash, Structural)]
pub enum CondCode {
    E,
    NE,
    G,
    GE,
    L,
    LE,
}

#[derive(Debug, Clone, Copy, PartialEq, Eq, Hash, Structural)]
pub enum UnaryOperator {
    Neg,
    Not,
}

#[derive(Debug, Clone, Copy, PartialEq, Eq, Hash, Structural)]
pub enum BinaryOperator {
    Add,
    Sub,
    Mult,
    Divide,
    Remainder,
}

#[derive(Debug, Clone, PartialEq, Eq, Hash)]
pub enum Operand {
    Imm(i64),
    Register(Reg),
    /// A variable before it is given a stack slot.
    Pseudo(Identifier),
    /// A stack slot, by its distance below the frame base.
    Stack(i64),
}

/// The mathematical form of an operand.
pub enum AsmOperand {
    Imm(i64),
    Register(Reg),
    Pseudo(Seq<char>),
    Stack(i64),
}

impl View for Operand {
    type V = AsmOperand;

    open spec fn view(&self) -> AsmOperand {
        match self {
            Operand::Imm(i) => AsmOperand::Imm(*i),
            Operand::Register(r) => AsmOperand::Register(*r),
            Operand::Pseudo(id) => AsmOperand::Pseudo(id@),
            Operand::Stack(s) => AsmOperand::Stack(*s),
        }
    }
}

impl Operand {
    /// A fresh copy of this operand.
    pub fn duplicate(&self) -> (r: Operand)
        ensures
            r@ == self@,
    {
        match self {
            Operand::Imm(i) => Operand::Imm(*i),
            Operand::Register(r) => Operand::Register(*r),
            Operand::Pseudo(id) => Operand::Pseudo(id.duplicate()),
            Operand::Stack(s) => Operand::Stack(*s),
        }
    }

    pub fn is_stack(&self) -> (r: bool)
        ensures
            r == (self@ is Stack),
    {
        match self {
            Operand::Stack(_) => true,
            _ => false,
        }
    }

    pub fn is_imm(&self) -> (r: bool)
        ensures
            r == (self@ is Imm),
    {
        match self {
            Operand::Imm(_) => true,
            _ => false,
        }
    }
}

#[derive(Debug, Clone, PartialEq, Eq)]
pub enum Instruction {
    Mov { src: Operand, dst: Operand },
    Unary(UnaryOperator, Operand),
    Binary(BinaryOperator, Operand, Operand),
    Idiv(Operand),
    Cdq,
    AllocateStack(i64),
    Ret,
    Cmp(Operand, Operand),
    Jmp(Identifier),
    JumpCC(CondCode, Identifier),
    SetCC(CondCode, Operand),
    Label(Identifier),
}

/// The mathematical form of an instruction.
pub enum AsmInstr {
    Mov(AsmOperand, AsmOperand),
    Unary(UnaryOperator, AsmOperand),
    Binary(BinaryOperator, AsmOperand, AsmOperand),
    Idiv(AsmOperand),
    Cdq,
    AllocateStack(i64),
    Ret,
    Cmp(AsmOperand, AsmOperand),
    Jmp(Seq<char>),
    JumpCC(CondCode, Seq<char>),
    SetCC(CondCode, AsmOperand),
    Label(Seq<char>),
}

impl View for Instruction {
    type V = AsmInstr;

    open spec fn view(&self) -> AsmInstr {
        match self {
            Instruction::Mov { src, dst } => AsmInstr::Mov(src@, dst@),
            Instruction::Unary(op, o) => AsmInstr::Unary(*op, o@),
            Instruction::Binary(op, a, b) => AsmInstr::Binary(*op, a@, b@),
            Instruction::Idiv(o) => AsmInstr::Idiv(o@),
            Instruction::Cdq => AsmInstr::Cdq,
            Instruction::AllocateStack(i) => AsmInstr::AllocateStack(*i),
            Instruction::Ret => AsmInstr::Ret,
            Instruction::Cmp(a, b) => AsmInstr::Cmp(a@, b@),
            Instruction::Jmp(l) => AsmInstr::Jmp(l@),
            Instruction::JumpCC(c, l) => AsmInstr::JumpCC(*c, l@),
            Instruction::SetCC(c, o) => AsmInstr::SetCC(*c, o@),
            Instruction::Label(l) => AsmInstr::Label(l@),
        }
    }
}

impl Instruction {
    /// A fresh copy of this instruction.
    pub fn duplicate(&self) -> (r: Instruction)
        ensures
            r@ == self@,
    {
        match self {
            Instruction::Mov { src, dst } => Instruction::Mov {
                src: src.duplicate(),
                dst: dst.duplicate(),
            },
            Instruction::Unary(op, o) => Instruction::Unary(*op, o.duplicate()),
            Instruction::Binary(op, a, b) => Instruction::Binary(*op, a.duplicate(), b.duplicate()),
            Instruction::Idiv(o) => Instruction::Idiv(o.duplicate()),
            Instruction::Cdq => Instruction::Cdq,
            Instruction::AllocateStack(i) => Instruction::AllocateStack(*i),
            Instruction::Ret => Instruction::Ret,
            Instruction::Cmp(a, b) => Instruction::Cmp(a.duplicate(), b.duplicate()),
            Instruction::Jmp(l) => Instruction::Jmp(l.duplicate()),
            Instruction::JumpCC(c, l) => Instruction::JumpCC(*c, l.duplicate()),
            Instruction::SetCC(c, o) => Instruction::SetCC(*c, o.duplicate()),
            Instruction::Label(l) => Instruction::Label(l.duplicate()),
        }
    }
}

pub type Instructions = Vec<Instruction>;

/// The mathematical form of a sequence of instructions.
pub open spec fn asm_view(v: Seq<Instruction>) -> Seq<AsmInstr> {
    v.map_values(|i: Instruction| i@)
}

/// An assembly function: its name and its instructions.
#[derive(Debug, Clone)]
pub struct Function {
    pub name: Identifier,
    pub instructions: Instructions,
}

impl Function {
    /// A fresh copy of this function.
    pub fn duplicate(&self) -> (r: Function)
        ensures
            r.name@ == self.name@,
            asm_view(r.instructions@) == asm_view(self.instructions@),
    {
        let mut instructions: Vec<Instruction> = Vec::new();
        let mut i: usize = 0;
        while i < self.instructions.len()
            invariant
                0 <= i <= self.instructions@.len(),
                asm_view(instructions@) == asm_view(self.instructions@.subrange(0, i as int)),
            decreases self.instructions.len() - i,
        {
            let ghost prev = instructions@;
            instructions.push(self.instructions[i].duplicate());
            proof {
                lemma_asm_view_push(prev, instructions@.last());
                lemma_asm_view_step(self.instructions@, i as int);
            }
            i += 1;
        }
        assert(self.instructions@.subrange(0, self.instructions@.len() as int)
            =~= self.instructions@);
        Function { name: self.name.duplicate(), instructions }
    }
}

/// An assembly program: one function.
#[derive(Debug, Clone)]
pub struct Program(pub Function);

// ---------------------------------------------------------------------------
// Instruction selection

pub open spec fn operand_of(v: IrVal) -> AsmOperand {
    match v {
        IrVal::Constant(i) => AsmOperand::Imm(i),
        IrVal::Var(n) => AsmOperand::Pseudo(n),
    }
}

pub open spec fn unary_of(op: ast::UnaryOperator) -> UnaryOperator {
    match op {
        ast::UnaryOperator::Negate => UnaryOperator::Neg,
        _ => UnaryOperator::Not,
    }
}

/// The assembly operator of an arithmetic operator.
pub open spec fn binary_of(op: ast::BinaryOperator) -> BinaryOperator {
    match op {
        ast::BinaryOperator::Subtract => BinaryOperator::Sub,
        ast::BinaryOperator::Multiply => BinaryOperator::Mult,
        ast::BinaryOperator::Divide => BinaryOperator::Divide,
        ast::BinaryOperator::Remainder => BinaryOperator::Remainder,
        _ => BinaryOperator::Add,
    }
}

/// The condition code of a comparison operator.
pub open spec fn cond_of(op: ast::BinaryOperator) -> CondCode {
    match op {
        ast::BinaryOperator::NotEqual => CondCode::NE,
        ast::BinaryOperator::LessThan => CondCode::L,
        ast::BinaryOperator::LessOrEqual => CondCode::LE,
        ast::BinaryOperator::GreaterThan => CondCode::G,
        ast::BinaryOperator::GreaterOrEqual => CondCode::GE,
        _ => CondCode::E,
    }
}

/// Selection is defined on every instruction but a binary `&&` or `||`, which
/// lowering never produces.
pub open spec fn selectable(i: IrInstr) -> bool {
    match i {
        IrInstr::Binary(op, _, _, _) => !op.is_logical(),
        _ => true,
    }
}

pub open spec fn all_selectable(code: Seq<IrInstr>) -> bool {
    forall|k: int| 0 <= k < code.len() ==> selectable(#[trigger] code[k])
}

pub broadcast proof fn lemma_selectable_concat(a: Seq<IrInstr>, b: Seq<IrInstr>)
    ensures
        #[trigger] all_selectable(a + b) == (all_selectable(a) && all_selectable(b)),
{
    if all_selectable(a) && all_selectable(b) {
        assert forall|k: int| 0 <= k < (a + b).len() implies selectable(#[trigger] (a + b)[k]) by {
            if k >= a.len() {
                assert((a + b)[k] == b[k - a.len()]);
            } else {
                assert((a + b)[k] == a[k]);
            }
        }
    }
    if all_selectable(a + b) {
        assert forall|k: int| 0 <= k < a.len() implies selectable(#[trigger] a[k]) by {
            assert((a + b)[k] == a[k]);
        }
        assert forall|k: int| 0 <= k < b.len() implies selectable(#[trigger] b[k]) by {
            assert((a + b)[k + a.len()] == b[k]);
        }
    }
}

pub broadcast proof fn lemma_selectable_push(a: Seq<IrInstr>, x: IrInstr)
    ensures
        #[trigger] all_selectable(a.push(x)) == (all_selectable(a) && selectable(x)),
{
    if all_selectable(a.push(x)) {
        assert(a.push(x)[a.len() as int] == x);
        assert forall|k: int| 0 <= k < a.len() implies selectable(#[trigger] a[k]) by {
            assert(a.push(x)[k] == a[k]);
        }
    }
    if all_selectable(a) && selectable(x) {
        assert forall|k: int| 0 <= k < a.push(x).len() implies selectable(#[trigger] a.push(x)[k]) by {
            if k < a.len() {
                assert(a.push(x)[k] == a[k]);
            }
        }
    }
}

pub broadcast proof fn lemma_selectable_empty()
    ensures
        #[trigger] all_selectable(Seq::<IrInstr>::empty()),
{
}

/// The assembly instructions selected for one instruction of three-address code.
pub open spec fn select_instr(i: IrInstr) -> Seq<AsmInstr> {
    let ax = AsmOperand::Register(Reg::AX);
    match i {
        IrInstr::Return(v) => seq![AsmInstr::Mov(operand_of(v), ax), AsmInstr::Ret],
        IrInstr::Unary(op, src, dst) => if op is Not {
            seq![
                AsmInstr::Cmp(AsmOperand::Imm(0), operand_of(src)),
                AsmInstr::Mov(AsmOperand::Imm(0), operand_of(dst)),
                AsmInstr::SetCC(CondCode::E, operand_of(dst)),
            ]
        } else {
            seq![
                AsmInstr::Mov(operand_of(src), operand_of(dst)),
                AsmInstr::Unary(unary_of(op), operand_of(dst)),
            ]
        },
        IrInstr::Binary(op, a, b, dst) => if op is Divide || op is Remainder {
            let result = if op is Divide {
                Reg::AX
            } else {
                Reg::DX
            };
            seq![
                AsmInstr::Mov(operand_of(a), ax),
                AsmInstr::Cdq,
                AsmInstr::Idiv(operand_of(b)),
                AsmInstr::Mov(AsmOperand::Register(result), operand_of(dst)),
            ]
        } else if op.is_relational() {
            seq![
                AsmInstr::Cmp(operand_of(b), operand_of(a)),
                AsmInstr::Mov(AsmOperand::Imm(0), operand_of(dst)),
                AsmInstr::SetCC(cond_of(op), operand_of(dst)),
            ]
        } else {
            seq![
                AsmInstr::Mov(operand_of(a), operand_of(dst)),
                AsmInstr::Binary(binary_of(op), operand_of(b), operand_of(dst)),
            ]
        },
        IrInstr::Copy(src, dst) => seq![AsmInstr::Mov(operand_of(src), operand_of(dst))],
        IrInstr::Jump(l) => seq![AsmInstr::Jmp(l)],
        IrInstr::JumpIfZero(v, l) => seq![
            AsmInstr::Cmp(AsmOperand::Imm(0), operand_of(v)),
            AsmInstr::JumpCC(CondCode::E, l),
        ],
        IrInstr::JumpIfNotZero(v, l) => seq![
            AsmInstr::Cmp(AsmOperand::Imm(0), operand_of(v)),
            AsmInstr::JumpCC(CondCode::NE, l),
        ],
        IrInstr::Label(l) => seq![AsmInstr::Label(l)],
    }
}

/// The selected instructions of a whole body, in order.
pub open spec fn select(code: Seq<IrInstr>) -> Seq<AsmInstr>
    decreases code.len(),
{
    if code.len() == 0 {
        seq![]
    } else {
        select(code.drop_last()) + select_instr(code.last())
    }
}

// ---------------------------------------------------------------------------
// Stack slots of variables

/// The operands of an instruction, left to right.
pub open spec fn operands(i: AsmInstr) -> Seq<AsmOperand> {
    match i {
        AsmInstr::Mov(a, b) => seq![a, b],
        AsmInstr::Unary(_, o) => seq![o],
        AsmInstr::Binary(_, a, b) => seq![a, b],
        AsmInstr::Idiv(o) => seq![o],
        AsmInstr::Cmp(a, b) => seq![a, b],
        AsmInstr::SetCC(_, o) => seq![o],
        _ => seq![],
    }
}

/// `ns` with the name of `o` appended, when `o` is a variable not yet in `ns`.
pub open spec fn note_operand(ns: Seq<Seq<char>>, o: AsmOperand) -> Seq<Seq<char>> {
    match o {
        AsmOperand::Pseudo(n) => if ns.contains(n) {
            ns
        } else {
            ns.push(n)
        },
        _ => ns,
    }
}

pub open spec fn note_operands(ns: Seq<Seq<char>>, ops: Seq<AsmOperand>) -> Seq<Seq<char>>
    decreases ops.len(),
{
    if ops.len() == 0 {
        ns
    } else {
        note_operand(note_operands(ns, ops.drop_last()), ops.last())
    }
}

pub open spec fn note_instrs(ns: Seq<Seq<char>>, code: Seq<AsmInstr>) -> Seq<Seq<char>>
    decreases code.len(),
{
    if code.len() == 0 {
        ns
    } else {
        note_operands(note_instrs(ns, code.drop_last()), operands(code.last()))
    }
}

/// The variables of `code` in the order of their first use: the `k`-th of them
/// gets the stack slot at offset `4 * (k + 1)`.
pub open spec fn stack_names(code: Seq<AsmInstr>) -> Seq<Seq<char>> {
    note_instrs(seq![], code)
}

/// The width of one stack slot, in bytes.
pub const SLOT_WIDTH: i64 = 4;

/// The offset of the slot of the `k`-th variable.
pub open spec fn slot_offset(k: int) -> int {
    4 * (k + 1)
}

/// Noting the names of `a + b` is noting those of `a`, then those of `b`.
pub proof fn lemma_note_instrs_append(ns: Seq<Seq<char>>, a: Seq<AsmInstr>, b: Seq<AsmInstr>)
    ensures
        note_instrs(ns, a + b) == note_instrs(note_instrs(ns, a), b),
    decreases b.len(),
{
    if b.len() == 0 {
        assert(a + b =~= a);
    } else {
        lemma_note_instrs_append(ns, a, b.drop_last());
        assert((a + b).drop_last() =~= a + b.drop_last());
        assert((a + b).last() == b.last());
    }
}

/// Noting names only appends to `ns`, and appends no name twice.
pub proof fn lemma_note_operands_extends(ns: Seq<Seq<char>>, ops: Seq<AsmOperand>)
    ensures
        ns.len() <= note_operands(ns, ops).len(),
        note_operands(ns, ops).subrange(0, ns.len() as int) == ns,
        ns.no_duplicates() ==> note_operands(ns, ops).no_duplicates(),
    decreases ops.len(),
{
    if ops.len() > 0 {
        let m = note_operands(ns, ops.drop_last());
        lemma_note_operands_extends(ns, ops.drop_last());
        let r = note_operand(m, ops.last());
        assert(r.subrange(0, ns.len() as int) =~= m.subrange(0, ns.len() as int));
        if m.no_duplicates() {
            if let AsmOperand::Pseudo(n) = ops.last() {
                if !m.contains(n) {
                    assert forall|i: int, j: int| 0 <= i < j < r.len() implies r[i] != r[j] by {
                        if j == r.len() - 1 {
                            assert(r[i] == m[i]);
                        }
                    }
                }
            }
        }
    } else {
        assert(ns.subrange(0, ns.len() as int) =~= ns);
    }
}

pub proof fn lemma_note_instrs_extends(ns: Seq<Seq<char>>, code: Seq<AsmInstr>)
    ensures
        ns.len() <= note_instrs(ns, code).len(),
        note_instrs(ns, code).subrange(0, ns.len() as int) == ns,
        ns.no_duplicates() ==> note_instrs(ns, code).no_duplicates(),
    decreases code.len(),
{
    if code.len() > 0 {
        let m = note_instrs(ns, code.drop_last());
        lemma_note_instrs_extends(ns, code.drop_last());
        lemma_note_operands_extends(m, operands(code.last()));
        let r = note_instrs(ns, code);
        assert(r.subrange(0, ns.len() as int) =~= r.subrange(0, m.len() as int).subrange(
            0,
            ns.len() as int,
        ));
    } else {
        assert(ns.subrange(0, ns.len() as int) =~= ns);
    }
}

/// Every variable that an operand names is among the noted names.
pub proof fn lemma_note_operands_complete(ns: Seq<Seq<char>>, ops: Seq<AsmOperand>, n: Seq<char>)
    ensures
        ns.contains(n) ==> note_operands(ns, ops).contains(n),
        (exists|k: int| 0 <= k < ops.len() && ops[k] == AsmOperand::Pseudo(n))
            ==> note_operands(ns, ops).contains(n),
    decreases ops.len(),
{
    if ops.len() > 0 {
        let m = note_operands(ns, ops.drop_last());
        lemma_note_operands_complete(ns, ops.drop_last(), n);
        lemma_note_operands_extends(m, seq![ops.last()]);
        assert(seq![ops.last()].drop_last() =~= Seq::<AsmOperand>::empty());
        let r = note_operands(ns, ops);
        if m.contains(n) {
            let k = choose|k: int| 0 <= k < m.len() && m[k] == n;
            assert(r.subrange(0, m.len() as int)[k] == n);
        }
        if exists|k: int| 0 <= k < ops.len() && ops[k] == AsmOperand::Pseudo(n) {
            let k = choose|k: int| 0 <= k < ops.len() && ops[k] == AsmOperand::Pseudo(n);
            if k < ops.len() - 1 {
                assert(ops.drop_last()[k] == AsmOperand::Pseudo(n));
                let j = choose|j: int| 0 <= j < m.len() && m[j] == n;
                assert(r.subrange(0, m.len() as int)[j] == n);
            } else {
                if !m.contains(n) {
                    assert(r[r.len() - 1] == n);
                }
            }
        }
    }
}

pub proof fn lemma_note_instrs_complete(ns: Seq<Seq<char>>, code: Seq<AsmInstr>, n: Seq<char>)
    ensures
        ns.contains(n) ==> note_instrs(ns, code).contains(n),
        (exists|k: int, j: int|
            0 <= k < code.len() && 0 <= j < operands(code[k]).len() && operands(code[k])[j]
                == AsmOperand::Pseudo(n)) ==> note_instrs(ns, code).contains(n),
    decreases code.len(),
{
    if code.len() > 0 {
        let m = note_instrs(ns, code.drop_last());
        lemma_note_instrs_complete(ns, code.drop_last(), n);
        lemma_note_operands_complete(m, operands(code.last()), n);
        if exists|k: int, j: int|
            0 <= k < code.len() && 0 <= j < operands(code[k]).len() && operands(code[k])[j]
                == AsmOperand::Pseudo(n) {
            let (k, j) = choose|k: int, j: int|
                0 <= k < code.len() && 0 <= j < operands(code[k]).len() && operands(code[k])[j]
                    == AsmOperand::Pseudo(n);
            if k < code.len() - 1 {
                assert(code.drop_last()[k] == code[k]);
            }
        }
    }
}

/// Viewing one more instruction of a prefix.
pub proof fn lemma_asm_view_step(v: Seq<Instruction>, i: int)
    requires
        0 <= i < v.len(),
    ensures
        asm_view(v.subrange(0, i + 1)) == asm_view(v.subrange(0, i)).push(v[i]@),
{
    assert(asm_view(v.subrange(0, i + 1)) =~= asm_view(v.subrange(0, i)).push(v[i]@));
}

/// Viewing a sequence with one instruction pushed.
pub proof fn lemma_asm_view_push(v: Seq<Instruction>, x: Instruction)
    ensures
        asm_view(v.push(x)) == asm_view(v).push(x@),
{
    assert(asm_view(v.push(x)) =~= asm_view(v).push(x@));
}

proof fn lemma_note_one(ns: Seq<Seq<char>>, a: AsmOperand)
    ensures
        note_operands(ns, seq![a]) == note_operand(ns, a),
{
    assert(seq![a].drop_last() =~= Seq::<AsmOperand>::empty());
    assert(note_operands(ns, Seq::<AsmOperand>::empty()) == ns);
    assert(seq![a].last() == a);
    reveal_with_fuel(note_operands, 2);
}

proof fn lemma_note_two(ns: Seq<Seq<char>>, a: AsmOperand, b: AsmOperand)
    ensures
        note_operands(ns, seq![a, b]) == note_operand(note_operand(ns, a), b),
        note_operand(ns, a).len() <= note_operands(ns, seq![a, b]).len(),
{
    assert(seq![a, b].drop_last() =~= seq![a]);
    lemma_note_one(ns, a);
}

/// Selection of `a + b` is selection of `a`, then of `b`.
pub proof fn lemma_select_append(a: Seq<IrInstr>, b: Seq<IrInstr>)
    ensures
        select(a + b) == select(a) + select(b),
    decreases b.len(),
{
    if b.len() == 0 {
        assert(a + b =~= a);
        assert(select(a) + select(b) =~= select(a));
    } else {
        lemma_select_append(a, b.drop_last());
        assert((a + b).drop_last() =~= a + b.drop_last());
        assert((a + b).last() == b.last());
        assert(select(a + b) =~= select(a) + select(b));
    }
}

proof fn lemma_select_split(ir: Seq<IrInstr>, i: int, out: Seq<Instruction>, j: int)
    requires
        0 <= i < ir.len(),
        0 <= j < out.len(),
        asm_view(out) == select_instr(ir[i]),
    ensures
        select(ir) == (select(ir.subrange(0, i)) + asm_view(out.subrange(0, j + 1))) + (asm_view(
            out.subrange(j + 1, out.len() as int),
        ) + select(ir.subrange(i + 1, ir.len() as int))),
{
    let a = select(ir.subrange(0, i));
    let b = asm_view(out.subrange(0, j + 1));
    let c = asm_view(out.subrange(j + 1, out.len() as int));
    let d = select(ir.subrange(i + 1, ir.len() as int));
    lemma_select_append(ir.subrange(0, i + 1), ir.subrange(i + 1, ir.len() as int));
    assert(ir.subrange(0, i + 1) + ir.subrange(i + 1, ir.len() as int) =~= ir);
    lemma_select_step(ir, i);
    assert(asm_view(out) =~= b + c);
    assert(select(ir) =~= (a + b) + (c + d));
}

proof fn lemma_select_step(code: Seq<IrInstr>, i: int)
    requires
        0 <= i < code.len(),
    ensures
        select(code.subrange(0, i + 1)) == select(code.subrange(0, i)) + select_instr(code[i]),
{
    assert(code.subrange(0, i + 1).drop_last() =~= code.subrange(0, i));
}

/// The index of the entry for `name` in a map from names to slots, if any.
pub fn find_slot(map: &Vec<(Identifier, i64)>, name: &Identifier) -> (r: Option<usize>)
    ensures
        match r {
            Some(k) => k < map@.len() && map@[k as int].0@ == name@,
            None => !slot_names(map@).contains(name@),
        },
{
    let mut k: usize = 0;
    while k < map.len()
        invariant
            0 <= k <= map@.len(),
            forall|j: int| 0 <= j < k ==> map@[j].0@ != name@,
        decreases map.len() - k,
    {
        if map[k].0.0 == name.0 {
            return Some(k);
        }
        k += 1;
    }
    proof {
        if slot_names(map@).contains(name@) {
            let j = choose|j: int| 0 <= j < slot_names(map@).len() && slot_names(map@)[j] == name@;
            assert(map@[j].0@ == name@);
        }
    }
    None
}

/// The names of a map from names to slots, in order.
pub open spec fn slot_names(map: Seq<(Identifier, i64)>) -> Seq<Seq<char>> {
    map.map_values(|p: (Identifier, i64)| p.0@)
}

/// Each entry of the map holds the slot of its position: 4, 8, 12, ...
pub open spec fn slots_wf(map: Seq<(Identifier, i64)>) -> bool {
    forall|k: int| 0 <= k < map.len() ==> #[trigger] map[k].1 == slot_offset(k)
}

/// Selects assembly instructions for a program of three-address code, and gives
/// each variable a stack slot the first time it is seen.
#[derive(Debug)]
pub struct Assembly {
    /// The three-address code being translated.
    pub source: tac::Program,
    pub program: Option<Program>,
    /// Each variable with the offset of its slot, in the order of first use.
    pub pseudo_registers: Vec<(Identifier, i64)>,
    /// The frame size so far: one slot for each variable.
    pub offset: i64,
}

impl Assembly {
    pub open spec fn source(&self) -> tac::Program {
        self.source
    }

    /// The noted variables, in order.
    pub open spec fn names(&self) -> Seq<Seq<char>> {
        slot_names(self.pseudo_registers@)
    }

    /// The map holds each variable once, at its slot, and the frame covers them all.
    pub open spec fn map_wf(&self) -> bool {
        &&& slots_wf(self.pseudo_registers@)
        &&& self.names().no_duplicates()
        &&& self.offset == SLOT_WIDTH * self.pseudo_registers@.len()
    }

    pub fn new(source: tac::Program) -> (r: Assembly)
        ensures
            r.source() == source,
            r.program is None,
            r.names() == Seq::<Seq<char>>::empty(),
            r.map_wf(),
    {
        let r = Assembly { source, program: None, pseudo_registers: Vec::new(), offset: 0 };
        assert(r.names() =~= Seq::<Seq<char>>::empty());
        r
    }

    /// Selects instructions for the source program and stores the result in `program`.
    pub fn to_assembly_program(&mut self) -> (r: Program)
        requires
            old(self).map_wf(),
            old(self).names() == Seq::<Seq<char>>::empty(),
            all_selectable(ir_view(old(self).source().0.body@)),
            SLOT_WIDTH * stack_names(select(ir_view(old(self).source().0.body@))).len()
                <= i64::MAX,
        ensures
            final(self).source() == old(self).source(),
            r.0.name@ == old(self).source().0.identifier@,
            asm_view(r.0.instructions@) == select(ir_view(old(self).source().0.body@)),
            final(self).program is Some,
            final(self).program.unwrap().0.name@ == r.0.name@,
            asm_view(final(self).program.unwrap().0.instructions@) == asm_view(r.0.instructions@),
            final(self).names() == stack_names(select(ir_view(old(self).source().0.body@))),
            final(self).map_wf(),
    {
        self.parse_program()
    }

    /// Selects instructions for the source program and stores the result in `program`.
    pub fn parse_program(&mut self) -> (r: Program)
        requires
            old(self).map_wf(),
            old(self).names() == Seq::<Seq<char>>::empty(),
            all_selectable(ir_view(old(self).source().0.body@)),
            SLOT_WIDTH * stack_names(select(ir_view(old(self).source().0.body@))).len()
                <= i64::MAX,
        ensures
            final(self).source() == old(self).source(),
            r.0.name@ == old(self).source().0.identifier@,
            asm_view(r.0.instructions@) == select(ir_view(old(self).source().0.body@)),
            final(self).program is Some,
            final(self).program.unwrap().0.name@ == r.0.name@,
            asm_view(final(self).program.unwrap().0.instructions@) == asm_view(r.0.instructions@),
            final(self).names() == stack_names(select(ir_view(old(self).source().0.body@))),
            final(self).map_wf(),
    {
        let mut source = tac::Program(
            tac::Function { identifier: Identifier(String::new()), body: Vec::new() },
        );
        core::mem::swap(&mut source, &mut self.source);
        let function = self.parse_function(&source.0);
        core::mem::swap(&mut source, &mut self.source);
        self.program = Some(Program(function.duplicate()));
        Program(function)
    }

    fn parse_function(&mut self, function: &tac::Function) -> (r: Function)
        requires
            old(self).map_wf(),
            old(self).names() == Seq::<Seq<char>>::empty(),
            all_selectable(ir_view(function.body@)),
            SLOT_WIDTH * stack_names(select(ir_view(function.body@))).len() <= i64::MAX,
        ensures
            final(self).source() == old(self).source(),
            r.name@ == function.identifier@,
            asm_view(r.instructions@) == select(ir_view(function.body@)),
            final(self).names() == stack_names(select(ir_view(function.body@))),
            final(self).map_wf(),
    {
        let ghost ir = ir_view(function.body@);
        let ghost full = select(ir);
        let mut instructions: Vec<Instruction> = Vec::new();
        let mut i: usize = 0;
        assert(ir.subrange(0, 0) =~= Seq::<IrInstr>::empty());
        assert(asm_view(instructions@) =~= Seq::<AsmInstr>::empty());
        while i < function.body.len()
            invariant
                0 <= i <= function.body@.len(),
                ir == ir_view(function.body@),
                full == select(ir),
                all_selectable(ir),
                SLOT_WIDTH * stack_names(full).len() <= i64::MAX,
                asm_view(instructions@) == select(ir.subrange(0, i as int)),
                self.names() == stack_names(select(ir.subrange(0, i as int))),
                self.map_wf(),
                self.source() == old(self).source(),
            decreases function.body.len() - i,
        {
            proof {
                lemma_select_step(ir, i as int);
                assert(ir[i as int] == function.body@[i as int]@);
                assert(selectable(ir[i as int]));
            }
            let out = Self::parse_instruction(&function.body[i]);
            let mut j: usize = 0;
            let ghost done = select(ir.subrange(0, i as int));
            proof {
                assert(out@.subrange(0, 0) =~= Seq::<Instruction>::empty());
                assert(done + asm_view(out@.subrange(0, 0)) =~= done);
            }
            while j < out.len()
                invariant
                    0 <= j <= out@.len(),
                    asm_view(out@) == select_instr(ir[i as int]),
                    done == select(ir.subrange(0, i as int)),
                    full == select(ir),
                    SLOT_WIDTH * stack_names(full).len() <= i64::MAX,
                    0 <= i < ir.len(),
                    ir == ir_view(function.body@),
                    asm_view(instructions@) == done + asm_view(out@.subrange(0, j as int)),
                    self.names() == stack_names(done + asm_view(out@.subrange(0, j as int))),
                    self.map_wf(),
                    self.source() == old(self).source(),
                decreases out.len() - j,
            {
                let ghost before = done + asm_view(out@.subrange(0, j as int));
                let ghost after = done + asm_view(out@.subrange(0, j + 1));
                proof {
                    assert(after.drop_last() =~= before);
                    assert(after.last() == out@[j as int]@);
                    self.lemma_frame_fits(ir, i as int, out@, j as int);
                }
                self.note_operands(&out[j]);
                let ghost prev = instructions@;
                instructions.push(out[j].duplicate());
                proof {
                    lemma_asm_view_push(prev, instructions@.last());
                    lemma_asm_view_step(out@, j as int);
                    assert(asm_view(instructions@) =~= after);
                }
                j += 1;
            }
            proof {
                assert(out@.subrange(0, out@.len() as int) =~= out@);
            }
            i += 1;
        }
        assert(ir.subrange(0, function.body@.len() as int) =~= ir);
        Function { name: function.identifier.duplicate(), instructions }
    }

    proof fn lemma_frame_fits(&self, ir: Seq<IrInstr>, i: int, out: Seq<Instruction>, j: int)
        requires
            0 <= i < ir.len(),
            0 <= j < out.len(),
            asm_view(out) == select_instr(ir[i]),
            SLOT_WIDTH * stack_names(select(ir)).len() <= i64::MAX,
        ensures
            SLOT_WIDTH * stack_names(
                select(ir.subrange(0, i)) + asm_view(out.subrange(0, j + 1)),
            ).len() <= i64::MAX,
    {
        let a = select(ir.subrange(0, i)) + asm_view(out.subrange(0, j + 1));
        let rest1 = asm_view(out.subrange(j + 1, out.len() as int));
        let rest2 = select(ir.subrange(i + 1, ir.len() as int));
        lemma_select_split(ir, i, out, j);
        lemma_note_instrs_append(seq![], a, rest1 + rest2);
        lemma_note_instrs_extends(stack_names(a), rest1 + rest2);
    }

    /// The assembly instructions for one instruction of three-address code.
    fn parse_instruction(instruction: &tac::Instruction) -> (r: Vec<Instruction>)
        requires
            selectable(instruction@),
        ensures
            asm_view(r@) == select_instr(instruction@),
    {
        let mut r: Vec<Instruction> = Vec::new();
        match instruction {
            tac::Instruction::Return(v) => {
                r.push(
                    Instruction::Mov { src: Self::parse_val(v), dst: Operand::Register(Reg::AX) },
                );
                r.push(Instruction::Ret);
            },
            tac::Instruction::Unary { operator, src, dst } => {
                if *operator == ast::UnaryOperator::Not {
                    r.push(Instruction::Cmp(Operand::Imm(0), Self::parse_val(src)));
                    r.push(Instruction::Mov { src: Operand::Imm(0), dst: Self::parse_val(dst) });
                    r.push(Instruction::SetCC(CondCode::E, Self::parse_val(dst)));
                } else {
                    r.push(Instruction::Mov { src: Self::parse_val(src), dst: Self::parse_val(dst) });
                    r.push(
                        Instruction::Unary(
                            Self::parse_unary_operator(*operator),
                            Self::parse_val(dst),
                        ),
                    );
                }
            },
            tac::Instruction::Binary { binary_operator, src_1, src_2, dst } => {
                let op = *binary_operator;
                if op == ast::BinaryOperator::Divide || op == ast::BinaryOperator::Remainder {
                    let result = if op == ast::BinaryOperator::Divide {
                        Reg::AX
                    } else {
                        Reg::DX
                    };
                    r.push(
                        Instruction::Mov {
                            src: Self::parse_val(src_1),
                            dst: Operand::Register(Reg::AX),
                        },
                    );
                    r.push(Instruction::Cdq);
                    r.push(Instruction::Idiv(Self::parse_val(src_2)));
                    r.push(
                        Instruction::Mov {
                            src: Operand::Register(result),
                            dst: Self::parse_val(dst),
                        },
                    );
                } else if op == ast::BinaryOperator::Equal || op == ast::BinaryOperator::NotEqual
                    || op == ast::BinaryOperator::LessThan || op
                    == ast::BinaryOperator::LessOrEqual || op == ast::BinaryOperator::GreaterThan
                    || op == ast::BinaryOperator::GreaterOrEqual {
                    r.push(Instruction::Cmp(Self::parse_val(src_2), Self::parse_val(src_1)));
                    r.push(Instruction::Mov { src: Operand::Imm(0), dst: Self::parse_val(dst) });
                    r.push(
                        Instruction::SetCC(
                            Self::parse_relational_operator(op),
                            Self::parse_val(dst),
                        ),
                    );
                } else {
                    r.push(
                        Instruction::Mov { src: Self::parse_val(src_1), dst: Self::parse_val(dst) },
                    );
                    r.push(
                        Instruction::Binary(
                            Self::parse_binary_operator(op),
                            Self::parse_val(src_2),
                            Self::parse_val(dst),
                        ),
                    );
                }
            },
            tac::Instruction::Copy { src, dst } => {
                r.push(Instruction::Mov { src: Self::parse_val(src), dst: Self::parse_val(dst) });
            },
            tac::Instruction::Jump { target } => {
                r.push(Instruction::Jmp(target.duplicate()));
            },
            tac::Instruction::JumpIfZero { condition, target } => {
                r.push(Instruction::Cmp(Operand::Imm(0), Self::parse_val(condition)));
                r.push(Instruction::JumpCC(CondCode::E, target.duplicate()));
            },
            tac::Instruction::JumpIfNotZero { condition, target } => {
                r.push(Instruction::Cmp(Operand::Imm(0), Self::parse_val(condition)));
                r.push(Instruction::JumpCC(CondCode::NE, target.duplicate()));
            },
            tac::Instruction::Label(l) => {
                r.push(Instruction::Label(l.duplicate()));
            },
        }
        assert(asm_view(r@) =~= select_instr(instruction@));
        r
    }

    /// The operand for a value: an immediate, or a variable not yet given a slot.
    fn parse_val(v: &tac::Val) -> (r: Operand)
        ensures
            r@ == operand_of(v@),
    {
        match v {
            tac::Val::Constant(i) => Operand::Imm(*i),
            tac::Val::Var(id) => Operand::Pseudo(id.duplicate()),
        }
    }

    fn parse_relational_operator(binary_operator: ast::BinaryOperator) -> (r: CondCode)
        requires
            binary_operator.is_relational(),
        ensures
            r == cond_of(binary_operator),
    {
        match binary_operator {
            ast::BinaryOperator::NotEqual => CondCode::NE,
            ast::BinaryOperator::LessThan => CondCode::L,
            ast::BinaryOperator::LessOrEqual => CondCode::LE,
            ast::BinaryOperator::GreaterThan => CondCode::G,
            ast::BinaryOperator::GreaterOrEqual => CondCode::GE,
            _ => CondCode::E,
        }
    }

    fn parse_unary_operator(operator: ast::UnaryOperator) -> (r: UnaryOperator)
        requires
            !(operator is Not),
        ensures
            r == unary_of(operator),
    {
        match operator {
            ast::UnaryOperator::Negate => UnaryOperator::Neg,
            _ => UnaryOperator::Not,
        }
    }

    fn parse_binary_operator(operator: ast::BinaryOperator) -> (r: BinaryOperator)
        requires
            !operator.is_logical(),
            !operator.is_relational(),
        ensures
            r == binary_of(operator),
    {
        match operator {
            ast::BinaryOperator::Subtract => BinaryOperator::Sub,
            ast::BinaryOperator::Multiply => BinaryOperator::Mult,
            ast::BinaryOperator::Divide => BinaryOperator::Divide,
            ast::BinaryOperator::Remainder => BinaryOperator::Remainder,
            _ => BinaryOperator::Add,
        }
    }

    /// Records the variables among the operands of `instruction`, in order.
    fn note_operands(&mut self, instruction: &Instruction)
        requires
            old(self).map_wf(),
            SLOT_WIDTH * note_operands(old(self).names(), operands(instruction@)).len()
                <= i64::MAX,
        ensures
            final(self).names() == note_operands(old(self).names(), operands(instruction@)),
            final(self).map_wf(),
            final(self).source() == old(self).source(),
            final(self).program == old(self).program,
    {
        let ghost ns = self.names();
        match instruction {
            Instruction::Mov { src, dst } => {
                proof {
                    lemma_note_two(ns, src@, dst@);
                }
                self.parse_operand(src);
                self.parse_operand(dst);
            },
            Instruction::Unary(_, o) => {
                proof {
                    lemma_note_one(ns, o@);
                }
                self.parse_operand(o);
            },
            Instruction::Binary(_, a, b) => {
                proof {
                    lemma_note_two(ns, a@, b@);
                }
                self.parse_operand(a);
                self.parse_operand(b);
            },
            Instruction::Idiv(o) => {
                proof {
                    lemma_note_one(ns, o@);
                }
                self.parse_operand(o);
            },
            Instruction::Cmp(a, b) => {
                proof {
                    lemma_note_two(ns, a@, b@);
                }
                self.parse_operand(a);
                self.parse_operand(b);
            },
            Instruction::SetCC(_, o) => {
                proof {
                    lemma_note_one(ns, o@);
                }
                self.parse_operand(o);
            },
            _ => {},
        }
    }

    /// Records the variable of `operand`, if it is one not seen before, at the next slot.
    fn parse_operand(&mut self, operand: &Operand)
        requires
            old(self).map_wf(),
            SLOT_WIDTH * note_operand(old(self).names(), operand@).len() <= i64::MAX,
        ensures
            final(self).names() == note_operand(old(self).names(), operand@),
            final(self).map_wf(),
            final(self).source() == old(self).source(),
            final(self).program == old(self).program,
    {
        if let Operand::Pseudo(id) = operand {
            match find_slot(&self.pseudo_registers, id) {
                Some(k) => {
                    proof {
                        assert(self.names()[k as int] == id@);
                    }
                },
                None => {
                    let ghost ns = self.names();
                    self.offset = self.offset + SLOT_WIDTH;
                    self.pseudo_registers.push((id.duplicate(), self.offset));
                    proof {
                        assert(self.names() =~= ns.push(id@));
                        assert forall|a: int, b: int|
                            0 <= a < b < self.names().len() implies self.names()[a]
                            != self.names()[b] by {
                            if b == self.names().len() - 1 {
                                assert(self.names()[a] == ns[a]);
                            }
                        }
                    }
                },
            }
        }
    }
}

// ---------------------------------------------------------------------------
// Emission

/// The object format that emission targets.
#[derive(Debug, Clone, Copy, PartialEq, Eq, Hash, Structural)]
pub enum Platform {
    /// ELF on Linux: the output ends with a note that the stack is not executable.
    Linux,
    Other,
}

pub open spec fn fmt_reg(r: Reg) -> Seq<char> {
    match r {
        Reg::AX => "%eax"@,
        Reg::DX => "%edx"@,
        Reg::R10 => "%r10d"@,
        Reg::R11 => "%r11d"@,
    }
}

/// The name of the low byte of a register, which `set<cc>` writes.
pub open spec fn fmt_reg_byte(r: Reg) -> Seq<char> {
    match r {
        Reg::AX => "%al"@,
        Reg::DX => "%dl"@,
        Reg::R10 => "%r10b"@,
        Reg::R11 => "%r11b"@,
    }
}

pub open spec fn fmt_stack(s: i64) -> Seq<char> {
    "-"@ + dec_signed(s as int) + "(%rbp)"@
}

pub open spec fn fmt_imm(i: i64) -> Seq<char> {
    "$"@ + dec_signed(i as int)
}

/// The text of an operand; a variable operand has none.
pub open spec fn fmt_operand(o: AsmOperand) -> Seq<char> {
    match o {
        AsmOperand::Imm(i) => fmt_imm(i),
        AsmOperand::Register(r) => fmt_reg(r),
        AsmOperand::Stack(s) => fmt_stack(s),
        AsmOperand::Pseudo(_) => seq![],
    }
}

pub open spec fn fmt_operand_byte(o: AsmOperand) -> Seq<char> {
    match o {
        AsmOperand::Register(r) => fmt_reg_byte(r),
        _ => fmt_operand(o),
    }
}

pub open spec fn fmt_cond(c: CondCode) -> Seq<char> {
    match c {
        CondCode::E => "e"@,
        CondCode::NE => "ne"@,
        CondCode::L => "l"@,
        CondCode::LE => "le"@,
        CondCode::G => "g"@,
        CondCode::GE => "ge"@,
    }
}

pub open spec fn fmt_unary(op: UnaryOperator) -> Seq<char> {
    match op {
        UnaryOperator::Neg => "negl"@,
        UnaryOperator::Not => "notl"@,
    }
}

/// The mnemonic of `add`, `sub` and `imul`; division has none, as it goes through `idiv`.
pub open spec fn fmt_binary(op: BinaryOperator) -> Seq<char> {
    match op {
        BinaryOperator::Add => "addl"@,
        BinaryOperator::Sub => "subl"@,
        BinaryOperator::Mult => "imull"@,
        _ => seq![],
    }
}

/// The text of one instruction, without indentation or line end.
pub open spec fn fmt_instr(i: AsmInstr) -> Seq<char> {
    match i {
        AsmInstr::Mov(a, b) => "movl\t"@ + fmt_operand(a) + ", "@ + fmt_operand(b),
        AsmInstr::Unary(op, o) => fmt_unary(op) + "\t"@ + fmt_operand(o),
        AsmInstr::AllocateStack(n) => "subq\t$"@ + dec_signed(n as int) + ", %rsp"@,
        AsmInstr::Ret => "movq\t%rbp, %rsp\n\tpopq\t%rbp\n\tret"@,
        AsmInstr::Binary(op, a, b) => fmt_binary(op) + "\t"@ + fmt_operand(a) + ", "@
            + fmt_operand(b),
        AsmInstr::Idiv(o) => "idivl\t"@ + fmt_operand(o),
        AsmInstr::Cdq => "cdq"@,
        AsmInstr::Cmp(a, b) => "cmpl\t"@ + fmt_operand(a) + ", "@ + fmt_operand(b),
        AsmInstr::Jmp(l) => "jmp\t.L_"@ + l,
        AsmInstr::JumpCC(c, l) => "j"@ + fmt_cond(c) + "\t.L_"@ + l,
        AsmInstr::SetCC(c, o) => "set"@ + fmt_cond(c) + "\t"@ + fmt_operand_byte(o),
        AsmInstr::Label(l) => ".L_"@ + l + ":"@,
    }
}

/// One line of the body: labels stand at the margin, instructions are indented.
pub open spec fn fmt_line(i: AsmInstr) -> Seq<char> {
    if i is Label {
        fmt_instr(i) + "\n"@
    } else {
        "\t"@ + fmt_instr(i) + "\n"@
    }
}

pub open spec fn fmt_lines(code: Seq<AsmInstr>) -> Seq<char>
    decreases code.len(),
{
    if code.len() == 0 {
        seq![]
    } else {
        fmt_lines(code.drop_last()) + fmt_line(code.last())
    }
}

/// The text of a function: its global directive, its label, the fixed prologue that
/// sets up the frame, then its instructions.
pub open spec fn fmt_function(name: Seq<char>, code: Seq<AsmInstr>) -> Seq<char> {
    "\t.globl "@ + name + "\n"@ + name + ":\n\tpushq\t%rbp\n\tmovq\t%rsp, %rbp\n"@ + fmt_lines(
        code,
    )
}

pub open spec fn fmt_program(name: Seq<char>, code: Seq<AsmInstr>, platform: Platform) -> Seq<
    char,
> {
    if platform is Linux {
        fmt_function(name, code) + ".section .note.GNU-stack,\"\",@progbits"@
    } else {
        fmt_function(name, code)
    }
}

/// An operand with text: anything but a variable.
pub open spec fn emittable_operand(o: AsmOperand) -> bool {
    !(o is Pseudo)
}

/// Some operand of the instruction is a variable.
pub open spec fn has_pseudo(i: AsmInstr) -> bool {
    match i {
        AsmInstr::Mov(a, b) => a is Pseudo || b is Pseudo,
        AsmInstr::Unary(_, o) => o is Pseudo,
        AsmInstr::Binary(_, a, b) => a is Pseudo || b is Pseudo,
        AsmInstr::Idiv(o) => o is Pseudo,
        AsmInstr::Cmp(a, b) => a is Pseudo || b is Pseudo,
        AsmInstr::SetCC(_, o) => o is Pseudo,
        _ => false,
    }
}

/// An instruction with text: no variable operand, and no binary division.
pub open spec fn emittable(i: AsmInstr) -> bool {
    &&& !has_pseudo(i)
    &&& match i {
        AsmInstr::Binary(op, _, _) => !(op is Divide || op is Remainder),
        _ => true,
    }
}

pub open spec fn all_emittable(code: Seq<AsmInstr>) -> bool {
    forall|k: int| 0 <= k < code.len() ==> emittable(#[trigger] code[k])
}

fn text(s: &str) -> (r: String)
    ensures
        r@ == s@,
{
    String::from_str(s)
}

impl Reg {
    pub fn format(&self) -> (r: String)
        ensures
            r@ == fmt_reg(*self),
    {
        match self {
            Reg::AX => text("%eax"),
            Reg::DX => text("%edx"),
            Reg::R10 => text("%r10d"),
            Reg::R11 => text("%r11d"),
        }
    }

    pub fn format_inside_setcc(&self) -> (r: String)
        ensures
            r@ == fmt_reg_byte(*self),
    {
        match self {
            Reg::AX => text("%al"),
            Reg::DX => text("%dl"),
            Reg::R10 => text("%r10b"),
            Reg::R11 => text("%r11b"),
        }
    }
}

impl CondCode {
    pub fn format(&self) -> (r: String)
        ensures
            r@ == fmt_cond(*self),
    {
        match self {
            CondCode::E => text("e"),
            CondCode::NE => text("ne"),
            CondCode::L => text("l"),
            CondCode::LE => text("le"),
            CondCode::G => text("g"),
            CondCode::GE => text("ge"),
        }
    }
}

impl UnaryOperator {
    pub fn format(&self) -> (r: String)
        ensures
            r@ == fmt_unary(*self),
    {
        match self {
            UnaryOperator::Neg => text("negl"),
            UnaryOperator::Not => text("notl"),
        }
    }
}

impl BinaryOperator {
    pub fn format(&self) -> (r: String)
        requires
            !(*self is Divide || *self is Remainder),
        ensures
            r@ == fmt_binary(*self),
    {
        match self {
            BinaryOperator::Add => text("addl"),
            BinaryOperator::Sub => text("subl"),
            _ => text("imull"),
        }
    }
}

impl Operand {
    pub fn format(&self) -> (r: String)
        requires
            emittable_operand(self@),
        ensures
            r@ == fmt_operand(self@),
    {
        match self {
            Operand::Imm(i) => {
                let mut s = text("$");
                push_signed_decimal(&mut s, *i);
                s
            },
            Operand::Register(r) => r.format(),
            Operand::Stack(off) => {
                let mut s = text("-");
                push_signed_decimal(&mut s, *off);
                s.append("(%rbp)");
                s
            },
            Operand::Pseudo(_) => String::new(),
        }
    }

    pub fn format_inside_setcc(&self) -> (r: String)
        requires
            emittable_operand(self@),
        ensures
            r@ == fmt_operand_byte(self@),
    {
        match self {
            Operand::Register(r) => r.format_inside_setcc(),
            _ => self.format(),
        }
    }
}

impl Instruction {
    pub fn format(&self) -> (r: String)
        requires
            emittable(self@),
        ensures
            r@ == fmt_instr(self@),
    {
        match self {
            Instruction::Mov { src, dst } => {
                let mut s = text("movl\t");
                s.append(src.format().as_str());
                s.append(", ");
                s.append(dst.format().as_str());
                s
            },
            Instruction::Unary(op, o) => {
                let mut s = op.format();
                s.append("\t");
                s.append(o.format().as_str());
                s
            },
            Instruction::AllocateStack(n) => {
                let mut s = text("subq\t$");
                push_signed_decimal(&mut s, *n);
                s.append(", %rsp");
                s
            },
            Instruction::Ret => text("movq\t%rbp, %rsp\n\tpopq\t%rbp\n\tret"),
            Instruction::Binary(op, a, b) => {
                let mut s = op.format();
                s.append("\t");
                s.append(a.format().as_str());
                s.append(", ");
                s.append(b.format().as_str());
                s
            },
            Instruction::Idiv(o) => {
                let mut s = text("idivl\t");
                s.append(o.format().as_str());
                s
            },
            Instruction::Cdq => text("cdq"),
            Instruction::Cmp(a, b) => {
                let mut s = text("cmpl\t");
                s.append(a.format().as_str());
                s.append(", ");
                s.append(b.format().as_str());
                s
            },
            Instruction::Jmp(l) => {
                let mut s = text("jmp\t.L_");
                s.append(l.0.as_str());
                s
            },
            Instruction::JumpCC(c, l) => {
                let mut s = text("j");
                s.append(c.format().as_str());
                s.append("\t.L_");
                s.append(l.0.as_str());
                s
            },
            Instruction::SetCC(c, o) => {
                let mut s = text("set");
                s.append(c.format().as_str());
                s.append("\t");
                s.append(o.format_inside_setcc().as_str());
                s
            },
            Instruction::Label(l) => {
                let mut s = text(".L_");
                s.append(l.0.as_str());
                s.append(":");
                s
            },
        }
    }
}

impl Function {
    /// The text of the function, prologue included; each `ret` carries the epilogue.
    pub fn format(&self) -> (r: String)
        requires
            all_emittable(asm_view(self.instructions@)),
        ensures
            r@ == fmt_function(self.name@, asm_view(self.instructions@)),
    {
        let ghost code = asm_view(self.instructions@);
        let mut result = text("\t.globl ");
        result.append(self.name.0.as_str());
        result.append("\n");
        result.append(self.name.0.as_str());
        result.append(":\n\tpushq\t%rbp\n\tmovq\t%rsp, %rbp\n");
        let ghost head = result@;
        let mut i: usize = 0;
        assert(code.subrange(0, 0).len() == 0);
        assert(head + fmt_lines(code.subrange(0, 0)) =~= head);
        while i < self.instructions.len()
            invariant
                0 <= i <= self.instructions@.len(),
                code == asm_view(self.instructions@),
                all_emittable(code),
                result@ == head + fmt_lines(code.subrange(0, i as int)),
            decreases self.instructions.len() - i,
        {
            let instruction = &self.instructions[i];
            proof {
                assert(code[i as int] == instruction@);
                assert(emittable(code[i as int]));
                assert(code.subrange(0, i + 1).drop_last() =~= code.subrange(0, i as int));
                assert(code.subrange(0, i + 1).last() == instruction@);
            }
            let line = instruction.format();
            if let Instruction::Label(_) = instruction {
                result.append(line.as_str());
                result.append("\n");
            } else {
                result.append("\t");
                result.append(line.as_str());
                result.append("\n");
            }
            assert(result@ =~= head + fmt_lines(code.subrange(0, i + 1)));
            i += 1;
        }
        assert(code.subrange(0, self.instructions@.len() as int) =~= code);
        assert(result@ =~= fmt_function(self.name@, code));
        result
    }
}

impl Program {
    /// The text of the program for `platform`.
    pub fn format(&self, platform: Platform) -> (r: String)
        requires
            all_emittable(asm_view(self.0.instructions@)),
        ensures
            r@ == fmt_program(self.0.name@, asm_view(self.0.instructions@), platform),
    {
        let mut s = self.0.format();
        if platform == Platform::Linux {
            s.append(".section .note.GNU-stack,\"\",@progbits");
        }
        s
    }
}

} // verus!
