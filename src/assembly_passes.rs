//! The passes that run after instruction selection, in this order: stack
//! allocation of variables, then the three legalization rewrites, then the frame.
use vstd::prelude::*;

use crate::assembly::{
    asm_view, has_pseudo, lemma_asm_view_push, operands, lemma_asm_view_step, slot_names, slot_offset, slots_wf, AsmInstr, AsmOperand, BinaryOperator,
    Instruction, Operand, Reg,
};
use crate::ast::Identifier;

verus! {

// ---------------------------------------------------------------------------
// Stack allocation

/// The operand that stack allocation makes of `o`: a variable noted in `ns` moves
/// to its slot; anything else stays.
pub open spec fn replace_operand(o: AsmOperand, ns: Seq<Seq<char>>) -> AsmOperand {
    match o {
        AsmOperand::Pseudo(n) => if ns.contains(n) {
            AsmOperand::Stack(slot_offset(ns.index_of(n)) as i64)
        } else {
            o
        },
        _ => o,
    }
}

pub open spec fn replace_instr(i: AsmInstr, ns: Seq<Seq<char>>) -> AsmInstr {
    match i {
        AsmInstr::Mov(a, b) => AsmInstr::Mov(replace_operand(a, ns), replace_operand(b, ns)),
        AsmInstr::Unary(op, o) => AsmInstr::Unary(op, replace_operand(o, ns)),
        AsmInstr::Binary(op, a, b) => AsmInstr::Binary(
            op,
            replace_operand(a, ns),
            replace_operand(b, ns),
        ),
        AsmInstr::Idiv(o) => AsmInstr::Idiv(replace_operand(o, ns)),
        AsmInstr::Cmp(a, b) => AsmInstr::Cmp(replace_operand(a, ns), replace_operand(b, ns)),
        AsmInstr::SetCC(c, o) => AsmInstr::SetCC(c, replace_operand(o, ns)),
        _ => i,
    }
}

pub open spec fn replace_all(code: Seq<AsmInstr>, ns: Seq<Seq<char>>) -> Seq<AsmInstr> {
    code.map_values(|i: AsmInstr| replace_instr(i, ns))
}

/// No instruction of `code` has a variable operand left.
pub open spec fn pseudo_free(code: Seq<AsmInstr>) -> bool {
    forall|k: int| 0 <= k < code.len() ==> !has_pseudo(#[trigger] code[k])
}

/// Every variable operand of `code` is noted in `ns`.
pub open spec fn names_covered(code: Seq<AsmInstr>, ns: Seq<Seq<char>>) -> bool {
    forall|k: int, j: int|
        0 <= k < code.len() && 0 <= j < operands(code[k]).len() && (#[trigger] operands(
            code[k],
        )[j]) is Pseudo ==> ns.contains(operands(code[k])[j]->Pseudo_0)
}

/// After stack allocation no variable operand remains, when every variable has a slot.
pub proof fn lemma_pseudo_eliminated(code: Seq<AsmInstr>, ns: Seq<Seq<char>>)
    requires
        names_covered(code, ns),
    ensures
        pseudo_free(replace_all(code, ns)),
{
    assert forall|k: int| 0 <= k < replace_all(code, ns).len() implies !has_pseudo(
        #[trigger] replace_all(code, ns)[k],
    ) by {
        let i = code[k];
        let r = replace_all(code, ns)[k];
        assert(r == replace_instr(i, ns));
        assert(forall|j: int|
            0 <= j < operands(i).len() && (#[trigger] operands(i)[j]) is Pseudo
                ==> ns.contains(operands(i)[j]->Pseudo_0));
        let ops = operands(i);
        if ops.len() > 0 {
            assert(ops[0] is Pseudo ==> ns.contains(ops[0]->Pseudo_0));
        }
        if ops.len() > 1 {
            assert(ops[1] is Pseudo ==> ns.contains(ops[1]->Pseudo_0));
        }
    }
}

/// Replaces every variable operand with its stack slot.
#[derive(Debug)]
pub struct ReplacePseudoRegisters;

impl ReplacePseudoRegisters {
    /// The slot of a variable operand noted in the map; any other operand as it is.
    fn get_stack_value(&self, operand: &Operand, pseudo_registers: &Vec<(Identifier, i64)>) -> (r:
        Operand)
        requires
            slots_wf(pseudo_registers@),
            slot_names(pseudo_registers@).no_duplicates(),
        ensures
            r@ == replace_operand(operand@, slot_names(pseudo_registers@)),
    {
        match operand {
            Operand::Pseudo(id) => match crate::assembly::find_slot(pseudo_registers, id) {
                Some(k) => {
                    let ghost ns = slot_names(pseudo_registers@);
                    proof {
                        assert(ns[k as int] == id@);
                        assert(ns.contains(id@));
                        let c = ns.index_of(id@);
                        assert(ns[c] == id@);
                        assert(c == k);
                    }
                    Operand::Stack(pseudo_registers[k].1)
                },
                None => operand.duplicate(),
            },
            _ => operand.duplicate(),
        }
    }

    fn replace_instruction(&self, i: &Instruction, pseudo_registers: &Vec<(Identifier, i64)>) -> (r:
        Instruction)
        requires
            slots_wf(pseudo_registers@),
            slot_names(pseudo_registers@).no_duplicates(),
        ensures
            r@ == replace_instr(i@, slot_names(pseudo_registers@)),
    {
        match i {
            Instruction::Mov { src, dst } => Instruction::Mov {
                src: self.get_stack_value(src, pseudo_registers),
                dst: self.get_stack_value(dst, pseudo_registers),
            },
            Instruction::Unary(op, o) => Instruction::Unary(
                *op,
                self.get_stack_value(o, pseudo_registers),
            ),
            Instruction::Binary(op, a, b) => Instruction::Binary(
                *op,
                self.get_stack_value(a, pseudo_registers),
                self.get_stack_value(b, pseudo_registers),
            ),
            Instruction::Idiv(o) => Instruction::Idiv(self.get_stack_value(o, pseudo_registers)),
            Instruction::Cmp(a, b) => Instruction::Cmp(
                self.get_stack_value(a, pseudo_registers),
                self.get_stack_value(b, pseudo_registers),
            ),
            Instruction::SetCC(c, o) => Instruction::SetCC(
                *c,
                self.get_stack_value(o, pseudo_registers),
            ),
            _ => i.duplicate(),
        }
    }

    /// Rewrites every instruction so that each variable operand names its slot.
    pub fn rewrite(
        &mut self,
        instructions: &mut Vec<Instruction>,
        pseudo_registers: &Vec<(Identifier, i64)>,
    )
        requires
            slots_wf(pseudo_registers@),
            slot_names(pseudo_registers@).no_duplicates(),
        ensures
            asm_view(final(instructions)@) == replace_all(
                asm_view(old(instructions)@),
                slot_names(pseudo_registers@),
            ),
    {
        let ghost ns = slot_names(pseudo_registers@);
        let mut out: Vec<Instruction> = Vec::new();
        let mut i: usize = 0;
        while i < instructions.len()
            invariant
                0 <= i <= instructions@.len(),
                instructions@ == old(instructions)@,
                ns == slot_names(pseudo_registers@),
                slots_wf(pseudo_registers@),
                ns.no_duplicates(),
                asm_view(out@) == replace_all(asm_view(instructions@.subrange(0, i as int)), ns),
            decreases instructions.len() - i,
        {
            let r = self.replace_instruction(&instructions[i], pseudo_registers);
            let ghost prev = out@;
            out.push(r);
            proof {
                lemma_asm_view_push(prev, r);
                lemma_asm_view_step(instructions@, i as int);
                let a = asm_view(instructions@.subrange(0, i as int));
                assert(replace_all(a.push(instructions@[i as int]@), ns) =~= replace_all(a, ns).push(
                    replace_instr(instructions@[i as int]@, ns),
                ));
                assert(asm_view(out@) =~= replace_all(
                    asm_view(instructions@.subrange(0, i + 1)),
                    ns,
                ));
            }
            i += 1;
        }
        assert(instructions@.subrange(0, instructions@.len() as int) =~= instructions@);
        *instructions = out;
    }
}

// ---------------------------------------------------------------------------
// Legalization

pub open spec fn r10() -> AsmOperand {
    AsmOperand::Register(Reg::R10)
}

pub open spec fn r11() -> AsmOperand {
    AsmOperand::Register(Reg::R11)
}

/// A `mov` between two stack slots goes through R10.
pub open spec fn fix_mov(i: AsmInstr) -> Seq<AsmInstr> {
    match i {
        AsmInstr::Mov(src, dst) => if src is Stack && dst is Stack {
            seq![AsmInstr::Mov(src, r10()), AsmInstr::Mov(r10(), dst)]
        } else {
            seq![i]
        },
        _ => seq![i],
    }
}

/// `idiv` of an immediate divides R10; `add` or `sub` between two stack slots takes
/// its source from R10; `imul` into a stack slot multiplies in R11.
pub open spec fn fix_binary(i: AsmInstr) -> Seq<AsmInstr> {
    match i {
        AsmInstr::Idiv(o) => if o is Imm {
            seq![AsmInstr::Mov(o, r10()), AsmInstr::Idiv(r10())]
        } else {
            seq![i]
        },
        AsmInstr::Binary(op, src, dst) => if op is Mult && dst is Stack {
            seq![
                AsmInstr::Mov(dst, r11()),
                AsmInstr::Binary(op, src, r11()),
                AsmInstr::Mov(r11(), dst),
            ]
        } else if (op is Add || op is Sub) && src is Stack && dst is Stack {
            seq![AsmInstr::Mov(src, r10()), AsmInstr::Binary(op, r10(), dst)]
        } else {
            seq![i]
        },
        _ => seq![i],
    }
}

/// A `cmp` between two stack slots takes its first operand from R10; one whose
/// second operand is an immediate takes it from R11.
pub open spec fn fix_cmp(i: AsmInstr) -> Seq<AsmInstr> {
    match i {
        AsmInstr::Cmp(a, b) => if a is Stack && b is Stack {
            seq![AsmInstr::Mov(a, r10()), AsmInstr::Cmp(r10(), b)]
        } else if b is Imm {
            seq![AsmInstr::Mov(b, r11()), AsmInstr::Cmp(a, r11())]
        } else {
            seq![i]
        },
        _ => seq![i],
    }
}

pub open spec fn rewrite_movs(code: Seq<AsmInstr>) -> Seq<AsmInstr>
    decreases code.len(),
{
    if code.len() == 0 {
        seq![]
    } else {
        rewrite_movs(code.drop_last()) + fix_mov(code.last())
    }
}

pub open spec fn rewrite_binaries(code: Seq<AsmInstr>) -> Seq<AsmInstr>
    decreases code.len(),
{
    if code.len() == 0 {
        seq![]
    } else {
        rewrite_binaries(code.drop_last()) + fix_binary(code.last())
    }
}

pub open spec fn rewrite_cmps(code: Seq<AsmInstr>) -> Seq<AsmInstr>
    decreases code.len(),
{
    if code.len() == 0 {
        seq![]
    } else {
        rewrite_cmps(code.drop_last()) + fix_cmp(code.last())
    }
}

/// The three legalization passes, in their order.
pub open spec fn legalize(code: Seq<AsmInstr>) -> Seq<AsmInstr> {
    rewrite_cmps(rewrite_binaries(rewrite_movs(code)))
}

/// A binary `Divide` or `Remainder`, which selection never produces (division goes
/// through `idiv`).
pub open spec fn is_div_binary(i: AsmInstr) -> bool {
    match i {
        AsmInstr::Binary(op, _, _) => op is Divide || op is Remainder,
        _ => false,
    }
}

pub open spec fn no_div_binary(code: Seq<AsmInstr>) -> bool {
    forall|k: int| 0 <= k < code.len() ==> !is_div_binary(#[trigger] code[k])
}

pub open spec fn mov_stack_stack(i: AsmInstr) -> bool {
    match i {
        AsmInstr::Mov(a, b) => a is Stack && b is Stack,
        _ => false,
    }
}

pub open spec fn after_movs(i: AsmInstr) -> bool {
    !mov_stack_stack(i) && !is_div_binary(i)
}

pub open spec fn after_binaries(i: AsmInstr) -> bool {
    &&& after_movs(i)
    &&& !(i matches AsmInstr::Binary(BinaryOperator::Mult, _, AsmOperand::Stack(_)))
    &&& !(i matches AsmInstr::Idiv(AsmOperand::Imm(_)))
}

/// The instruction obeys the operand rules of the target: no `mov` or `cmp` between
/// two stack slots, no immediate as the second operand of `cmp`, no `imul` into a
/// stack slot, no `idiv` of an immediate.
pub open spec fn legal(i: AsmInstr) -> bool {
    &&& after_binaries(i)
    &&& !(i matches AsmInstr::Cmp(AsmOperand::Stack(_), AsmOperand::Stack(_)))
    &&& !(i matches AsmInstr::Cmp(_, AsmOperand::Imm(_)))
}

pub open spec fn all_after_movs(code: Seq<AsmInstr>) -> bool {
    forall|k: int| 0 <= k < code.len() ==> after_movs(#[trigger] code[k])
}

pub open spec fn all_after_binaries(code: Seq<AsmInstr>) -> bool {
    forall|k: int| 0 <= k < code.len() ==> after_binaries(#[trigger] code[k])
}

pub open spec fn all_legal(code: Seq<AsmInstr>) -> bool {
    forall|k: int| 0 <= k < code.len() ==> legal(#[trigger] code[k])
}

/// Splitting `mov`s brings in no binary division.
pub proof fn lemma_movs_keep_no_div(code: Seq<AsmInstr>)
    requires
        no_div_binary(code),
    ensures
        no_div_binary(rewrite_movs(code)),
{
    lemma_movs_establish(code);
    assert forall|k: int| 0 <= k < rewrite_movs(code).len() implies !is_div_binary(
        #[trigger] rewrite_movs(code)[k],
    ) by {
        assert(after_movs(rewrite_movs(code)[k]));
    }
}

/// Stack allocation keeps every operator, so it brings in no binary division.
pub proof fn lemma_replace_keeps_no_div(code: Seq<AsmInstr>, ns: Seq<Seq<char>>)
    requires
        no_div_binary(code),
    ensures
        no_div_binary(replace_all(code, ns)),
{
    assert forall|k: int| 0 <= k < replace_all(code, ns).len() implies !is_div_binary(
        #[trigger] replace_all(code, ns)[k],
    ) by {
        assert(replace_all(code, ns)[k] == replace_instr(code[k], ns));
        assert(!is_div_binary(code[k]));
    }
}

proof fn lemma_movs_establish(code: Seq<AsmInstr>)
    requires
        no_div_binary(code),
    ensures
        all_after_movs(rewrite_movs(code)),
    decreases code.len(),
{
    if code.len() > 0 {
        assert(no_div_binary(code.drop_last())) by {
            assert forall|k: int| 0 <= k < code.drop_last().len() implies !is_div_binary(
                #[trigger] code.drop_last()[k],
            ) by {
                assert(code.drop_last()[k] == code[k]);
            }
        }
        lemma_movs_establish(code.drop_last());
        assert(!is_div_binary(code[code.len() - 1]));
        let a = rewrite_movs(code.drop_last());
        let b = fix_mov(code.last());
        assert forall|k: int| 0 <= k < (a + b).len() implies after_movs(#[trigger] (a + b)[k]) by {
            if k >= a.len() {
                assert((a + b)[k] == b[k - a.len()]);
            } else {
                assert((a + b)[k] == a[k]);
            }
        }
    }
}

proof fn lemma_binaries_establish(code: Seq<AsmInstr>)
    requires
        all_after_movs(code),
    ensures
        all_after_binaries(rewrite_binaries(code)),
    decreases code.len(),
{
    if code.len() > 0 {
        assert(all_after_movs(code.drop_last())) by {
            assert forall|k: int| 0 <= k < code.drop_last().len() implies after_movs(
                #[trigger] code.drop_last()[k],
            ) by {
                assert(code.drop_last()[k] == code[k]);
            }
        }
        lemma_binaries_establish(code.drop_last());
        assert(after_movs(code[code.len() - 1]));
        let a = rewrite_binaries(code.drop_last());
        let b = fix_binary(code.last());
        assert forall|k: int| 0 <= k < (a + b).len() implies after_binaries(
            #[trigger] (a + b)[k],
        ) by {
            if k >= a.len() {
                assert((a + b)[k] == b[k - a.len()]);
            } else {
                assert((a + b)[k] == a[k]);
            }
        }
    }
}

proof fn lemma_cmps_establish(code: Seq<AsmInstr>)
    requires
        all_after_binaries(code),
    ensures
        all_legal(rewrite_cmps(code)),
    decreases code.len(),
{
    if code.len() > 0 {
        assert(all_after_binaries(code.drop_last())) by {
            assert forall|k: int| 0 <= k < code.drop_last().len() implies after_binaries(
                #[trigger] code.drop_last()[k],
            ) by {
                assert(code.drop_last()[k] == code[k]);
            }
        }
        lemma_cmps_establish(code.drop_last());
        assert(after_binaries(code[code.len() - 1]));
        let a = rewrite_cmps(code.drop_last());
        let b = fix_cmp(code.last());
        assert forall|k: int| 0 <= k < (a + b).len() implies legal(#[trigger] (a + b)[k]) by {
            if k >= a.len() {
                assert((a + b)[k] == b[k - a.len()]);
            } else {
                assert((a + b)[k] == a[k]);
            }
        }
    }
}

proof fn lemma_concat_pseudo_free(a: Seq<AsmInstr>, b: Seq<AsmInstr>)
    requires
        pseudo_free(a),
        pseudo_free(b),
    ensures
        pseudo_free(a + b),
{
    assert forall|k: int| 0 <= k < (a + b).len() implies !has_pseudo(#[trigger] (a + b)[k]) by {
        if k >= a.len() {
            assert((a + b)[k] == b[k - a.len()]);
        } else {
            assert((a + b)[k] == a[k]);
        }
    }
}

proof fn lemma_drop_last_pseudo_free(code: Seq<AsmInstr>)
    requires
        pseudo_free(code),
        code.len() > 0,
    ensures
        pseudo_free(code.drop_last()),
        !has_pseudo(code.last()),
{
    assert forall|k: int| 0 <= k < code.drop_last().len() implies !has_pseudo(
        #[trigger] code.drop_last()[k],
    ) by {
        assert(code.drop_last()[k] == code[k]);
    }
}

proof fn lemma_movs_pseudo_free(code: Seq<AsmInstr>)
    requires
        pseudo_free(code),
    ensures
        pseudo_free(rewrite_movs(code)),
    decreases code.len(),
{
    if code.len() > 0 {
        lemma_drop_last_pseudo_free(code);
        lemma_movs_pseudo_free(code.drop_last());
        assert(pseudo_free(fix_mov(code.last())));
        lemma_concat_pseudo_free(rewrite_movs(code.drop_last()), fix_mov(code.last()));
    }
}

proof fn lemma_binaries_pseudo_free(code: Seq<AsmInstr>)
    requires
        pseudo_free(code),
    ensures
        pseudo_free(rewrite_binaries(code)),
    decreases code.len(),
{
    if code.len() > 0 {
        lemma_drop_last_pseudo_free(code);
        lemma_binaries_pseudo_free(code.drop_last());
        assert(pseudo_free(fix_binary(code.last())));
        lemma_concat_pseudo_free(rewrite_binaries(code.drop_last()), fix_binary(code.last()));
    }
}

proof fn lemma_cmps_pseudo_free(code: Seq<AsmInstr>)
    requires
        pseudo_free(code),
    ensures
        pseudo_free(rewrite_cmps(code)),
    decreases code.len(),
{
    if code.len() > 0 {
        lemma_drop_last_pseudo_free(code);
        lemma_cmps_pseudo_free(code.drop_last());
        assert(pseudo_free(fix_cmp(code.last())));
        lemma_concat_pseudo_free(rewrite_cmps(code.drop_last()), fix_cmp(code.last()));
    }
}

/// Legalization brings in registers only, never a variable.
pub proof fn lemma_legalize_pseudo_free(code: Seq<AsmInstr>)
    requires
        pseudo_free(code),
    ensures
        pseudo_free(legalize(code)),
{
    lemma_movs_pseudo_free(code);
    lemma_binaries_pseudo_free(rewrite_movs(code));
    lemma_cmps_pseudo_free(rewrite_binaries(rewrite_movs(code)));
}

/// After the three legalization passes, in their order, every instruction obeys the
/// operand rules of the target.
pub proof fn lemma_legalized(code: Seq<AsmInstr>)
    requires
        no_div_binary(code),
    ensures
        all_legal(legalize(code)),
{
    lemma_movs_establish(code);
    lemma_binaries_establish(rewrite_movs(code));
    lemma_cmps_establish(rewrite_binaries(rewrite_movs(code)));
}

proof fn lemma_step<A>(code: Seq<A>, i: int)
    requires
        0 <= i < code.len(),
    ensures
        code.subrange(0, i + 1).drop_last() == code.subrange(0, i),
        code.subrange(0, i + 1).last() == code[i],
{
    assert(code.subrange(0, i + 1).drop_last() =~= code.subrange(0, i));
}

fn reg(r: Reg) -> (o: Operand)
    ensures
        o@ == AsmOperand::Register(r),
{
    Operand::Register(r)
}

/// Splits each `mov` between two stack slots in two, through R10.
#[derive(Debug)]
pub struct RewriteMov;

impl RewriteMov {
    pub fn rewrite(&mut self, instructions: &mut Vec<Instruction>)
        ensures
            asm_view(final(instructions)@) == rewrite_movs(asm_view(old(instructions)@)),
    {
        let ghost code = asm_view(instructions@);
        let mut out: Vec<Instruction> = Vec::new();
        let mut i: usize = 0;
        while i < instructions.len()
            invariant
                0 <= i <= instructions@.len(),
                instructions@ == old(instructions)@,
                code == asm_view(instructions@),
                asm_view(out@) == rewrite_movs(code.subrange(0, i as int)),
            decreases instructions.len() - i,
        {
            let ghost before = asm_view(out@);
            match &instructions[i] {
                Instruction::Mov { src, dst } => {
                    if src.is_stack() && dst.is_stack() {
                        out.push(Instruction::Mov { src: src.duplicate(), dst: reg(Reg::R10) });
                        out.push(Instruction::Mov { src: reg(Reg::R10), dst: dst.duplicate() });
                    } else {
                        out.push(instructions[i].duplicate());
                    }
                },
                _ => out.push(instructions[i].duplicate()),
            }
            proof {
                lemma_step(code, i as int);
                assert(code[i as int] == instructions@[i as int]@);
                assert(asm_view(out@) =~= before + fix_mov(code[i as int]));
            }
            i += 1;
        }
        assert(code.subrange(0, instructions@.len() as int) =~= code);
        *instructions = out;
    }
}

/// Moves the operands of `idiv`, `add`, `sub` and `imul` out of the forms that the
/// target refuses.
#[derive(Debug)]
pub struct RewriteBinaryOp;

impl RewriteBinaryOp {
    /// A binary `Divide` or `Remainder` reaching this pass is a defect of selection,
    /// which sends division through `idiv`: it is excluded.
    pub fn rewrite(&mut self, instructions: &mut Vec<Instruction>)
        requires
            no_div_binary(asm_view(old(instructions)@)),
        ensures
            asm_view(final(instructions)@) == rewrite_binaries(asm_view(old(instructions)@)),
    {
        let ghost code = asm_view(instructions@);
        let mut out: Vec<Instruction> = Vec::new();
        let mut i: usize = 0;
        while i < instructions.len()
            invariant
                0 <= i <= instructions@.len(),
                instructions@ == old(instructions)@,
                code == asm_view(instructions@),
                asm_view(out@) == rewrite_binaries(code.subrange(0, i as int)),
            decreases instructions.len() - i,
        {
            let ghost before = asm_view(out@);
            match &instructions[i] {
                Instruction::Idiv(o) => {
                    if o.is_imm() {
                        out.push(Instruction::Mov { src: o.duplicate(), dst: reg(Reg::R10) });
                        out.push(Instruction::Idiv(reg(Reg::R10)));
                    } else {
                        out.push(instructions[i].duplicate());
                    }
                },
                Instruction::Binary(op, src, dst) => {
                    if *op == BinaryOperator::Mult && dst.is_stack() {
                        out.push(Instruction::Mov { src: dst.duplicate(), dst: reg(Reg::R11) });
                        out.push(Instruction::Binary(*op, src.duplicate(), reg(Reg::R11)));
                        out.push(Instruction::Mov { src: reg(Reg::R11), dst: dst.duplicate() });
                    } else if (*op == BinaryOperator::Add || *op == BinaryOperator::Sub)
                        && src.is_stack() && dst.is_stack() {
                        out.push(Instruction::Mov { src: src.duplicate(), dst: reg(Reg::R10) });
                        out.push(Instruction::Binary(*op, reg(Reg::R10), dst.duplicate()));
                    } else {
                        out.push(instructions[i].duplicate());
                    }
                },
                _ => out.push(instructions[i].duplicate()),
            }
            proof {
                lemma_step(code, i as int);
                assert(code[i as int] == instructions@[i as int]@);
                assert(asm_view(out@) =~= before + fix_binary(code[i as int]));
            }
            i += 1;
        }
        assert(code.subrange(0, instructions@.len() as int) =~= code);
        *instructions = out;
    }
}

/// Moves the operands of `cmp` out of the forms that the target refuses.
#[derive(Debug)]
pub struct RewriteCmp;

impl RewriteCmp {
    pub fn rewrite(&mut self, instructions: &mut Vec<Instruction>)
        ensures
            asm_view(final(instructions)@) == rewrite_cmps(asm_view(old(instructions)@)),
    {
        let ghost code = asm_view(instructions@);
        let mut out: Vec<Instruction> = Vec::new();
        let mut i: usize = 0;
        while i < instructions.len()
            invariant
                0 <= i <= instructions@.len(),
                instructions@ == old(instructions)@,
                code == asm_view(instructions@),
                asm_view(out@) == rewrite_cmps(code.subrange(0, i as int)),
            decreases instructions.len() - i,
        {
            let ghost before = asm_view(out@);
            match &instructions[i] {
                Instruction::Cmp(a, b) => {
                    if a.is_stack() && b.is_stack() {
                        out.push(Instruction::Mov { src: a.duplicate(), dst: reg(Reg::R10) });
                        out.push(Instruction::Cmp(reg(Reg::R10), b.duplicate()));
                    } else if b.is_imm() {
                        out.push(Instruction::Mov { src: b.duplicate(), dst: reg(Reg::R11) });
                        out.push(Instruction::Cmp(a.duplicate(), reg(Reg::R11)));
                    } else {
                        out.push(instructions[i].duplicate());
                    }
                },
                _ => out.push(instructions[i].duplicate()),
            }
            proof {
                lemma_step(code, i as int);
                assert(code[i as int] == instructions@[i as int]@);
                assert(asm_view(out@) =~= before + fix_cmp(code[i as int]));
            }
            i += 1;
        }
        assert(code.subrange(0, instructions@.len() as int) =~= code);
        *instructions = out;
    }
}

/// Puts the frame allocation in front of the instructions.
#[derive(Debug)]
pub struct AllocateStack;

impl AllocateStack {
    pub fn rewrite(&mut self, instructions: &mut Vec<Instruction>, offset: i64)
        ensures
            asm_view(final(instructions)@) == seq![AsmInstr::AllocateStack(offset)] + asm_view(
                old(instructions)@,
            ),
    {
        let mut out: Vec<Instruction> = Vec::new();
        out.push(Instruction::AllocateStack(offset));
        let mut i: usize = 0;
        while i < instructions.len()
            invariant
                0 <= i <= instructions@.len(),
                instructions@ == old(instructions)@,
                asm_view(out@) == seq![AsmInstr::AllocateStack(offset)] + asm_view(
                    instructions@.subrange(0, i as int),
                ),
            decreases instructions.len() - i,
        {
            let ghost prev = out@;
            out.push(instructions[i].duplicate());
            proof {
                lemma_asm_view_push(prev, out@.last());
                lemma_asm_view_step(instructions@, i as int);
            }
            i += 1;
        }
        assert(instructions@.subrange(0, instructions@.len() as int) =~= instructions@);
        *instructions = out;
    }
}

} // verus!
