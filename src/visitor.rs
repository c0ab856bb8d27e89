//! The fixed pipeline of passes over a program, and the laws that hold of it.
use vstd::prelude::*;

use crate::assembly::{
    all_emittable, all_selectable, asm_view, emittable, fmt_program, lemma_note_instrs_complete,
    lemma_note_instrs_extends, note_instrs, operands, select, select_instr, selectable,
    slot_names, slot_offset, slots_wf, stack_names, AsmInstr, AsmOperand, Assembly, BinaryOperator as AsmBinaryOperator,
    Instruction, Platform, SLOT_WIDTH,
};
use crate::assembly_passes::{
    all_legal, is_div_binary, lemma_legalize_pseudo_free, lemma_legalized, lemma_pseudo_eliminated,
    legal, legalize, lemma_movs_keep_no_div, lemma_replace_keeps_no_div, names_covered,
    rewrite_binaries, rewrite_cmps, rewrite_movs, no_div_binary, pseudo_free, replace_all, replace_instr,
    AllocateStack, ReplacePseudoRegisters, RewriteBinaryOp, RewriteCmp, RewriteMov,
};
use crate::ast::{self, Identifier};
use crate::tac::{
    fits, function_counters, ir_view, lower_function, IrInstr, TAC,
};

verus! {

/// A pass over one item.
pub trait Visitor<T> {
    /// The items that the pass accepts.
    spec fn accepts(item: T) -> bool;

    /// `after` is what the pass makes of `before`.
    spec fn visited(before: T, after: T) -> bool;

    fn visit(&mut self, item: &mut T)
        requires
            Self::accepts(*old(item)),
        ensures
            Self::visited(*old(item), *final(item)),
    ;
}

/// A pass over one item that also reads or updates a context.
pub trait VisitorWithContext<T, C> {
    /// The items and contexts that the pass accepts.
    spec fn accepts(item: T, context: C) -> bool;

    /// `after` and `context_after` are what the pass makes of `before` and
    /// `context_before`.
    spec fn visited(before: T, after: T, context_before: C, context_after: C) -> bool;

    fn visit(&mut self, item: &mut T, context: &mut C)
        requires
            Self::accepts(*old(item), *old(context)),
        ensures
            Self::visited(*old(item), *final(item), *old(context), *final(context)),
    ;
}

impl Visitor<Vec<Instruction>> for RewriteMov {
    open spec fn accepts(item: Vec<Instruction>) -> bool {
        true
    }

    open spec fn visited(before: Vec<Instruction>, after: Vec<Instruction>) -> bool {
        asm_view(after@) == rewrite_movs(asm_view(before@))
    }

    fn visit(&mut self, item: &mut Vec<Instruction>) {
        self.rewrite(item)
    }
}

impl Visitor<Vec<Instruction>> for RewriteBinaryOp {
    open spec fn accepts(item: Vec<Instruction>) -> bool {
        no_div_binary(asm_view(item@))
    }

    open spec fn visited(before: Vec<Instruction>, after: Vec<Instruction>) -> bool {
        asm_view(after@) == rewrite_binaries(asm_view(before@))
    }

    fn visit(&mut self, item: &mut Vec<Instruction>) {
        self.rewrite(item)
    }
}

impl Visitor<Vec<Instruction>> for RewriteCmp {
    open spec fn accepts(item: Vec<Instruction>) -> bool {
        true
    }

    open spec fn visited(before: Vec<Instruction>, after: Vec<Instruction>) -> bool {
        asm_view(after@) == rewrite_cmps(asm_view(before@))
    }

    fn visit(&mut self, item: &mut Vec<Instruction>) {
        self.rewrite(item)
    }
}

impl VisitorWithContext<Vec<Instruction>, i64> for AllocateStack {
    open spec fn accepts(item: Vec<Instruction>, context: i64) -> bool {
        true
    }

    open spec fn visited(
        before: Vec<Instruction>,
        after: Vec<Instruction>,
        context_before: i64,
        context_after: i64,
    ) -> bool {
        &&& asm_view(after@) == seq![AsmInstr::AllocateStack(context_before)] + asm_view(before@)
        &&& context_after == context_before
    }

    fn visit(&mut self, item: &mut Vec<Instruction>, offset: &mut i64) {
        self.rewrite(item, *offset)
    }
}

impl VisitorWithContext<Vec<Instruction>, Vec<(Identifier, i64)>> for ReplacePseudoRegisters {
    open spec fn accepts(item: Vec<Instruction>, context: Vec<(Identifier, i64)>) -> bool {
        slots_wf(context@) && slot_names(context@).no_duplicates()
    }

    open spec fn visited(
        before: Vec<Instruction>,
        after: Vec<Instruction>,
        context_before: Vec<(Identifier, i64)>,
        context_after: Vec<(Identifier, i64)>,
    ) -> bool {
        &&& asm_view(after@) == replace_all(asm_view(before@), slot_names(context_before@))
        &&& context_after@ == context_before@
    }

    fn visit(&mut self, item: &mut Vec<Instruction>, pseudo_registers: &mut Vec<(Identifier, i64)>) {
        self.rewrite(item, pseudo_registers)
    }
}

/// Visits the items of `items` once each, in ascending order: each item becomes what
/// the visit made of it.
pub fn apply_visitor<T, V>(items: &mut Vec<T>, mut visitor: V) where V: Visitor<T>
    requires
        forall|k: int| 0 <= k < old(items)@.len() ==> V::accepts(#[trigger] old(items)@[k]),
    ensures
        final(items)@.len() == old(items)@.len(),
        forall|k: int|
            0 <= k < old(items)@.len() ==> V::visited(#[trigger] old(items)@[k], final(items)@[k]),
{
    let ghost before = items@;
    let n = items.len();
    let mut i: usize = 0;
    while i < n
        invariant
            0 <= i <= n,
            n == before.len(),
            items@.len() == n,
            forall|k: int| 0 <= k < n ==> V::accepts(#[trigger] before[k]),
            forall|k: int| 0 <= k < i ==> V::visited(#[trigger] before[k], items@[k]),
            forall|k: int| i <= k < n ==> items@[k] == before[k],
        decreases n - i,
    {
        let mut item = items.remove(i);
        proof {
            assert(item == before[i as int]);
            assert(V::accepts(before[i as int]));
        }
        visitor.visit(&mut item);
        items.insert(i, item);
        i += 1;
    }
}

/// Visits the items of `items` once each, in ascending order, handing the context on:
/// visit `k` sees the context as visit `k - 1` left it (`contexts[k]`), and leaves it as
/// `contexts[k + 1]`.
pub fn apply_visitor_with_context<T, V, C>(items: &mut Vec<T>, mut visitor: V, context: &mut C) where
    V: VisitorWithContext<T, C>,

    requires
        forall|k: int| 0 <= k < old(items)@.len() ==> V::accepts(#[trigger] old(items)@[k], *old(context)),
        forall|b: T, a: T, c0: C, c1: C, x: T|
            #[trigger] V::visited(b, a, c0, c1) && #[trigger] V::accepts(x, c0) ==> V::accepts(x, c1),
    ensures
        final(items)@.len() == old(items)@.len(),
        exists|contexts: Seq<C>|
            {
                &&& contexts.len() == old(items)@.len() + 1
                &&& contexts[0] == *old(context)
                &&& contexts.last() == *final(context)
                &&& forall|k: int|
                    0 <= k < old(items)@.len() ==> V::visited(
                        #[trigger] old(items)@[k],
                        final(items)@[k],
                        contexts[k],
                        contexts[k + 1],
                    )
            },
{
    let ghost before = items@;
    let ghost mut contexts: Seq<C> = seq![*context];
    let n = items.len();
    let mut i: usize = 0;
    while i < n
        invariant
            0 <= i <= n,
            n == before.len(),
            items@.len() == n,
            contexts.len() == i + 1,
            contexts.last() == *context,
            contexts[0] == *old(context),
            forall|k: int| 0 <= k < n ==> V::accepts(#[trigger] before[k], *context),
            forall|b: T, a: T, c0: C, c1: C, x: T|
                #[trigger] V::visited(b, a, c0, c1) && #[trigger] V::accepts(x, c0) ==> V::accepts(x, c1),
            forall|k: int|
                0 <= k < i ==> V::visited(#[trigger] before[k], items@[k], contexts[k], contexts[k + 1]),
            forall|k: int| i <= k < n ==> items@[k] == before[k],
        decreases n - i,
    {
        let ghost c_before = *context;
        let mut item = items.remove(i);
        proof {
            assert(item == before[i as int]);
            assert(V::accepts(before[i as int], *context));
        }
        visitor.visit(&mut item, context);
        items.insert(i, item);
        proof {
            let b = before[i as int];
            assert(V::visited(b, item, c_before, *context));
            assert forall|k: int| 0 <= k < n implies V::accepts(#[trigger] before[k], *context) by {
                assert(V::accepts(before[k], c_before));
                assert(V::visited(b, item, c_before, *context));
            }
            contexts = contexts.push(*context);
        }
        i += 1;
    }
    assert(contexts.len() == before.len() + 1);
}

/// The instructions after stack allocation, legalization and the frame, for
/// selected instructions `code` whose variables are `ns`.
pub open spec fn allocated(code: Seq<AsmInstr>, ns: Seq<Seq<char>>) -> Seq<AsmInstr> {
    seq![AsmInstr::AllocateStack((SLOT_WIDTH * ns.len()) as i64)] + legalize(replace_all(code, ns))
}

/// Runs the passes after selection in their fixed order: stack allocation,
/// the `mov`, binary and `cmp` rewrites, then the frame allocation in front.
pub fn assembly_passes(assembly: &mut Assembly)
    requires
        old(assembly).program is Some,
        old(assembly).map_wf(),
        no_div_binary(asm_view(old(assembly).program.unwrap().0.instructions@)),
    ensures
        final(assembly).program is Some,
        final(assembly).program.unwrap().0.name@ == old(assembly).program.unwrap().0.name@,
        asm_view(final(assembly).program.unwrap().0.instructions@) == allocated(
            asm_view(old(assembly).program.unwrap().0.instructions@),
            old(assembly).names(),
        ),
        final(assembly).pseudo_registers@ == old(assembly).pseudo_registers@,
        final(assembly).offset == old(assembly).offset,
        final(assembly).source == old(assembly).source,
{
    let mut program = None;
    core::mem::swap(&mut program, &mut assembly.program);
    match program {
        Some(mut p) => {
            let mut instructions = Vec::new();
            core::mem::swap(&mut instructions, &mut p.0.instructions);
            let ghost code = asm_view(instructions@);
            ReplacePseudoRegisters.rewrite(&mut instructions, &assembly.pseudo_registers);
            proof {
                lemma_replace_keeps_no_div(code, assembly.names());
            }
            RewriteMov.rewrite(&mut instructions);
            proof {
                lemma_movs_keep_no_div(replace_all(code, assembly.names()));
            }
            RewriteBinaryOp.rewrite(&mut instructions);
            RewriteCmp.rewrite(&mut instructions);
            AllocateStack.rewrite(&mut instructions, assembly.offset);
            core::mem::swap(&mut instructions, &mut p.0.instructions);
            assembly.program = Some(p);
        },
        None => {},
    }
}

/// The instructions that compiling a function gives, frame allocation included.
pub open spec fn compile_code(f: ast::Function) -> Seq<AsmInstr> {
    let code = select(lower_function(f));
    allocated(code, stack_names(code))
}

/// The assembly text that compiling a program gives for `platform`.
pub open spec fn compile_text(p: ast::Program, platform: Platform) -> Seq<char> {
    fmt_program(p.0.name@, compile_code(p.0), platform)
}

/// Whether `p` is ready for compilation: resolved, labeled, and small enough that
/// the counters and the frame fit in machine integers.
pub open spec fn compilable(p: ast::Program) -> bool {
    &&& ast::items_wf(p.0.body.0@)
    &&& fits(function_counters(p.0))
    &&& SLOT_WIDTH * stack_names(select(lower_function(p.0))).len() <= i64::MAX
}

/// Compiles a program to assembly text: lowering, selection, stack allocation,
/// legalization and emission.
pub fn compile_program(program: ast::Program, platform: Platform) -> (r: String)
    requires
        compilable(program),
    ensures
        r@ == compile_text(program, platform),
{
    let ghost f = program.0;
    let mut generator = TAC::new(program);
    let ir = generator.to_tac_program();
    proof {
        crate::tac::lemma_function_selectable(f);
    }
    let mut assembly = Assembly::new(ir);
    assembly.parse_program();
    proof {
        let code = select(lower_function(f));
        lemma_names_cover(code);
        lemma_select_no_div(lower_function(f));
    }
    assembly_passes(&mut assembly);
    proof {
        lemma_compiled_emittable(lower_function(f));
    }
    match &assembly.program {
        Some(p) => p.format(platform),
        None => String::new(),
    }
}

/// The variables in first-use order cover every variable operand of `code`.
pub proof fn lemma_names_cover(code: Seq<AsmInstr>)
    ensures
        names_covered(code, stack_names(code)),
{
    assert forall|k: int, j: int|
        0 <= k < code.len() && 0 <= j < operands(code[k]).len() && (#[trigger] operands(
            code[k],
        )[j]) is Pseudo implies stack_names(code).contains(operands(code[k])[j]->Pseudo_0) by {
        let n = operands(code[k])[j]->Pseudo_0;
        assert(operands(code[k])[j] == AsmOperand::Pseudo(n));
        lemma_note_instrs_complete(seq![], code, n);
    }
}

proof fn lemma_select_no_div(code: Seq<IrInstr>)
    ensures
        no_div_binary(select(code)),
    decreases code.len(),
{
    if code.len() > 0 {
        lemma_select_no_div(code.drop_last());
        let a = select(code.drop_last());
        let b = select_instr(code.last());
        assert forall|k: int| 0 <= k < (a + b).len() implies !is_div_binary(#[trigger] (a + b)[k]) by {
            if k >= a.len() {
                assert((a + b)[k] == b[k - a.len()]);
            } else {
                assert((a + b)[k] == a[k]);
            }
        }
    }
}

/// After stack allocation no variable operand is left, nor after legalization.
pub proof fn lemma_pseudo_free_after_allocation(ir: Seq<IrInstr>)
    ensures
        pseudo_free(replace_all(select(ir), stack_names(select(ir)))),
        pseudo_free(allocated(select(ir), stack_names(select(ir)))),
{
    let code = select(ir);
    let ns = stack_names(code);
    lemma_names_cover(code);
    lemma_pseudo_eliminated(code, ns);
    lemma_legalize_pseudo_free(replace_all(code, ns));
    let l = legalize(replace_all(code, ns));
    let a = allocated(code, ns);
    assert forall|k: int| 0 <= k < a.len() implies !crate::assembly::has_pseudo(#[trigger] a[k]) by {
        if k > 0 {
            assert(a[k] == l[k - 1]);
        }
    }
}

/// Compiled instructions obey the target's operand rules, and every one has text.
pub proof fn lemma_compiled_emittable(ir: Seq<IrInstr>)
    ensures
        all_legal(legalize(replace_all(select(ir), stack_names(select(ir))))),
        all_emittable(allocated(select(ir), stack_names(select(ir)))),
{
    let code = select(ir);
    let ns = stack_names(code);
    lemma_select_no_div(ir);
    let r = replace_all(code, ns);
    assert forall|k: int| 0 <= k < r.len() implies !is_div_binary(#[trigger] r[k]) by {
        assert(r[k] == replace_instr(code[k], ns));
        assert(!is_div_binary(code[k]));
    }
    lemma_legalized(r);
    lemma_pseudo_free_after_allocation(ir);
    let l = legalize(r);
    let a = allocated(code, ns);
    assert forall|k: int| 0 <= k < a.len() implies emittable(#[trigger] a[k]) by {
        if k > 0 {
            assert(a[k] == l[k - 1]);
            assert(legal(l[k - 1]));
        }
    }
}

/// Compilation is a function of the syntax tree: compiling one tree twice, each time
/// with fresh counters, gives the same three-address code and the same text.
pub proof fn lemma_deterministic(p: ast::Program, q: ast::Program, platform: Platform)
    requires
        p == q,
    ensures
        lower_function(p.0) == lower_function(q.0),
        compile_code(p.0) == compile_code(q.0),
        compile_text(p, platform) == compile_text(q, platform),
{
}

/// Stack slots: the variables of a function, in the order of their first use, get
/// distinct names and strictly increasing slots that do not overlap, each
/// `SLOT_WIDTH` bytes wide; every variable operand has one; and the frame that the
/// compiled function allocates is the sum of their widths.
pub proof fn lemma_stack_slots(f: ast::Function)
    ensures
        ({
            let code = select(lower_function(f));
            let ns = stack_names(code);
            &&& ns.no_duplicates()
            &&& names_covered(code, ns)
            &&& forall|i: int, j: int|
                0 <= i < j < ns.len() ==> slot_offset(i) + SLOT_WIDTH <= slot_offset(j)
            &&& forall|i: int| 0 <= i < ns.len() ==> slot_offset(i) - SLOT_WIDTH >= 0
            &&& compile_code(f)[0] == AsmInstr::AllocateStack((SLOT_WIDTH * ns.len()) as i64)
        }),
{
    let code = select(lower_function(f));
    lemma_note_instrs_extends(seq![], code);
    lemma_names_cover(code);
}

} // verus!
