//! A step-by-step driver of code generation: selection, then stack allocation of
//! variables, then the frame, each available on its own.
use vstd::prelude::*;

use crate::assembly::{
    all_selectable, asm_view, select, slot_names, slots_wf, stack_names, AsmInstr, Assembly,
    Function, Instruction, Program, SLOT_WIDTH,
};
use crate::assembly_passes::{replace_all, AllocateStack, ReplacePseudoRegisters};
use crate::ast::Identifier;
use crate::tac::{self, ir_view};

verus! {

#[derive(Debug)]
pub struct AssemblyParser {
    pub source: tac::Program,
    pub program: Option<Program>,
    pub pseudo_registers: Vec<(Identifier, i64)>,
    pub offset: i64,
}

impl AssemblyParser {
    /// The variables with slots, in order.
    pub open spec fn names(&self) -> Seq<Seq<char>> {
        slot_names(self.pseudo_registers@)
    }

    pub open spec fn map_wf(&self) -> bool {
        &&& slots_wf(self.pseudo_registers@)
        &&& self.names().no_duplicates()
        &&& self.offset == SLOT_WIDTH * self.pseudo_registers@.len()
    }

    pub fn new(tac_program: tac::Program) -> (r: AssemblyParser)
        ensures
            r.source == tac_program,
            r.program is None,
            r.names() == Seq::<Seq<char>>::empty(),
            r.map_wf(),
    {
        let r = AssemblyParser {
            source: tac_program,
            program: None,
            pseudo_registers: Vec::new(),
            offset: 0,
        };
        assert(r.names() =~= Seq::<Seq<char>>::empty());
        r
    }

    /// Selects instructions for the source program, giving each variable a slot.
    pub fn convert_program(&mut self) -> (r: Program)
        requires
            old(self).map_wf(),
            old(self).names() == Seq::<Seq<char>>::empty(),
            all_selectable(ir_view(old(self).source.0.body@)),
            SLOT_WIDTH * stack_names(select(ir_view(old(self).source.0.body@))).len() <= i64::MAX,
        ensures
            final(self).source == old(self).source,
            r.0.name@ == old(self).source.0.identifier@,
            asm_view(r.0.instructions@) == select(ir_view(old(self).source.0.body@)),
            final(self).program is Some,
            asm_view(final(self).program.unwrap().0.instructions@) == asm_view(r.0.instructions@),
            final(self).program.unwrap().0.name@ == r.0.name@,
            final(self).names() == stack_names(select(ir_view(old(self).source.0.body@))),
            final(self).map_wf(),
    {
        let mut assembly = Assembly::new(
            tac::Program(tac::Function { identifier: Identifier(String::new()), body: Vec::new() }),
        );
        core::mem::swap(&mut assembly.source, &mut self.source);
        let r = assembly.parse_program();
        core::mem::swap(&mut assembly.source, &mut self.source);
        core::mem::swap(&mut assembly.pseudo_registers, &mut self.pseudo_registers);
        self.offset = assembly.offset;
        self.program = assembly.program;
        r
    }

    /// The program with every variable operand replaced by its slot; none before selection.
    pub fn replace_pseudo_registers(self) -> (r: Option<Program>)
        requires
            self.map_wf(),
        ensures
            r is Some <==> self.program is Some,
            r is Some ==> r.unwrap().0.name@ == self.program.unwrap().0.name@ && asm_view(
                r.unwrap().0.instructions@,
            ) == replace_all(asm_view(self.program.unwrap().0.instructions@), self.names()),
    {
        let AssemblyParser { source: _, program, pseudo_registers, offset: _ } = self;
        match program {
            Some(p) => {
                let Program(Function { name, mut instructions }) = p;
                ReplacePseudoRegisters.rewrite(&mut instructions, &pseudo_registers);
                Some(Program(Function { name, instructions }))
            },
            None => None,
        }
    }

    /// Replaces every variable operand of the program by its slot, in place.
    pub fn replace_pseudo_reg(&mut self)
        requires
            old(self).map_wf(),
        ensures
            final(self).program is Some <==> old(self).program is Some,
            final(self).program is Some ==> final(self).program.unwrap().0.name@ == old(
                self,
            ).program.unwrap().0.name@ && asm_view(final(self).program.unwrap().0.instructions@)
                == replace_all(asm_view(old(self).program.unwrap().0.instructions@), old(self).names()),
            final(self).source == old(self).source,
            final(self).pseudo_registers@ == old(self).pseudo_registers@,
            final(self).offset == old(self).offset,
    {
        let mut program = None;
        core::mem::swap(&mut program, &mut self.program);
        if let Some(mut p) = program {
            ReplacePseudoRegisters.rewrite(&mut p.0.instructions, &self.pseudo_registers);
            self.program = Some(p);
        }
    }

    /// The program with the frame allocation in front; none before selection.
    pub fn allocate_stack(&mut self) -> (r: Option<Program>)
        ensures
            r is Some <==> old(self).program is Some,
            r is Some ==> r.unwrap().0.name@ == old(self).program.unwrap().0.name@ && asm_view(
                r.unwrap().0.instructions@,
            ) == seq![AsmInstr::AllocateStack(old(self).offset)] + asm_view(
                old(self).program.unwrap().0.instructions@,
            ),
            final(self).program is Some <==> old(self).program is Some,
            final(self).program is Some ==> asm_view(final(self).program.unwrap().0.instructions@)
                == asm_view(old(self).program.unwrap().0.instructions@),
            final(self).offset == old(self).offset,
    {
        match &self.program {
            Some(p) => {
                let mut f = p.0.duplicate();
                AllocateStack.rewrite(&mut f.instructions, self.offset);
                Some(Program(f))
            },
            None => None,
        }
    }
}

} // verus!
