//! Three-address code: the intermediate representation, and its generator, which
//! lowers a resolved syntax tree into one flat sequence of instructions.
use vstd::prelude::*;
use vstd::string::*;

use crate::ast::{
    self, exp_wf, item_wf, items_wf, stmt_wf, var_decl_wf, BinaryOperator, BlockItem,
    Declaration, Expression, ForInit, Identifier, Statement, UnaryOperator,
    VariableDeclaration,
};
use crate::assembly::{
    all_selectable, lemma_selectable_concat, lemma_selectable_empty, lemma_selectable_push,
};
use crate::decimal::{dec, push_decimal};

verus! {

/// A value: an integer constant or a named variable.
#[derive(Debug, Clone, PartialEq, Eq)]
pub enum Val {
    Constant(i64),
    Var(Identifier),
}

/// The mathematical form of a value, with names as character sequences.
pub enum IrVal {
    Constant(i64),
    Var(Seq<char>),
}

impl View for Val {
    type V = IrVal;

    open spec fn view(&self) -> IrVal {
        match self {
            Val::Constant(i) => IrVal::Constant(*i),
            Val::Var(id) => IrVal::Var(id@),
        }
    }
}

impl Val {
    /// A fresh copy of this value.
    pub fn duplicate(&self) -> (r: Val)
        ensures
            r@ == self@,
    {
        match self {
            Val::Constant(i) => Val::Constant(*i),
            Val::Var(id) => Val::Var(id.duplicate()),
        }
    }
}

#[derive(Debug, Clone, PartialEq, Eq)]
pub enum Instruction {
    Return(Val),
    Unary { operator: UnaryOperator, src: Val, dst: Val },
    Binary { binary_operator: BinaryOperator, src_1: Val, src_2: Val, dst: Val },
    Copy { src: Val, dst: Val },
    Jump { target: Identifier },
    JumpIfZero { condition: Val, target: Identifier },
    JumpIfNotZero { condition: Val, target: Identifier },
    Label(Identifier),
}

/// The mathematical form of an instruction.
pub enum IrInstr {
    Return(IrVal),
    Unary(UnaryOperator, IrVal, IrVal),
    Binary(BinaryOperator, IrVal, IrVal, IrVal),
    Copy(IrVal, IrVal),
    Jump(Seq<char>),
    JumpIfZero(IrVal, Seq<char>),
    JumpIfNotZero(IrVal, Seq<char>),
    Label(Seq<char>),
}

impl View for Instruction {
    type V = IrInstr;

    open spec fn view(&self) -> IrInstr {
        match self {
            Instruction::Return(v) => IrInstr::Return(v@),
            Instruction::Unary { operator, src, dst } => IrInstr::Unary(*operator, src@, dst@),
            Instruction::Binary { binary_operator, src_1, src_2, dst } => IrInstr::Binary(
                *binary_operator,
                src_1@,
                src_2@,
                dst@,
            ),
            Instruction::Copy { src, dst } => IrInstr::Copy(src@, dst@),
            Instruction::Jump { target } => IrInstr::Jump(target@),
            Instruction::JumpIfZero { condition, target } => IrInstr::JumpIfZero(
                condition@,
                target@,
            ),
            Instruction::JumpIfNotZero { condition, target } => IrInstr::JumpIfNotZero(
                condition@,
                target@,
            ),
            Instruction::Label(l) => IrInstr::Label(l@),
        }
    }
}

pub type Instructions = Vec<Instruction>;

/// The mathematical form of a sequence of instructions.
pub open spec fn ir_view(v: Seq<Instruction>) -> Seq<IrInstr> {
    v.map_values(|i: Instruction| i@)
}

/// A function of three-address code: its name and its flat body.
#[derive(Debug, Clone)]
pub struct Function {
    pub identifier: Identifier,
    pub body: Instructions,
}

/// A program of three-address code: one function.
#[derive(Debug, Clone)]
pub struct Program(pub Function);

/// The two counters that name temporaries and labels.
pub struct Counters {
    pub temps: nat,
    pub labels: nat,
}

pub open spec fn counters_le(a: Counters, b: Counters) -> bool {
    a.temps <= b.temps && a.labels <= b.labels
}

/// Both counters fit in the generator's 64-bit fields.
pub open spec fn fits(c: Counters) -> bool {
    c.temps <= u64::MAX && c.labels <= u64::MAX
}

pub open spec fn tmp_name(n: nat) -> Seq<char> {
    "tmp."@ + dec(n)
}

/// The jump that leaves the evaluation of `&&` (on zero) or `||` (on non-zero) early.
pub open spec fn short_circuit_jump(op: BinaryOperator, v: IrVal, target: Seq<char>) -> IrInstr {
    if op is And {
        IrInstr::JumpIfZero(v, target)
    } else {
        IrInstr::JumpIfNotZero(v, target)
    }
}

/// The label that a short-circuit jump of `&&` or `||` numbered `n` leads to.
pub open spec fn short_circuit_label(op: BinaryOperator, n: nat) -> Seq<char> {
    if op is And {
        "and_false."@ + dec(n)
    } else {
        "or_false."@ + dec(n)
    }
}

/// The label that `make_label` draws for `prefix` and number `n`: the early exits of
/// `&&` and `||` (prefixes `and`, `or`) are `and_false.<n>` and `or_false.<n>`; any
/// other prefix is followed by the number directly.
pub open spec fn label_text(prefix: Seq<char>, n: nat) -> Seq<char> {
    if prefix == "and"@ {
        "and_false."@ + dec(n)
    } else if prefix == "or"@ {
        "or_false."@ + dec(n)
    } else {
        prefix + dec(n)
    }
}

/// The prefixes that lowering hands to `make_label` draw the labels they name.
pub proof fn lemma_label_prefixes(n: nat)
    ensures
        label_text("and"@, n) == short_circuit_label(BinaryOperator::And, n),
        label_text("or"@, n) == short_circuit_label(BinaryOperator::Or, n),
        label_text("exp2"@, n) == "exp2"@ + dec(n),
        label_text("end"@, n) == "end"@ + dec(n),
        label_text("result"@, n) == "result"@ + dec(n),
        label_text("else"@, n) == "else"@ + dec(n),
{
    reveal_strlit("and");
    reveal_strlit("or");
    reveal_strlit("exp2");
    reveal_strlit("end");
    reveal_strlit("result");
    reveal_strlit("else");
    assert("or"@ != "and"@) by {
        assert("or"@[0] != "and"@[0]);
    }
    assert("exp2"@ != "and"@ && "exp2"@ != "or"@) by {
        assert("exp2"@[0] != "and"@[0]);
        assert("exp2"@[0] != "or"@[0]);
    }
    assert("end"@ != "and"@ && "end"@ != "or"@) by {
        assert("end"@[0] != "and"@[0]);
        assert("end"@[0] != "or"@[0]);
    }
    assert("result"@ != "and"@ && "result"@ != "or"@) by {
        assert("result"@[0] != "and"@[0]);
        assert("result"@[0] != "or"@[0]);
    }
    assert("else"@ != "and"@ && "else"@ != "or"@) by {
        assert("else"@[0] != "and"@[0]);
        assert("else"@[0] != "or"@[0]);
    }
}

/// The value of `&&` when no early jump was taken is 1; that of `||` is 0.
pub open spec fn fallthrough_value(op: BinaryOperator) -> i64 {
    if op is And {
        1
    } else {
        0
    }
}

/// The value of `&&` after an early jump is 0; that of `||` is 1.
pub open spec fn taken_value(op: BinaryOperator) -> i64 {
    if op is And {
        0
    } else {
        1
    }
}

/// Lowers an expression with the counters `c`: the instructions that compute it,
/// the value that holds its result, and the counters afterwards.
pub open spec fn lower_exp(e: Expression, c: Counters) -> (Seq<IrInstr>, IrVal, Counters)
    decreases e,
{
    match e {
        Expression::Constant(i) => (seq![], IrVal::Constant(i), c),
        Expression::Var(id) => (seq![], IrVal::Var(id@), c),
        Expression::Unary(op, inner) => {
            let (code, v, c1) = lower_exp(*inner, c);
            let dst = IrVal::Var(tmp_name(c1.temps + 1));
            (
                code.push(IrInstr::Unary(op, v, dst)),
                dst,
                Counters { temps: c1.temps + 1, labels: c1.labels },
            )
        },
        Expression::Binary(op, a, b) => {
            if op.is_logical() {
                let (ca, va, c1) = lower_exp(*a, c);
                let n = c1.labels + 1;
                let short = short_circuit_label(op, n);
                let end = "end."@ + dec(n);
                let result = IrVal::Var("result."@ + dec(n));
                let (cb, vb, c2) = lower_exp(*b, Counters { temps: c1.temps, labels: n });
                (
                    ca + seq![short_circuit_jump(op, va, short)] + cb + seq![
                        short_circuit_jump(op, vb, short),
                        IrInstr::Copy(IrVal::Constant(fallthrough_value(op)), result),
                        IrInstr::Jump(end),
                        IrInstr::Label(short),
                        IrInstr::Copy(IrVal::Constant(taken_value(op)), result),
                        IrInstr::Label(end),
                    ],
                    result,
                    c2,
                )
            } else {
                let (ca, va, c1) = lower_exp(*a, c);
                let (cb, vb, c2) = lower_exp(*b, c1);
                let dst = IrVal::Var(tmp_name(c2.temps + 1));
                (
                    (ca + cb).push(IrInstr::Binary(op, va, vb, dst)),
                    dst,
                    Counters { temps: c2.temps + 1, labels: c2.labels },
                )
            }
        },
        Expression::Assignment(lhs, rhs) => {
            let (cr, vr, c1) = lower_exp(*rhs, c);
            let (cl, vl, c2) = lower_exp(*lhs, c1);
            ((cr + cl).push(IrInstr::Copy(vr, vl)), vl, c2)
        },
        Expression::Conditional { condition, exp1, exp2 } => {
            let (cc, vc, c1) = lower_exp(*condition, c);
            let e2_label = "exp2"@ + dec(c1.labels + 1);
            let end = "end"@ + dec(c1.labels + 2);
            let result = IrVal::Var("result"@ + dec(c1.labels + 3));
            let (code1, v1, c2) = lower_exp(
                *exp1,
                Counters { temps: c1.temps, labels: c1.labels + 3 },
            );
            let (code2, v2, c3) = lower_exp(*exp2, c2);
            (
                cc + seq![IrInstr::JumpIfZero(vc, e2_label)] + code1 + seq![
                    IrInstr::Copy(v1, result),
                    IrInstr::Jump(end),
                    IrInstr::Label(e2_label),
                ] + code2 + seq![IrInstr::Copy(v2, result), IrInstr::Label(end)],
                result,
                c3,
            )
        },
    }
}

/// Lowers an optional expression for its effect.
pub open spec fn lower_opt(e: Option<Expression>, c: Counters) -> (Seq<IrInstr>, Counters) {
    match e {
        Some(x) => {
            let (code, _v, c1) = lower_exp(x, c);
            (code, c1)
        },
        None => (seq![], c),
    }
}

/// Lowers a variable declaration: an initializer becomes a copy into the variable.
pub open spec fn lower_decl(d: VariableDeclaration, c: Counters) -> (Seq<IrInstr>, Counters) {
    match d.initializer {
        Some(x) => {
            let (code, v, c1) = lower_exp(x, c);
            (code.push(IrInstr::Copy(v, IrVal::Var(d.name@))), c1)
        },
        None => (seq![], c),
    }
}

pub open spec fn lower_for_init(init: ForInit, c: Counters) -> (Seq<IrInstr>, Counters) {
    match init {
        ForInit::InitDecl(d) => lower_decl(d, c),
        ForInit::InitExp(e) => lower_opt(e, c),
    }
}

/// Lowers the condition of a `for` loop: leave the loop once it is zero.
pub open spec fn lower_for_condition(condition: Option<Expression>, id: Seq<char>, c: Counters) -> (
    Seq<IrInstr>,
    Counters,
) {
    match condition {
        Some(x) => {
            let (code, v, c1) = lower_exp(x, c);
            (code.push(IrInstr::JumpIfZero(v, break_label(id))), c1)
        },
        None => (seq![], c),
    }
}

/// The identifier of a loop, as lowering uses it.
pub open spec fn loop_id(id: Option<Identifier>) -> Seq<char> {
    match id {
        Some(i) => i@,
        None => seq![],
    }
}

pub open spec fn break_label(id: Seq<char>) -> Seq<char> {
    "break_"@ + id
}

pub open spec fn continue_label(id: Seq<char>) -> Seq<char> {
    "continue_"@ + id
}

pub open spec fn start_label(id: Seq<char>) -> Seq<char> {
    "start_"@ + id
}

/// Lowers a statement with the counters `c`: its instructions and the counters afterwards.
pub open spec fn lower_stmt(s: Statement, c: Counters) -> (Seq<IrInstr>, Counters)
    decreases s,
{
    match s {
        Statement::Return(e) => {
            let (code, v, c1) = lower_exp(e, c);
            (code.push(IrInstr::Return(v)), c1)
        },
        Statement::Expression(e) => {
            let (code, _v, c1) = lower_exp(e, c);
            (code, c1)
        },
        Statement::If { condition, then, else_statement } => {
            let (cc, vc, c1) = lower_exp(condition, c);
            let end = "end"@ + dec(c1.labels + 1);
            match else_statement {
                None => {
                    let (ct, c2) = lower_stmt(
                        *then,
                        Counters { temps: c1.temps, labels: c1.labels + 1 },
                    );
                    (cc + seq![IrInstr::JumpIfZero(vc, end)] + ct + seq![IrInstr::Label(end)], c2)
                },
                Some(other) => {
                    let else_label = "else"@ + dec(c1.labels + 2);
                    let (ct, c2) = lower_stmt(
                        *then,
                        Counters { temps: c1.temps, labels: c1.labels + 2 },
                    );
                    let (ce, c3) = lower_stmt(*other, c2);
                    (
                        cc + seq![IrInstr::JumpIfZero(vc, else_label)] + ct + seq![
                            IrInstr::Jump(end),
                            IrInstr::Label(else_label),
                        ] + ce + seq![IrInstr::Label(end)],
                        c3,
                    )
                },
            }
        },
        Statement::Null => (seq![], c),
        Statement::Compound(block) => lower_items(block.0@, c),
        Statement::Break { label } => (seq![IrInstr::Jump(break_label(loop_id(label)))], c),
        Statement::Continue { label } => (seq![IrInstr::Jump(continue_label(loop_id(label)))], c),
        Statement::While { condition, body, identifier } => {
            let id = loop_id(identifier);
            let (cc, vc, c1) = lower_exp(condition, c);
            let (cb, c2) = lower_stmt(*body, c1);
            (
                seq![IrInstr::Label(continue_label(id))] + cc + seq![
                    IrInstr::JumpIfZero(vc, break_label(id)),
                ] + cb + seq![
                    IrInstr::Jump(continue_label(id)),
                    IrInstr::Label(break_label(id)),
                ],
                c2,
            )
        },
        Statement::DoWhile { body, condition, identifier } => {
            let id = loop_id(identifier);
            let (cb, c1) = lower_stmt(*body, c);
            let (cc, vc, c2) = lower_exp(condition, c1);
            (
                seq![IrInstr::Label(start_label(id))] + cb + seq![
                    IrInstr::Label(continue_label(id)),
                ] + cc + seq![
                    IrInstr::JumpIfNotZero(vc, start_label(id)),
                    IrInstr::Label(break_label(id)),
                ],
                c2,
            )
        },
        Statement::For { initializer, condition, post, body, identifier } => {
            let id = loop_id(identifier);
            let (ci, c1) = lower_for_init(initializer, c);
            let (cc, c2) = lower_for_condition(condition, id, c1);
            let (cb, c3) = lower_stmt(*body, c2);
            let (cp, c4) = lower_opt(post, c3);
            (
                ci + seq![IrInstr::Label(start_label(id))] + cc + cb + seq![
                    IrInstr::Label(continue_label(id)),
                ] + cp + seq![IrInstr::Jump(start_label(id)), IrInstr::Label(break_label(id))],
                c4,
            )
        },
    }
}

pub open spec fn lower_item(item: BlockItem, c: Counters) -> (Seq<IrInstr>, Counters)
    decreases item,
{
    match item {
        BlockItem::S(s) => lower_stmt(s, c),
        BlockItem::D(Declaration::VarDecl(d)) => lower_decl(d, c),
        BlockItem::D(Declaration::FuncDecl(_)) => (seq![], c),
    }
}

/// Lowers a sequence of block items in order.
pub open spec fn lower_items(items: Seq<BlockItem>, c: Counters) -> (Seq<IrInstr>, Counters)
    decreases items,
{
    if items.len() == 0 {
        (seq![], c)
    } else {
        let (front, c1) = lower_items(items.subrange(0, items.len() - 1), c);
        let (last, c2) = lower_item(items[items.len() - 1], c1);
        (front + last, c2)
    }
}

/// The body that lowering gives a function, with both counters starting at zero.
pub open spec fn lower_function(f: ast::Function) -> Seq<IrInstr> {
    lower_items(f.body.0@, Counters { temps: 0, labels: 0 }).0
}

/// The counters after lowering a function.
pub open spec fn function_counters(f: ast::Function) -> Counters {
    lower_items(f.body.0@, Counters { temps: 0, labels: 0 }).1
}

/// Lowering an expression never moves a counter back.
pub proof fn lemma_exp_grows(e: Expression, c: Counters)
    ensures
        counters_le(c, lower_exp(e, c).2),
    decreases e,
{
    match e {
        Expression::Constant(_) => {},
        Expression::Var(_) => {},
        Expression::Unary(_, inner) => lemma_exp_grows(*inner, c),
        Expression::Binary(op, a, b) => {
            lemma_exp_grows(*a, c);
            let c1 = lower_exp(*a, c).2;
            if op.is_logical() {
                lemma_exp_grows(*b, Counters { temps: c1.temps, labels: c1.labels + 1 });
            } else {
                lemma_exp_grows(*b, c1);
            }
        },
        Expression::Assignment(lhs, rhs) => {
            lemma_exp_grows(*rhs, c);
            lemma_exp_grows(*lhs, lower_exp(*rhs, c).2);
        },
        Expression::Conditional { condition, exp1, exp2 } => {
            lemma_exp_grows(*condition, c);
            let c1 = lower_exp(*condition, c).2;
            let c1b = Counters { temps: c1.temps, labels: c1.labels + 3 };
            lemma_exp_grows(*exp1, c1b);
            lemma_exp_grows(*exp2, lower_exp(*exp1, c1b).2);
        },
    }
}

pub proof fn lemma_opt_grows(e: Option<Expression>, c: Counters)
    ensures
        counters_le(c, lower_opt(e, c).1),
{
    if let Some(x) = e {
        lemma_exp_grows(x, c);
    }
}

pub proof fn lemma_decl_grows(d: VariableDeclaration, c: Counters)
    ensures
        counters_le(c, lower_decl(d, c).1),
{
    if let Some(x) = d.initializer {
        lemma_exp_grows(x, c);
    }
}

/// Lowering a statement never moves a counter back.
#[verifier::rlimit(60)]
pub proof fn lemma_stmt_grows(s: Statement, c: Counters)
    ensures
        counters_le(c, lower_stmt(s, c).1),
    decreases s,
{
    match s {
        Statement::Return(e) => lemma_exp_grows(e, c),
        Statement::Expression(e) => lemma_exp_grows(e, c),
        Statement::If { condition, then, else_statement } => {
            lemma_exp_grows(condition, c);
            let c1 = lower_exp(condition, c).2;
            match else_statement {
                None => lemma_stmt_grows(*then, Counters { temps: c1.temps, labels: c1.labels + 1 }),
                Some(other) => {
                    let c1b = Counters { temps: c1.temps, labels: c1.labels + 2 };
                    lemma_stmt_grows(*then, c1b);
                    lemma_stmt_grows(*other, lower_stmt(*then, c1b).1);
                },
            }
        },
        Statement::Null => {},
        Statement::Compound(block) => lemma_items_grows(block.0@, c),
        Statement::Break { .. } => {},
        Statement::Continue { .. } => {},
        Statement::While { condition, body, identifier } => {
            lemma_exp_grows(condition, c);
            lemma_stmt_grows(*body, lower_exp(condition, c).2);
        },
        Statement::DoWhile { body, condition, identifier } => {
            lemma_stmt_grows(*body, c);
            lemma_exp_grows(condition, lower_stmt(*body, c).1);
        },
        Statement::For { initializer, condition, post, body, identifier } => {
            let c1 = lower_for_init(initializer, c).1;
            match initializer {
                ForInit::InitDecl(d) => lemma_decl_grows(d, c),
                ForInit::InitExp(e) => lemma_opt_grows(e, c),
            }
            let c2 = match condition {
                Some(x) => {
                    lemma_exp_grows(x, c1);
                    lower_exp(x, c1).2
                },
                None => c1,
            };
            lemma_stmt_grows(*body, c2);
            lemma_opt_grows(post, lower_stmt(*body, c2).1);
        },
    }
}

pub proof fn lemma_item_grows(item: BlockItem, c: Counters)
    ensures
        counters_le(c, lower_item(item, c).1),
    decreases item,
{
    match item {
        BlockItem::S(s) => lemma_stmt_grows(s, c),
        BlockItem::D(Declaration::VarDecl(d)) => lemma_decl_grows(d, c),
        BlockItem::D(Declaration::FuncDecl(_)) => {},
    }
}

pub proof fn lemma_items_grows(items: Seq<BlockItem>, c: Counters)
    ensures
        counters_le(c, lower_items(items, c).1),
    decreases items,
{
    if items.len() > 0 {
        let front = items.subrange(0, items.len() - 1);
        lemma_items_grows(front, c);
        lemma_item_grows(items[items.len() - 1], lower_items(front, c).1);
    }
}

pub proof fn lemma_for_condition_grows(condition: Option<Expression>, id: Seq<char>, c: Counters)
    ensures
        counters_le(c, lower_for_condition(condition, id, c).1),
{
    if let Some(x) = condition {
        lemma_exp_grows(x, c);
    }
}

/// The counters after lowering a prefix of the items are at most those after all of them.
proof fn lemma_items_prefix_grows(items: Seq<BlockItem>, c: Counters, i: int)
    requires
        0 <= i <= items.len(),
    ensures
        counters_le(lower_items(items.subrange(0, i), c).1, lower_items(items, c).1),
    decreases items.len() - i,
{
    if i < items.len() {
        lemma_items_prefix_grows(items, c, i + 1);
        let p = items.subrange(0, i + 1);
        assert(p.subrange(0, p.len() - 1) =~= items.subrange(0, i));
        lemma_item_grows(items[i], lower_items(items.subrange(0, i), c).1);
    } else {
        assert(items.subrange(0, i) =~= items);
    }
}

/// Generates three-address code from a syntax tree. Its counters name temporaries
/// and labels so that no two constructs of one function share a name.
#[derive(Debug)]
pub struct TAC {
    source: ast::Program,
    temp_count: u64,
    label_count: u64,
    instructions: Instructions,
}

impl TAC {
    pub closed spec fn source(&self) -> ast::Program {
        self.source
    }

    pub closed spec fn counters(&self) -> Counters {
        Counters { temps: self.temp_count as nat, labels: self.label_count as nat }
    }

    pub closed spec fn code(&self) -> Seq<IrInstr> {
        ir_view(self.instructions@)
    }

    /// A generator for `source`, with both counters at zero.
    pub fn new(source: ast::Program) -> (r: TAC)
        ensures
            r.source() == source,
    {
        TAC { source, temp_count: 0, label_count: 0, instructions: Vec::new() }
    }

    /// Lowers the source program, starting from fresh counters.
    pub fn to_tac_program(&mut self) -> (r: Program)
        requires
            items_wf(old(self).source().0.body.0@),
            fits(function_counters(old(self).source().0)),
        ensures
            final(self).source() == old(self).source(),
            r.0.identifier@ == old(self).source().0.name@,
            ir_view(r.0.body@) == lower_function(old(self).source().0),
    {
        self.parse_program()
    }

    fn parse_program(&mut self) -> (r: Program)
        requires
            items_wf(old(self).source().0.body.0@),
            fits(function_counters(old(self).source().0)),
        ensures
            final(self).source() == old(self).source(),
            r.0.identifier@ == old(self).source().0.name@,
            ir_view(r.0.body@) == lower_function(old(self).source().0),
    {
        let mut source = ast::Program(
            ast::Function { name: Identifier(String::new()), body: ast::Block(Vec::new()) },
        );
        core::mem::swap(&mut source, &mut self.source);
        self.temp_count = 0;
        self.label_count = 0;
        self.instructions = Vec::new();
        assert(self.code() =~= Seq::<IrInstr>::empty());
        let function = self.parse_function(&source.0);
        core::mem::swap(&mut source, &mut self.source);
        Program(function)
    }

    fn parse_function(&mut self, function: &ast::Function) -> (r: Function)
        requires
            items_wf(function.body.0@),
            fits(function_counters(*function)),
            old(self).counters() == (Counters { temps: 0, labels: 0 }),
            old(self).code() == Seq::<IrInstr>::empty(),
        ensures
            final(self).source() == old(self).source(),
            r.identifier@ == function.name@,
            ir_view(r.body@) == lower_function(*function),
    {
        self.process_items(&function.body.0);
        assert(self.code() =~= lower_function(*function));
        let mut body = Vec::new();
        core::mem::swap(&mut body, &mut self.instructions);
        Function { identifier: function.name.duplicate(), body }
    }

    fn emit(&mut self, instruction: Instruction)
        ensures
            final(self).code() == old(self).code().push(instruction@),
            final(self).counters() == old(self).counters(),
            final(self).source() == old(self).source(),
    {
        self.instructions.push(instruction);
        assert(self.code() =~= old(self).code().push(instruction@));
    }

    fn process_items(&mut self, items: &Vec<BlockItem>)
        requires
            items_wf(items@),
            fits(lower_items(items@, old(self).counters()).1),
        ensures
            final(self).code() == old(self).code() + lower_items(items@, old(self).counters()).0,
            final(self).counters() == lower_items(items@, old(self).counters()).1,
            final(self).source() == old(self).source(),
        decreases items, 1nat,
    {
        let ghost c0 = self.counters();
        let ghost code0 = self.code();
        let mut i: usize = 0;
        assert(items@.subrange(0, 0) =~= Seq::<BlockItem>::empty());
        assert(code0 + seq![] =~= code0);
        while i < items.len()
            invariant
                0 <= i <= items.len(),
                items_wf(items@),
                fits(lower_items(items@, c0).1),
                self.code() == code0 + lower_items(items@.subrange(0, i as int), c0).0,
                self.counters() == lower_items(items@.subrange(0, i as int), c0).1,
                self.source() == old(self).source(),
            decreases items.len() - i,
        {
            let ghost before = self.counters();
            proof {
                lemma_items_prefix_grows(items@, c0, i + 1);
                let p = items@.subrange(0, i + 1);
                assert(p.subrange(0, p.len() - 1) =~= items@.subrange(0, i as int));
                assert(p[p.len() - 1] == items@[i as int]);
            }
            self.process_block(&items[i]);
            proof {
                let p = items@.subrange(0, i + 1);
                assert(p.subrange(0, p.len() - 1) =~= items@.subrange(0, i as int));
                assert(self.code() =~= code0 + lower_items(p, c0).0);
            }
            i += 1;
        }
        assert(items@.subrange(0, items.len() as int) =~= items@);
    }

    fn process_block(&mut self, block: &BlockItem)
        requires
            item_wf(*block),
            fits(lower_item(*block, old(self).counters()).1),
        ensures
            final(self).code() == old(self).code() + lower_item(*block, old(self).counters()).0,
            final(self).counters() == lower_item(*block, old(self).counters()).1,
            final(self).source() == old(self).source(),
        decreases block, 1nat,
    {
        match block {
            BlockItem::S(statement) => self.parse_statement(statement),
            BlockItem::D(declaration) => self.process_declaration(declaration),
        }
    }

    fn process_declaration(&mut self, declaration: &Declaration)
        requires
            item_wf(BlockItem::D(*declaration)),
            fits(lower_item(BlockItem::D(*declaration), old(self).counters()).1),
        ensures
            final(self).code() == old(self).code() + lower_item(
                BlockItem::D(*declaration),
                old(self).counters(),
            ).0,
            final(self).counters() == lower_item(
                BlockItem::D(*declaration),
                old(self).counters(),
            ).1,
            final(self).source() == old(self).source(),
    {
        match declaration {
            Declaration::VarDecl(d) => self.process_variable(d),
            Declaration::FuncDecl(_) => {
                assert(self.code() =~= old(self).code() + seq![]);
            },
        }
    }

    fn process_variable(&mut self, declaration: &VariableDeclaration)
        requires
            var_decl_wf(*declaration),
            fits(lower_decl(*declaration, old(self).counters()).1),
        ensures
            final(self).code() == old(self).code() + lower_decl(
                *declaration,
                old(self).counters(),
            ).0,
            final(self).counters() == lower_decl(*declaration, old(self).counters()).1,
            final(self).source() == old(self).source(),
    {
        match &declaration.initializer {
            Some(x) => {
                let ghost code0 = self.code();
                let v = self.parse_val(x);
                let ghost mid = self.code();
                self.emit(
                    Instruction::Copy { src: v, dst: Val::Var(declaration.name.duplicate()) },
                );
                assert(self.code() =~= old(self).code() + lower_decl(
                    *declaration,
                    old(self).counters(),
                ).0);
            },
            None => {
                assert(self.code() =~= old(self).code() + seq![]);
            },
        }
    }

    fn parse_statement(&mut self, statement: &Statement)
        requires
            stmt_wf(*statement),
            fits(lower_stmt(*statement, old(self).counters()).1),
        ensures
            final(self).code() == old(self).code() + lower_stmt(
                *statement,
                old(self).counters(),
            ).0,
            final(self).counters() == lower_stmt(*statement, old(self).counters()).1,
            final(self).source() == old(self).source(),
        decreases statement, 1nat,
    {
        let ghost c0 = self.counters();
        match statement {
            Statement::Return(e) => {
                let v = self.parse_val(e);
                self.emit(Instruction::Return(v));
                assert(self.code() =~= old(self).code() + lower_stmt(*statement, c0).0);
            },
            Statement::Expression(e) => {
                let _v = self.parse_val(e);
            },
            Statement::Null => {
                assert(self.code() =~= old(self).code() + seq![]);
            },
            Statement::If { condition, then, else_statement } => self.lower_if(statement),
            Statement::Compound(block) => {
                self.process_items(&block.0);
            },
            Statement::Break { label } => {
                self.emit(Instruction::Jump { target: loop_label("break_", label) });
                assert(self.code() =~= old(self).code() + lower_stmt(*statement, c0).0);
            },
            Statement::Continue { label } => {
                self.emit(Instruction::Jump { target: loop_label("continue_", label) });
                assert(self.code() =~= old(self).code() + lower_stmt(*statement, c0).0);
            },
            Statement::While { condition, body, identifier } => self.lower_while(statement),
            Statement::DoWhile { body, condition, identifier } => self.lower_do_while(statement),
            Statement::For { initializer, condition, post, body, identifier } => self.lower_for(statement),
        }
    }

    fn parse_val(&mut self, expression: &Expression) -> (v: Val)
        requires
            exp_wf(*expression),
            fits(lower_exp(*expression, old(self).counters()).2),
        ensures
            final(self).code() == old(self).code() + lower_exp(
                *expression,
                old(self).counters(),
            ).0,
            v@ == lower_exp(*expression, old(self).counters()).1,
            final(self).counters() == lower_exp(*expression, old(self).counters()).2,
            final(self).source() == old(self).source(),
        decreases expression, 1nat,
    {
        let ghost c0 = self.counters();
        match expression {
            Expression::Constant(i) => {
                assert(self.code() =~= old(self).code() + seq![]);
                Val::Constant(*i)
            },
            Expression::Var(id) => {
                assert(self.code() =~= old(self).code() + seq![]);
                Val::Var(id.duplicate())
            },
            Expression::Unary(op, inner) => self.lower_unary(expression),
            Expression::Binary(op, a, b) => self.lower_binary(expression),
            Expression::Assignment(lhs, rhs) => self.lower_assignment(expression),
            Expression::Conditional { condition, exp1, exp2 } => self.lower_conditional(expression),
        }
    }

    fn lower_unary(&mut self, expression: &Expression) -> (v: Val)
        requires
            expression is Unary,
            exp_wf(*expression),
            fits(lower_exp(*expression, old(self).counters()).2),
        ensures
            final(self).code() == old(self).code() + lower_exp(
                *expression,
                old(self).counters(),
            ).0,
            v@ == lower_exp(*expression, old(self).counters()).1,
            final(self).counters() == lower_exp(*expression, old(self).counters()).2,
            final(self).source() == old(self).source(),
        decreases expression, 0nat,
    {
        let ghost c0 = self.counters();
        match expression {
            Expression::Unary(op, inner) => {
                let src = self.parse_val(inner);
                let name = self.make_temporary_name();
                self.emit(
                    Instruction::Unary {
                        operator: *op,
                        src,
                        dst: Val::Var(Identifier(name.clone())),
                    },
                );
                assert(self.code() =~= old(self).code() + lower_exp(*expression, c0).0);
                Val::Var(Identifier(name))
            },
            _ => Val::Constant(0),
        }
    }

    fn lower_binary(&mut self, expression: &Expression) -> (v: Val)
        requires
            expression is Binary,
            exp_wf(*expression),
            fits(lower_exp(*expression, old(self).counters()).2),
        ensures
            final(self).code() == old(self).code() + lower_exp(
                *expression,
                old(self).counters(),
            ).0,
            v@ == lower_exp(*expression, old(self).counters()).1,
            final(self).counters() == lower_exp(*expression, old(self).counters()).2,
            final(self).source() == old(self).source(),
        decreases expression, 0nat,
    {
        let ghost c0 = self.counters();
        match expression {
            Expression::Binary(op, a, b) => {
                if *op == BinaryOperator::And || *op == BinaryOperator::Or {
                    proof {
                        let c1 = lower_exp(**a, c0).2;
                        lemma_exp_grows(**b, Counters { temps: c1.temps, labels: c1.labels + 1 });
                    }
                    let va = self.parse_val(a);
                    let short = self.make_label(
                        if *op == BinaryOperator::And {
                            "and"
                        } else {
                            "or"
                        },
                    );
                    proof {
                        lemma_label_prefixes(self.label_count as nat);
                    }
                    let n = self.label_count;
                    self.emit(Self::short_circuit_jump(*op, va, Identifier(short.clone())));
                    let vb = self.parse_val(b);
                    self.emit(Self::short_circuit_jump(*op, vb, Identifier(short.clone())));
                    let result = numbered("result.", n);
                    let end = numbered("end.", n);
                    let (fall, taken): (i64, i64) = if *op == BinaryOperator::And {
                        (1, 0)
                    } else {
                        (0, 1)
                    };
                    self.emit(
                        Instruction::Copy {
                            src: Val::Constant(fall),
                            dst: Val::Var(Identifier(result.clone())),
                        },
                    );
                    self.emit(Instruction::Jump { target: Identifier(end.clone()) });
                    self.emit(Instruction::Label(Identifier(short)));
                    self.emit(
                        Instruction::Copy {
                            src: Val::Constant(taken),
                            dst: Val::Var(Identifier(result.clone())),
                        },
                    );
                    self.emit(Instruction::Label(Identifier(end)));
                    assert(self.code() =~= old(self).code() + lower_exp(*expression, c0).0);
                    Val::Var(Identifier(result))
                } else {
                    proof {
                        lemma_exp_grows(**b, lower_exp(**a, c0).2);
                    }
                    let v1 = self.parse_val(a);
                    let v2 = self.parse_val(b);
                    let name = self.make_temporary_name();
                    self.emit(
                        Instruction::Binary {
                            binary_operator: *op,
                            src_1: v1,
                            src_2: v2,
                            dst: Val::Var(Identifier(name.clone())),
                        },
                    );
                    assert(self.code() =~= old(self).code() + lower_exp(*expression, c0).0);
                    Val::Var(Identifier(name))
                }
            },
            _ => Val::Constant(0),
        }
    }

    fn lower_assignment(&mut self, expression: &Expression) -> (v: Val)
        requires
            expression is Assignment,
            exp_wf(*expression),
            fits(lower_exp(*expression, old(self).counters()).2),
        ensures
            final(self).code() == old(self).code() + lower_exp(
                *expression,
                old(self).counters(),
            ).0,
            v@ == lower_exp(*expression, old(self).counters()).1,
            final(self).counters() == lower_exp(*expression, old(self).counters()).2,
            final(self).source() == old(self).source(),
        decreases expression, 0nat,
    {
        let ghost c0 = self.counters();
        match expression {
            Expression::Assignment(lhs, rhs) => {
                proof {
                    lemma_exp_grows(**lhs, lower_exp(**rhs, c0).2);
                }
                let result = self.parse_val(rhs);
                let dst = self.parse_val(lhs);
                self.emit(Instruction::Copy { src: result, dst: dst.duplicate() });
                assert(self.code() =~= old(self).code() + lower_exp(*expression, c0).0);
                dst
            },
            _ => Val::Constant(0),
        }
    }

    fn lower_conditional(&mut self, expression: &Expression) -> (v: Val)
        requires
            expression is Conditional,
            exp_wf(*expression),
            fits(lower_exp(*expression, old(self).counters()).2),
        ensures
            final(self).code() == old(self).code() + lower_exp(
                *expression,
                old(self).counters(),
            ).0,
            v@ == lower_exp(*expression, old(self).counters()).1,
            final(self).counters() == lower_exp(*expression, old(self).counters()).2,
            final(self).source() == old(self).source(),
        decreases expression, 0nat,
    {
        let ghost c0 = self.counters();
        match expression {
            Expression::Conditional { condition, exp1, exp2 } => {
                proof {
                    let c1 = lower_exp(**condition, c0).2;
                    let c1b = Counters { temps: c1.temps, labels: c1.labels + 3 };
                    lemma_exp_grows(**exp1, c1b);
                    lemma_exp_grows(**exp2, lower_exp(**exp1, c1b).2);
                }
                let vc = self.parse_val(condition);
                let e2_label = self.make_label("exp2");
                let end = self.make_label("end");
                let result = self.make_label("result");
                proof {
                    lemma_label_prefixes((self.label_count - 2) as nat);
                    lemma_label_prefixes((self.label_count - 1) as nat);
                    lemma_label_prefixes(self.label_count as nat);
                }
                self.emit(
                    Instruction::JumpIfZero { condition: vc, target: Identifier(e2_label.clone()) },
                );
                let v1 = self.parse_val(exp1);
                self.emit(Instruction::Copy { src: v1, dst: Val::Var(Identifier(result.clone())) });
                self.emit(Instruction::Jump { target: Identifier(end.clone()) });
                self.emit(Instruction::Label(Identifier(e2_label)));
                let v2 = self.parse_val(exp2);
                self.emit(Instruction::Copy { src: v2, dst: Val::Var(Identifier(result.clone())) });
                self.emit(Instruction::Label(Identifier(end)));
                assert(self.code() =~= old(self).code() + lower_exp(*expression, c0).0);
                Val::Var(Identifier(result))
            },
            _ => Val::Constant(0),
        }
    }

    #[verifier::rlimit(40)]
    fn lower_if(&mut self, statement: &Statement)
        requires
            statement is If,
            stmt_wf(*statement),
            fits(lower_stmt(*statement, old(self).counters()).1),
        ensures
            final(self).code() == old(self).code() + lower_stmt(
                *statement,
                old(self).counters(),
            ).0,
            final(self).counters() == lower_stmt(*statement, old(self).counters()).1,
            final(self).source() == old(self).source(),
        decreases statement, 0nat,
    {
        let ghost c0 = self.counters();
        match statement {
            Statement::If { condition, then, else_statement } => {
                proof {
                    let c1 = lower_exp(*condition, c0).2;
                    match else_statement {
                        None => lemma_stmt_grows(
                            **then,
                            Counters { temps: c1.temps, labels: c1.labels + 1 },
                        ),
                        Some(other) => {
                            let c1b = Counters { temps: c1.temps, labels: c1.labels + 2 };
                            lemma_stmt_grows(**then, c1b);
                            lemma_stmt_grows(**other, lower_stmt(**then, c1b).1);
                        },
                    }
                }
                let vc = self.parse_val(condition);
                let end = self.make_label("end");
                proof {
                    lemma_label_prefixes(self.label_count as nat);
                }
                match else_statement {
                    Some(other) => {
                        let else_label = self.make_label("else");
                        proof {
                            lemma_label_prefixes(self.label_count as nat);
                        }
                        self.emit(
                            Instruction::JumpIfZero {
                                condition: vc,
                                target: Identifier(else_label.clone()),
                            },
                        );
                        self.parse_statement(then);
                        self.emit(Instruction::Jump { target: Identifier(end.clone()) });
                        self.emit(Instruction::Label(Identifier(else_label)));
                        self.parse_statement(other);
                        self.emit(Instruction::Label(Identifier(end)));
                    },
                    None => {
                        self.emit(
                            Instruction::JumpIfZero { condition: vc, target: Identifier(end.clone()) },
                        );
                        self.parse_statement(then);
                        self.emit(Instruction::Label(Identifier(end)));
                    },
                }
                assert(self.code() =~= old(self).code() + lower_stmt(*statement, c0).0);
            },
            _ => {},
        }
    }

    fn lower_while(&mut self, statement: &Statement)
        requires
            statement is While,
            stmt_wf(*statement),
            fits(lower_stmt(*statement, old(self).counters()).1),
        ensures
            final(self).code() == old(self).code() + lower_stmt(
                *statement,
                old(self).counters(),
            ).0,
            final(self).counters() == lower_stmt(*statement, old(self).counters()).1,
            final(self).source() == old(self).source(),
        decreases statement, 0nat,
    {
        let ghost c0 = self.counters();
        match statement {
            Statement::While { condition, body, identifier } => {
                proof {
                    lemma_stmt_grows(**body, lower_exp(*condition, c0).2);
                }
                let continue_id = loop_label("continue_", identifier);
                let break_id = loop_label("break_", identifier);
                self.emit(Instruction::Label(continue_id.duplicate()));
                let vc = self.parse_val(condition);
                self.emit(Instruction::JumpIfZero { condition: vc, target: break_id.duplicate() });
                self.parse_statement(body);
                self.emit(Instruction::Jump { target: continue_id });
                self.emit(Instruction::Label(break_id));
                assert(self.code() =~= old(self).code() + lower_stmt(*statement, c0).0);
            },
            _ => {},
        }
    }

    fn lower_do_while(&mut self, statement: &Statement)
        requires
            statement is DoWhile,
            stmt_wf(*statement),
            fits(lower_stmt(*statement, old(self).counters()).1),
        ensures
            final(self).code() == old(self).code() + lower_stmt(
                *statement,
                old(self).counters(),
            ).0,
            final(self).counters() == lower_stmt(*statement, old(self).counters()).1,
            final(self).source() == old(self).source(),
        decreases statement, 0nat,
    {
        let ghost c0 = self.counters();
        match statement {
            Statement::DoWhile { body, condition, identifier } => {
                proof {
                    lemma_exp_grows(*condition, lower_stmt(**body, c0).1);
                }
                let start = loop_label("start_", identifier);
                self.emit(Instruction::Label(start.duplicate()));
                self.parse_statement(body);
                self.emit(Instruction::Label(loop_label("continue_", identifier)));
                let vc = self.parse_val(condition);
                self.emit(Instruction::JumpIfNotZero { condition: vc, target: start });
                self.emit(Instruction::Label(loop_label("break_", identifier)));
                assert(self.code() =~= old(self).code() + lower_stmt(*statement, c0).0);
            },
            _ => {},
        }
    }

    #[verifier::rlimit(40)]
    fn lower_for(&mut self, statement: &Statement)
        requires
            statement is For,
            stmt_wf(*statement),
            fits(lower_stmt(*statement, old(self).counters()).1),
        ensures
            final(self).code() == old(self).code() + lower_stmt(
                *statement,
                old(self).counters(),
            ).0,
            final(self).counters() == lower_stmt(*statement, old(self).counters()).1,
            final(self).source() == old(self).source(),
        decreases statement, 0nat,
    {
        let ghost c0 = self.counters();
        match statement {
            Statement::For { initializer, condition, post, body, identifier } => {
                let ghost id = loop_id(*identifier);
                let ghost c1 = lower_for_init(*initializer, c0).1;
                let ghost c2 = lower_for_condition(*condition, id, c1).1;
                let ghost c3 = lower_stmt(**body, c2).1;
                proof {
                    lemma_opt_grows(*post, c3);
                    lemma_stmt_grows(**body, c2);
                    lemma_for_condition_grows(*condition, id, c1);
                }
                let ghost code0 = self.code();
                self.process_for_init(initializer);
                let ghost code1 = self.code();
                let start = loop_label("start_", identifier);
                let break_id = loop_label("break_", identifier);
                self.emit(Instruction::Label(start.duplicate()));
                self.process_for_condition(condition, identifier);
                let ghost code2 = self.code();
                self.parse_statement(body);
                let ghost code3 = self.code();
                self.emit(Instruction::Label(loop_label("continue_", identifier)));
                self.process_optional(post);
                let ghost code4 = self.code();
                self.emit(Instruction::Jump { target: start });
                self.emit(Instruction::Label(break_id));
                assert(code1 == code0 + lower_for_init(*initializer, c0).0);
                assert(code2 == code1.push(IrInstr::Label(start_label(id))) + lower_for_condition(
                    *condition,
                    id,
                    c1,
                ).0);
                assert(code3 == code2 + lower_stmt(**body, c2).0);
                assert(code4 == code3.push(IrInstr::Label(continue_label(id))) + lower_opt(
                    *post,
                    c3,
                ).0);
                assert(lower_stmt(*statement, c0).0 == lower_for_init(*initializer, c0).0
                    + seq![IrInstr::Label(start_label(id))] + lower_for_condition(
                    *condition,
                    id,
                    c1,
                ).0 + lower_stmt(**body, c2).0 + seq![IrInstr::Label(continue_label(id))]
                    + lower_opt(*post, c3).0 + seq![
                    IrInstr::Jump(start_label(id)),
                    IrInstr::Label(break_label(id)),
                ]);
                assert(self.code() =~= old(self).code() + lower_stmt(*statement, c0).0);
            },
            _ => {},
        }
    }

    fn process_for_init(&mut self, init: &ForInit)
        requires
            match *init {
                ForInit::InitDecl(d) => var_decl_wf(d),
                ForInit::InitExp(e) => ast::opt_exp_wf(e),
            },
            fits(lower_for_init(*init, old(self).counters()).1),
        ensures
            final(self).code() == old(self).code() + lower_for_init(*init, old(self).counters()).0,
            final(self).counters() == lower_for_init(*init, old(self).counters()).1,
            final(self).source() == old(self).source(),
    {
        match init {
            ForInit::InitDecl(d) => self.process_variable(d),
            ForInit::InitExp(e) => self.process_optional(e),
        }
    }

    fn process_optional(&mut self, e: &Option<Expression>)
        requires
            ast::opt_exp_wf(*e),
            fits(lower_opt(*e, old(self).counters()).1),
        ensures
            final(self).code() == old(self).code() + lower_opt(*e, old(self).counters()).0,
            final(self).counters() == lower_opt(*e, old(self).counters()).1,
            final(self).source() == old(self).source(),
    {
        match e {
            Some(x) => {
                let _v = self.parse_val(x);
            },
            None => {
                assert(self.code() =~= old(self).code() + seq![]);
            },
        }
    }

    fn process_for_condition(&mut self, condition: &Option<Expression>, identifier: &Option<
        Identifier,
    >)
        requires
            identifier is Some,
            ast::opt_exp_wf(*condition),
            fits(lower_for_condition(*condition, loop_id(*identifier), old(self).counters()).1),
        ensures
            final(self).code() == old(self).code() + lower_for_condition(
                *condition,
                loop_id(*identifier),
                old(self).counters(),
            ).0,
            final(self).counters() == lower_for_condition(
                *condition,
                loop_id(*identifier),
                old(self).counters(),
            ).1,
            final(self).source() == old(self).source(),
    {
        match condition {
            Some(x) => {
                let vc = self.parse_val(x);
                self.emit(
                    Instruction::JumpIfZero {
                        condition: vc,
                        target: loop_label("break_", identifier),
                    },
                );
                assert(self.code() =~= old(self).code() + lower_for_condition(
                    *condition,
                    loop_id(*identifier),
                    old(self).counters(),
                ).0);
            },
            None => {
                assert(self.code() =~= old(self).code() + seq![]);
            },
        }
    }

    fn short_circuit_jump(op: BinaryOperator, condition: Val, target: Identifier) -> (r:
        Instruction)
        ensures
            r@ == short_circuit_jump(op, condition@, target@),
    {
        if op == BinaryOperator::And {
            Instruction::JumpIfZero { condition, target }
        } else {
            Instruction::JumpIfNotZero { condition, target }
        }
    }

    /// Draws the next temporary name, `tmp.<n>`.
    fn make_temporary_name(&mut self) -> (r: String)
        requires
            old(self).temp_count < u64::MAX,
        ensures
            final(self).temp_count == old(self).temp_count + 1,
            final(self).label_count == old(self).label_count,
            final(self).code() == old(self).code(),
            final(self).source() == old(self).source(),
            r@ == tmp_name(final(self).temp_count as nat),
    {
        self.temp_count = self.temp_count + 1;
        numbered("tmp.", self.temp_count)
    }

    /// Draws the next label number and names a label with it: `and` and `or` give the
    /// early exits `and_false.<n>` and `or_false.<n>`, any other prefix `<prefix><n>`.
    fn make_label(&mut self, prefix: &str) -> (r: String)
        requires
            old(self).label_count < u64::MAX,
        ensures
            final(self).label_count == old(self).label_count + 1,
            final(self).temp_count == old(self).temp_count,
            final(self).code() == old(self).code(),
            final(self).source() == old(self).source(),
            r@ == label_text(prefix@, final(self).label_count as nat),
    {
        self.label_count = self.label_count + 1;
        let p = String::from_str(prefix);
        if p == String::from_str("and") {
            numbered("and_false.", self.label_count)
        } else if p == String::from_str("or") {
            numbered("or_false.", self.label_count)
        } else {
            numbered(prefix, self.label_count)
        }
    }
}

/// `prefix` followed by the decimal notation of `n`.
fn numbered(prefix: &str, n: u64) -> (r: String)
    ensures
        r@ == prefix@ + dec(n as nat),
{
    let mut s = String::from_str(prefix);
    push_decimal(&mut s, n);
    s
}

/// The label `prefix` followed by a loop's identifier.
fn loop_label(prefix: &str, id: &Option<Identifier>) -> (r: Identifier)
    requires
        id is Some,
    ensures
        r@ == prefix@ + loop_id(*id),
{
    let mut s = String::from_str(prefix);
    match id {
        Some(i) => s.append(i.0.as_str()),
        None => {},
    }
    Identifier(s)
}

/// Lowering produces no binary `&&` or `||`: both become jumps.
pub proof fn lemma_exp_selectable(e: Expression, c: Counters)
    ensures
        all_selectable(lower_exp(e, c).0),
    decreases e,
{
    broadcast use lemma_selectable_concat, lemma_selectable_push, lemma_selectable_empty;

    match e {
        Expression::Constant(_) => {},
        Expression::Var(_) => {},
        Expression::Unary(_, inner) => lemma_exp_selectable(*inner, c),
        Expression::Binary(op, a, b) => {
            lemma_exp_selectable(*a, c);
            let c1 = lower_exp(*a, c).2;
            if op.is_logical() {
                lemma_exp_selectable(*b, Counters { temps: c1.temps, labels: c1.labels + 1 });
            } else {
                lemma_exp_selectable(*b, c1);
            }
        },
        Expression::Assignment(lhs, rhs) => {
            lemma_exp_selectable(*rhs, c);
            lemma_exp_selectable(*lhs, lower_exp(*rhs, c).2);
        },
        Expression::Conditional { condition, exp1, exp2 } => {
            lemma_exp_selectable(*condition, c);
            let c1 = lower_exp(*condition, c).2;
            let c1b = Counters { temps: c1.temps, labels: c1.labels + 3 };
            lemma_exp_selectable(*exp1, c1b);
            lemma_exp_selectable(*exp2, lower_exp(*exp1, c1b).2);
        },
    }
}

proof fn lemma_opt_selectable(e: Option<Expression>, c: Counters)
    ensures
        all_selectable(lower_opt(e, c).0),
{
    broadcast use lemma_selectable_empty;

    if let Some(x) = e {
        lemma_exp_selectable(x, c);
    }
}

proof fn lemma_decl_selectable(d: VariableDeclaration, c: Counters)
    ensures
        all_selectable(lower_decl(d, c).0),
{
    broadcast use lemma_selectable_push, lemma_selectable_empty;

    if let Some(x) = d.initializer {
        lemma_exp_selectable(x, c);
    }
}

#[verifier::rlimit(80)]
pub proof fn lemma_stmt_selectable(s: Statement, c: Counters)
    ensures
        all_selectable(lower_stmt(s, c).0),
    decreases s,
{
    broadcast use lemma_selectable_concat, lemma_selectable_push, lemma_selectable_empty;

    match s {
        Statement::Return(e) => lemma_exp_selectable(e, c),
        Statement::Expression(e) => lemma_exp_selectable(e, c),
        Statement::If { condition, then, else_statement } => {
            lemma_exp_selectable(condition, c);
            let c1 = lower_exp(condition, c).2;
            match else_statement {
                None => lemma_stmt_selectable(
                    *then,
                    Counters { temps: c1.temps, labels: c1.labels + 1 },
                ),
                Some(other) => {
                    let c1b = Counters { temps: c1.temps, labels: c1.labels + 2 };
                    lemma_stmt_selectable(*then, c1b);
                    lemma_stmt_selectable(*other, lower_stmt(*then, c1b).1);
                },
            }
        },
        Statement::Null => {},
        Statement::Compound(block) => lemma_items_selectable(block.0@, c),
        Statement::Break { .. } => {},
        Statement::Continue { .. } => {},
        Statement::While { condition, body, identifier } => {
            lemma_exp_selectable(condition, c);
            lemma_stmt_selectable(*body, lower_exp(condition, c).2);
        },
        Statement::DoWhile { body, condition, identifier } => {
            lemma_stmt_selectable(*body, c);
            lemma_exp_selectable(condition, lower_stmt(*body, c).1);
        },
        Statement::For { initializer, condition, post, body, identifier } => {
            let c1 = lower_for_init(initializer, c).1;
            match initializer {
                ForInit::InitDecl(d) => lemma_decl_selectable(d, c),
                ForInit::InitExp(e) => lemma_opt_selectable(e, c),
            }
            if let Some(x) = condition {
                lemma_exp_selectable(x, c1);
            }
            let c2 = lower_for_condition(condition, loop_id(identifier), c1).1;
            lemma_stmt_selectable(*body, c2);
            lemma_opt_selectable(post, lower_stmt(*body, c2).1);
        },
    }
}

pub proof fn lemma_item_selectable(item: BlockItem, c: Counters)
    ensures
        all_selectable(lower_item(item, c).0),
    decreases item,
{
    broadcast use lemma_selectable_empty;

    match item {
        BlockItem::S(s) => lemma_stmt_selectable(s, c),
        BlockItem::D(Declaration::VarDecl(d)) => lemma_decl_selectable(d, c),
        BlockItem::D(Declaration::FuncDecl(_)) => {},
    }
}

pub proof fn lemma_items_selectable(items: Seq<BlockItem>, c: Counters)
    ensures
        all_selectable(lower_items(items, c).0),
    decreases items,
{
    broadcast use lemma_selectable_concat, lemma_selectable_empty;

    if items.len() > 0 {
        let front = items.subrange(0, items.len() - 1);
        lemma_items_selectable(front, c);
        lemma_item_selectable(items[items.len() - 1], lower_items(front, c).1);
    }
}

/// The code of a lowered function can always go to instruction selection.
pub proof fn lemma_function_selectable(f: ast::Function)
    ensures
        all_selectable(lower_function(f)),
{
    lemma_items_selectable(f.body.0@, Counters { temps: 0, labels: 0 });
}

/// Short-circuit evaluation: lowering `a && b` (or `a || b`) first computes `a`, then
/// jumps on its value to the early-exit label before any instruction computed from
/// `b`; that label is followed by the copy of the early result (0 for `&&`, 1 for
/// `||`) into the result and by the end label. So when `a` lowers to the constant 0
/// (`&&`) or to a non-zero constant (`||`), control reaches the early result without
/// running `b`'s instructions.
pub proof fn lemma_short_circuit(op: BinaryOperator, a: Expression, b: Expression, c: Counters)
    requires
        op.is_logical(),
    ensures
        ({
            let (code, v, _c2) = lower_exp(Expression::Binary(op, Box::new(a), Box::new(b)), c);
            let (ca, va, c1) = lower_exp(a, c);
            let n = c1.labels + 1;
            let cb = lower_exp(b, Counters { temps: c1.temps, labels: n }).0;
            let early = short_circuit_label(op, n);
            &&& code.subrange(0, ca.len() as int) == ca
            &&& code[ca.len() as int] == short_circuit_jump(op, va, early)
            &&& code.subrange((ca.len() + 1) as int, (ca.len() + 1 + cb.len()) as int) == cb
            &&& code.len() == ca.len() + cb.len() + 7
            &&& code[code.len() - 3] == IrInstr::Label(early)
            &&& code[code.len() - 2] == IrInstr::Copy(IrVal::Constant(taken_value(op)), v)
            &&& code[code.len() - 1] == IrInstr::Label("end."@ + dec(n))
            &&& v == IrVal::Var("result."@ + dec(n))
            &&& (op is And ==> taken_value(op) == 0 && short_circuit_jump(
                op,
                IrVal::Constant(0),
                early,
            ) == IrInstr::JumpIfZero(IrVal::Constant(0), early))
            &&& (op is Or ==> taken_value(op) == 1 && short_circuit_jump(
                op,
                IrVal::Constant(1),
                early,
            ) == IrInstr::JumpIfNotZero(IrVal::Constant(1), early))
        }),
{
    let e = Expression::Binary(op, Box::new(a), Box::new(b));
    let (code, v, _c2) = lower_exp(e, c);
    let (ca, va, c1) = lower_exp(a, c);
    let n = c1.labels + 1;
    let cb = lower_exp(b, Counters { temps: c1.temps, labels: n }).0;
    assert(code.subrange(0, ca.len() as int) =~= ca);
    assert(code.subrange((ca.len() + 1) as int, (ca.len() + 1 + cb.len()) as int) =~= cb);
}

} // verus!
