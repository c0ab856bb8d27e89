//! The resolved syntax tree that the code generator consumes.
use vstd::prelude::*;

verus! {

/// A name: a variable, a function, or a loop identifier.
#[derive(Debug, Clone, PartialEq, Eq, Hash)]
pub struct Identifier(pub String);

impl View for Identifier {
    type V = Seq<char>;

    open spec fn view(&self) -> Seq<char> {
        self.0@
    }
}

impl Identifier {
    /// A fresh copy of this identifier.
    pub fn duplicate(&self) -> (r: Identifier)
        ensures
            r@ == self@,
    {
        Identifier(self.0.clone())
    }
}

#[derive(Debug, Clone, Copy, PartialEq, Eq, Hash, Structural)]
pub enum BinaryOperator {
    Add,
    Subtract,
    Multiply,
    Divide,
    Remainder,
    And,
    Or,
    Equal,
    NotEqual,
    LessThan,
    LessOrEqual,
    GreaterThan,
    GreaterOrEqual,
}

impl BinaryOperator {
    /// The six comparison operators.
    pub open spec fn is_relational(self) -> bool {
        match self {
            BinaryOperator::Equal | BinaryOperator::NotEqual | BinaryOperator::LessThan
            | BinaryOperator::LessOrEqual | BinaryOperator::GreaterThan
            | BinaryOperator::GreaterOrEqual => true,
            _ => false,
        }
    }

    /// The two short-circuit operators, which lower to control flow.
    pub open spec fn is_logical(self) -> bool {
        match self {
            BinaryOperator::And | BinaryOperator::Or => true,
            _ => false,
        }
    }
}

#[derive(Debug, Clone, Copy, PartialEq, Eq, Hash, Structural)]
pub enum UnaryOperator {
    Complement,
    Negate,
    Not,
}

#[derive(Debug, PartialEq, Eq)]
pub enum Expression {
    Constant(i64),
    /// A reference to a variable by its resolved name.
    Var(Identifier),
    Unary(UnaryOperator, Box<Expression>),
    Binary(BinaryOperator, Box<Expression>, Box<Expression>),
    /// The lvalue being updated and the expression assigned to it.
    Assignment(Box<Expression>, Box<Expression>),
    Conditional { condition: Box<Expression>, exp1: Box<Expression>, exp2: Box<Expression> },
}

/// A variable declaration: a name and an optional initializer.
#[derive(Debug, PartialEq, Eq)]
pub struct VariableDeclaration {
    pub name: Identifier,
    pub initializer: Option<Expression>,
}

/// A function declaration; only declared, never lowered by the code generator.
#[derive(Debug, PartialEq, Eq)]
pub struct FunctionDeclaration {
    pub name: Identifier,
    pub parameters: Vec<Identifier>,
    pub body: Option<Block>,
}

#[derive(Debug, PartialEq, Eq)]
pub struct Block(pub Vec<BlockItem>);

#[derive(Debug, PartialEq, Eq)]
pub enum BlockItem {
    S(Statement),
    D(Declaration),
}

#[derive(Debug, PartialEq, Eq)]
pub enum Declaration {
    FuncDecl(FunctionDeclaration),
    VarDecl(VariableDeclaration),
}

#[derive(Debug, PartialEq, Eq)]
pub enum ForInit {
    InitDecl(VariableDeclaration),
    InitExp(Option<Expression>),
}

#[derive(Debug, PartialEq, Eq)]
pub enum Statement {
    Return(Expression),
    Expression(Expression),
    If { condition: Expression, then: Box<Statement>, else_statement: Option<Box<Statement>> },
    /// An expression statement without the expression.
    Null,
    Compound(Block),
    /// The label is the identifier of the enclosing loop, set by loop labeling.
    Break { label: Option<Identifier> },
    Continue { label: Option<Identifier> },
    While { condition: Expression, body: Box<Statement>, identifier: Option<Identifier> },
    DoWhile { body: Box<Statement>, condition: Expression, identifier: Option<Identifier> },
    For {
        initializer: ForInit,
        condition: Option<Expression>,
        post: Option<Expression>,
        body: Box<Statement>,
        identifier: Option<Identifier>,
    },
}

/// A function definition: its name and its body.
#[derive(Debug, PartialEq, Eq)]
pub struct Function {
    pub name: Identifier,
    pub body: Block,
}

/// A program: the one function that the code generator lowers.
#[derive(Debug, PartialEq, Eq)]
pub struct Program(pub Function);

/// Every assignment in `e` writes to a variable.
pub open spec fn exp_wf(e: Expression) -> bool
    decreases e,
{
    match e {
        Expression::Constant(_) => true,
        Expression::Var(_) => true,
        Expression::Unary(_, inner) => exp_wf(*inner),
        Expression::Binary(_, a, b) => exp_wf(*a) && exp_wf(*b),
        Expression::Assignment(lhs, rhs) => (*lhs) is Var && exp_wf(*rhs),
        Expression::Conditional { condition, exp1, exp2 } =>
            exp_wf(*condition) && exp_wf(*exp1) && exp_wf(*exp2),
    }
}

pub open spec fn opt_exp_wf(e: Option<Expression>) -> bool {
    match e {
        Some(x) => exp_wf(x),
        None => true,
    }
}

pub open spec fn var_decl_wf(d: VariableDeclaration) -> bool {
    opt_exp_wf(d.initializer)
}

/// The statement is ready for lowering: assignments write to variables, every loop
/// carries its identifier, and every `break` and `continue` carries a label.
pub open spec fn stmt_wf(s: Statement) -> bool
    decreases s,
{
    match s {
        Statement::Return(e) => exp_wf(e),
        Statement::Expression(e) => exp_wf(e),
        Statement::If { condition, then, else_statement } => exp_wf(condition) && stmt_wf(*then)
            && (match else_statement {
            Some(x) => stmt_wf(*x),
            None => true,
        }),
        Statement::Null => true,
        Statement::Compound(block) => items_wf(block.0@),
        Statement::Break { label } => label is Some,
        Statement::Continue { label } => label is Some,
        Statement::While { condition, body, identifier } => exp_wf(condition) && stmt_wf(*body)
            && identifier is Some,
        Statement::DoWhile { body, condition, identifier } => exp_wf(condition) && stmt_wf(*body)
            && identifier is Some,
        Statement::For { initializer, condition, post, body, identifier } => (match initializer {
            ForInit::InitDecl(d) => var_decl_wf(d),
            ForInit::InitExp(e) => opt_exp_wf(e),
        }) && opt_exp_wf(condition) && opt_exp_wf(post) && stmt_wf(*body) && identifier is Some,
    }
}

pub open spec fn item_wf(item: BlockItem) -> bool
    decreases item,
{
    match item {
        BlockItem::S(s) => stmt_wf(s),
        BlockItem::D(Declaration::VarDecl(d)) => var_decl_wf(d),
        BlockItem::D(Declaration::FuncDecl(_)) => true,
    }
}

pub open spec fn items_wf(items: Seq<BlockItem>) -> bool
    decreases items,
{
    forall|i: int| 0 <= i < items.len() ==> item_wf(#[trigger] items[i])
}

/// Whether every assignment in `e` writes to a variable.
pub fn exp_is_wf(e: &Expression) -> (r: bool)
    ensures
        r == exp_wf(*e),
    decreases e,
{
    match e {
        Expression::Constant(_) => true,
        Expression::Var(_) => true,
        Expression::Unary(_, inner) => exp_is_wf(inner),
        Expression::Binary(_, a, b) => exp_is_wf(a) && exp_is_wf(b),
        Expression::Assignment(lhs, rhs) => {
            let lhs_is_var = match &**lhs {
                Expression::Var(_) => true,
                _ => false,
            };
            lhs_is_var && exp_is_wf(rhs)
        },
        Expression::Conditional { condition, exp1, exp2 } => exp_is_wf(condition) && exp_is_wf(
            exp1,
        ) && exp_is_wf(exp2),
    }
}

fn opt_exp_is_wf(e: &Option<Expression>) -> (r: bool)
    ensures
        r == opt_exp_wf(*e),
{
    match e {
        Some(x) => exp_is_wf(x),
        None => true,
    }
}

/// Whether a statement is ready for lowering (see `stmt_wf`).
pub fn stmt_is_wf(s: &Statement) -> (r: bool)
    ensures
        r == stmt_wf(*s),
    decreases s, 1nat,
{
    match s {
        Statement::Return(e) => exp_is_wf(e),
        Statement::Expression(e) => exp_is_wf(e),
        Statement::If { condition, then, else_statement } => exp_is_wf(condition) && stmt_is_wf(then)
            && match else_statement {
            Some(x) => stmt_is_wf(x),
            None => true,
        },
        Statement::Null => true,
        Statement::Compound(block) => items_are_wf(&block.0),
        Statement::Break { label } => label.is_some(),
        Statement::Continue { label } => label.is_some(),
        Statement::While { condition, body, identifier } => exp_is_wf(condition) && stmt_is_wf(
            body,
        ) && identifier.is_some(),
        Statement::DoWhile { body, condition, identifier } => exp_is_wf(condition) && stmt_is_wf(
            body,
        ) && identifier.is_some(),
        Statement::For { initializer, condition, post, body, identifier } => {
            let init_ok = match initializer {
                ForInit::InitDecl(d) => opt_exp_is_wf(&d.initializer),
                ForInit::InitExp(e) => opt_exp_is_wf(e),
            };
            init_ok && opt_exp_is_wf(condition) && opt_exp_is_wf(post) && stmt_is_wf(body)
                && identifier.is_some()
        },
    }
}

fn item_is_wf(item: &BlockItem) -> (r: bool)
    ensures
        r == item_wf(*item),
    decreases item, 1nat,
{
    match item {
        BlockItem::S(s) => stmt_is_wf(s),
        BlockItem::D(Declaration::VarDecl(d)) => opt_exp_is_wf(&d.initializer),
        BlockItem::D(Declaration::FuncDecl(_)) => true,
    }
}

/// Whether every item of a block is ready for lowering.
pub fn items_are_wf(items: &Vec<BlockItem>) -> (r: bool)
    ensures
        r == items_wf(items@),
    decreases items, 0nat,
{
    let mut i: usize = 0;
    while i < items.len()
        invariant
            0 <= i <= items@.len(),
            forall|k: int| 0 <= k < i ==> item_wf(#[trigger] items@[k]),
        decreases items.len() - i,
    {
        if !item_is_wf(&items[i]) {
            return false;
        }
        i += 1;
    }
    true
}

} // verus!
