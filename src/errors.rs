//! The errors of the front end and of the validation passes.
use vstd::prelude::*;

use crate::ast::{Expression, Identifier};
use crate::lexer::Token;

verus! {

#[derive(Debug)]
pub enum Error {
    /// The parser met a token other than the one the grammar asks for.
    UnexpectedToken { message: Option<String>, expected: Token, found: Token },
    /// The token is not in the precedence table.
    Precedence { found: Token },
    MalformedFactor { missing: Option<Token>, found: Token },
    NotBinop { found: Token },
    NotUnop { found: Token },
    /// A variable declared twice in one scope.
    DuplicateVarDeclaration { var: Identifier },
    InvalidLVal { value: Expression },
    UndeclaredVar { value: Identifier },
    /// A `break` or `continue` outside any loop.
    JumpOutsideLoop,
}

} // verus!
