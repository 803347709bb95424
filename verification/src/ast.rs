//! The abstract syntax tree that the transcoder consumes.
//!
//! The upstream script compiler hands over statements and expressions in
//! this shape. Literal call arguments are lifted into a per-call constant
//! table and referenced by `Expr::Stack` slots; the transcoder dereferences
//! them back into literal form. Node kinds that the front end produces but
//! the transcoder does not translate arrive as the `Unsupported` variants,
//! carrying the kind's name for the error report.

use vstd::prelude::*;

verus! {

/// A constant lifted out of a call's argument list by the script compiler.
#[derive(Debug, Clone, PartialEq, Eq)]
pub enum Constant {
    /// An integer literal; renders as decimal digits.
    Int(i64),
    /// A constant of a kind the transcoder cannot render; the string names
    /// the kind.
    Unsupported(String),
}

/// A function or operator call, in statement or expression position.
#[derive(Debug, PartialEq, Eq)]
pub struct Call {
    /// The qualifying module, if the call is written `ns::name(...)`.
    pub namespace: Option<String>,
    /// The function or operator name.
    pub name: String,
    /// The argument expressions; `Expr::Stack` slots index `constants`.
    pub args: Vec<Expr>,
    /// The constant table for this call's lifted literal arguments.
    pub constants: Vec<Constant>,
}

/// An expression node.
#[derive(Debug, PartialEq, Eq)]
pub enum Expr {
    /// An integer literal.
    IntegerConstant(i64),
    /// A variable reference, by name.
    Variable(String),
    /// A nested call.
    FnCall(Call),
    /// A reference into the surrounding call's constant table.
    Stack(usize),
    /// An expression kind the transcoder does not translate; the string
    /// names the kind.
    Unsupported(String),
}

/// A statement node.
#[derive(Debug, PartialEq, Eq)]
pub enum Stmt {
    /// `let name = value;` — binds `name` over the remainder of the
    /// enclosing block.
    Var(Expr, String),
    /// `for var in range(lo, hi) { body }` — the range expression must be a
    /// call to `range` with two integer literal arguments.
    For(Expr, String, Vec<Stmt>),
    /// A call in statement position.
    FnCall(Call),
    /// `loop { body }` — an unconditional loop.
    Loop(Vec<Stmt>),
    /// `if cond { body }` — a conditional without an else branch.
    If(Expr, Vec<Stmt>),
    /// `break;` — leaves the enclosing loop.
    Break,
    /// A statement kind the transcoder does not translate; the string names
    /// the kind.
    Unsupported(String),
}

/// Why the transcoder rejected its input.
#[derive(Debug, Clone, PartialEq, Eq)]
pub enum TranscodeError {
    /// A statement kind the transcoder does not translate; carries its name.
    UnsupportedStmt(String),
    /// An expression kind the transcoder does not translate; carries its
    /// name.
    UnsupportedExpr(String),
    /// A `for` iterator that is not `range(lo, hi)` with two integer
    /// literal arguments.
    MalformedRange,
    /// A `for` over `range(lo, hi)` with `lo != 0`, which the target
    /// dialect's `dotimes` cannot express.
    NonZeroLowerBound,
    /// A constant table entry in argument position that is not an integer.
    NonIntegerConstant,
    /// A stack slot that points past the end of the call's constant table.
    StackSlotOutOfRange,
}

/// The mathematical model of a `TranscodeError`: the same variants, with
/// the carried kind names as character sequences.
pub enum ErrorModel {
    UnsupportedStmt(Seq<char>),
    UnsupportedExpr(Seq<char>),
    MalformedRange,
    NonZeroLowerBound,
    NonIntegerConstant,
    StackSlotOutOfRange,
}

impl View for TranscodeError {
    type V = ErrorModel;

    open spec fn view(&self) -> ErrorModel {
        match self {
            TranscodeError::UnsupportedStmt(s) => ErrorModel::UnsupportedStmt(s@),
            TranscodeError::UnsupportedExpr(s) => ErrorModel::UnsupportedExpr(s@),
            TranscodeError::MalformedRange => ErrorModel::MalformedRange,
            TranscodeError::NonZeroLowerBound => ErrorModel::NonZeroLowerBound,
            TranscodeError::NonIntegerConstant => ErrorModel::NonIntegerConstant,
            TranscodeError::StackSlotOutOfRange => ErrorModel::StackSlotOutOfRange,
        }
    }
}

} // verus!
