//! The part of a parsed Python module the analysis reads.
//!
//! Every node keeps the byte range it was parsed from. Statements and
//! expressions the analysis has no rule for are kept as [`StmtKind::Other`]
//! and [`ExprKind::Other`], holding their direct children in source order, so
//! walks still reach everything nested inside them.

use vstd::prelude::*;

verus! {

/// A byte range `start..end` in a source file.
#[derive(Debug, Clone, Copy, PartialEq, Eq, Structural)]
pub struct TextRange {
    pub start: u32,
    pub end: u32,
}

impl TextRange {
    /// Whether `offset` lies in `start..end`.
    pub fn contains(&self, offset: u32) -> (r: bool)
        ensures
            r == (self.start <= offset && offset < self.end),
    {
        self.start <= offset && offset < self.end
    }
}

/// Whether a name or attribute is read, written or deleted.
#[derive(Debug, Clone, Copy, PartialEq, Eq, Structural)]
pub enum ExprContext {
    Load,
    Store,
    Del,
}

/// An expression.
#[derive(Debug)]
pub struct Expr {
    pub range: TextRange,
    pub kind: ExprKind,
}

/// Positional and keyword arguments of a call or a class statement; only the
/// keyword values are kept.
#[derive(Debug)]
pub struct Arguments {
    pub args: Vec<Expr>,
    pub keywords: Vec<Expr>,
}

/// A function or lambda parameter.
#[derive(Debug)]
pub struct Parameter {
    pub name: String,
    /// Annotation and default value, in source order.
    pub exprs: Vec<Expr>,
}

#[derive(Debug)]
pub enum ExprKind {
    Name { id: String, ctx: ExprContext },
    Attribute { value: Box<Expr>, attr: String, ctx: ExprContext },
    Call { func: Box<Expr>, arguments: Arguments },
    StringLiteral,
    SetLiteral { elts: Vec<Expr> },
    SetComp { children: Vec<Expr> },
    Subscript { value: Box<Expr>, slice: Box<Expr>, ctx: ExprContext },
    Tuple { elts: Vec<Expr>, ctx: ExprContext },
    List { elts: Vec<Expr>, ctx: ExprContext },
    Starred { value: Box<Expr>, ctx: ExprContext },
    Named { target: Box<Expr>, value: Box<Expr> },
    Lambda { parameters: Vec<Parameter>, body: Box<Expr> },
    /// Any other expression, with its direct sub-expressions.
    Other { children: Vec<Expr> },
}

/// `name` or `name as asname` in an import.
#[derive(Debug)]
pub struct Alias {
    pub name: String,
    pub asname: Option<String>,
}

/// A statement.
#[derive(Debug)]
pub struct Stmt {
    pub range: TextRange,
    pub kind: StmtKind,
}

/// A direct child of a statement the analysis has no rule for.
#[derive(Debug)]
pub enum Child {
    Expr(Expr),
    Stmt(Stmt),
}

#[derive(Debug)]
pub enum StmtKind {
    Import { names: Vec<Alias> },
    ImportFrom { module: Option<String>, names: Vec<Alias>, level: u32 },
    FunctionDef {
        name: String,
        /// Byte offset of the function's name.
        name_start: u32,
        decorators: Vec<Expr>,
        parameters: Vec<Parameter>,
        result_annotation: Option<Expr>,
        body: Vec<Stmt>,
    },
    ClassDef {
        name: String,
        /// Byte offset of the class's name.
        name_start: u32,
        decorators: Vec<Expr>,
        arguments: Option<Arguments>,
        body: Vec<Stmt>,
    },
    Assign { targets: Vec<Expr>, value: Expr },
    AugAssign { target: Expr, value: Expr },
    AnnAssign { target: Expr, annotation: Expr, value: Option<Expr> },
    Global { names: Vec<String> },
    Nonlocal { names: Vec<String> },
    /// Any other statement, with its direct children in source order.
    Other { children: Vec<Child> },
}

} // verus!
