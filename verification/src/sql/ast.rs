//! The parts of a query that the engine looks at.
use vstd::prelude::*;

verus! {

/// A literal.
pub enum Literal {
    Number(String),
    SingleQuotedString(String),
    DoubleQuotedString(String),
    EscapedStringLiteral(String),
    Boolean(bool),
    /// Any other literal.
    Other,
}

/// An operator between two expressions.
pub enum BinaryOperator {
    Plus,
    Minus,
    Multiply,
    Divide,
    Gt,
    Lt,
    GtEq,
    LtEq,
    Eq,
    NotEq,
    And,
    Or,
    /// Any other operator.
    Other,
}

/// An operator in front of an expression.
pub enum UnaryOperator {
    Minus,
    Not,
    /// Any other operator.
    Other,
}

/// The part of a time that `EXTRACT` takes.
pub enum DateTimeField {
    Minute,
    Hour,
    Day,
    Month,
    Year,
    /// Any other part.
    Other,
}

/// One argument of a function.
pub enum FunctionArg {
    Expr(Expr),
    Wildcard,
    /// A named argument or a qualified wildcard.
    Other,
}

/// The arguments of a function.
pub enum FunctionArguments {
    Absent,
    List { distinct: bool, args: Vec<FunctionArg> },
    Subquery,
}

/// A function call.
pub struct Function {
    /// The name as it is displayed, quoted parts in their quotes.
    pub name: String,
    pub args: FunctionArguments,
}

/// An expression.
#[allow(inconsistent_fields)]
pub enum Expr {
    Identifier(String),
    CompoundIdentifier(Vec<String>),
    Value(Literal),
    BinaryOp { left: Box<Expr>, op: BinaryOperator, right: Box<Expr> },
    UnaryOp { op: UnaryOperator, expr: Box<Expr> },
    Nested(Box<Expr>),
    Cast { expr: Box<Expr> },
    Like { negated: bool, expr: Box<Expr>, pattern: Box<Expr> },
    ILike { negated: bool, expr: Box<Expr>, pattern: Box<Expr> },
    InList { expr: Box<Expr>, list: Vec<Expr>, negated: bool },
    Function(Function),
    Case {
        operand: Option<Box<Expr>>,
        conditions: Vec<Expr>,
        results: Vec<Expr>,
        else_result: Option<Box<Expr>>,
    },
    Extract { field: DateTimeField, expr: Box<Expr> },
    IsNull(Box<Expr>),
    /// Any other expression.
    Other,
}

/// What a projection computes.
pub enum SelectItemKind {
    CountAll,
    Sum(Expr),
    Avg(Expr),
    Count(Expr),
    CountDistinct(Expr),
    Min(Expr),
    Max(Expr),
    Column(Expr),
    Other(Expr),
}

/// One item of the select list.
pub struct SelectProjection {
    pub kind: SelectItemKind,
    pub alias: Option<String>,
}

/// A query, taken apart.
pub struct ParsedQuery {
    pub from_table: String,
    pub select_items: Vec<SelectProjection>,
    pub select_all: bool,
    pub where_expr: Option<Expr>,
    pub group_by: Vec<Expr>,
    pub having: Option<Expr>,
    /// The sort expressions, each with whether it is descending.
    pub order_by: Vec<(Expr, bool)>,
    pub limit: Option<u64>,
    pub offset: Option<u64>,
}

} // verus!
