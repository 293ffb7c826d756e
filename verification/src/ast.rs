use crate::typ::{atom, builtin, clone_type, float, int_type, string, Term, Type};
use vstd::prelude::*;

verus! {

/// Where in the source text an expression stands.
#[derive(Debug, Clone, Copy, PartialEq, Eq)]
pub struct Meta {
    pub start: usize,
    pub end: usize,
}

/// Where a variable was bound.
#[derive(Debug, PartialEq)]
pub enum Scope {
    Local,
    Module,
    Constant,
}

/// A parameter of a function literal.
#[derive(Debug, PartialEq)]
pub struct Arg {
    pub name: String,
}

/// The left side of a binding.
#[derive(Debug, PartialEq)]
#[allow(inconsistent_fields)]
pub enum Pattern {
    Var { meta: Meta, name: String },
    Int { meta: Meta, value: i64 },
    Atom { meta: Meta, value: String },
    String { meta: Meta, value: String },
    Nil { meta: Meta },
    List { meta: Meta, head: Box<Pattern>, tail: Box<Pattern> },
    Tuple { meta: Meta, elems: Vec<Pattern> },
}

/// A binary operator.
#[derive(Debug, PartialEq)]
pub enum BinOp {
    Pipe,
    Lt,
    LtEq,
    Eq,
    GtEq,
    Gt,
    AddInt,
    AddFloat,
    SubInt,
    SubFloat,
    MultInt,
    MultFloat,
    DivInt,
    DivFloat,
}

/// One arm of a case expression.
#[derive(Debug, PartialEq)]
pub struct Clause<S, T> {
    pub meta: Meta,
    pub typ: T,
    pub pattern: Pattern,
    pub body: Box<Expr<S, T>>,
}

/// An expression. `S` is what is known of the scope of a variable and `T` what is known of the
/// type of an expression: nothing before inference, a [`Scope`] and a [`Type`] after it.
#[derive(Debug, PartialEq)]
#[allow(inconsistent_fields)]
pub enum Expr<S, T> {
    Int { meta: Meta, value: i64 },
    /// A floating point literal, as it is written.
    Float { meta: Meta, value: String },
    Atom { meta: Meta, value: String },
    String { meta: Meta, value: String },
    Tuple { meta: Meta, typ: T, elems: Vec<Expr<S, T>> },
    /// Two expressions, one after the other. `typ` is the type of the second.
    Sequence { meta: Meta, typ: T, first: Box<Expr<S, T>>, then: Box<Expr<S, T>> },
    Var { meta: Meta, typ: T, scope: S, name: String },
    /// A function literal.
    Fun { meta: Meta, typ: T, args: Vec<Arg>, body: Box<Expr<S, T>> },
    /// The empty list.
    Nil { meta: Meta, typ: T },
    Cons { meta: Meta, typ: T, head: Box<Expr<S, T>>, tail: Box<Expr<S, T>> },
    Call { meta: Meta, typ: T, fun: Box<Expr<S, T>>, args: Vec<Expr<S, T>> },
    BinOp { meta: Meta, typ: T, name: BinOp, left: Box<Expr<S, T>>, right: Box<Expr<S, T>> },
    /// A binding and the expression that it is made for. `typ` is the type that the pattern is
    /// bound to: that of `value`, with the variables made generic that belong to it alone.
    Let { meta: Meta, typ: T, pattern: Pattern, value: Box<Expr<S, T>>, then: Box<Expr<S, T>> },
    Constructor { meta: Meta, typ: T, name: String },
    Case { meta: Meta, typ: T, subject: Box<Expr<S, T>>, clauses: Vec<Clause<S, T>> },
    RecordNil { meta: Meta, typ: T },
    RecordCons { meta: Meta, typ: T, label: String, value: Box<Expr<S, T>>, tail: Box<Expr<S, T>> },
    RecordSelect { meta: Meta, typ: T, label: String, record: Box<Expr<S, T>> },
    ModuleSelect { meta: Meta, typ: T, module: Box<Expr<S, T>>, label: String },
}

/// An expression as the parser hands it over.
pub type UntypedExpr = Expr<(), ()>;

/// An expression in which every node has its type.
pub type TypedExpr = Expr<Scope, Type>;

/// The term of the type of a typed expression.
pub open spec fn type_term(e: TypedExpr) -> Term
    decreases e,
{
    match e {
        Expr::Int { .. } => builtin("Int"@),
        Expr::Float { .. } => builtin("Float"@),
        Expr::Atom { .. } => builtin("Atom"@),
        Expr::String { .. } => builtin("String"@),
        Expr::Tuple { typ, .. } => typ@,
        Expr::Sequence { then, .. } => type_term(*then),
        Expr::Var { typ, .. } => typ@,
        Expr::Fun { typ, .. } => typ@,
        Expr::Nil { typ, .. } => typ@,
        Expr::Cons { typ, .. } => typ@,
        Expr::Call { typ, .. } => typ@,
        Expr::BinOp { typ, .. } => typ@,
        Expr::Let { then, .. } => type_term(*then),
        Expr::Constructor { typ, .. } => typ@,
        Expr::Case { typ, .. } => typ@,
        Expr::RecordNil { typ, .. } => typ@,
        Expr::RecordCons { typ, .. } => typ@,
        Expr::RecordSelect { typ, .. } => typ@,
        Expr::ModuleSelect { typ, .. } => typ@,
    }
}

impl Expr<Scope, Type> {
    /// The type of this expression: that of its last part where it is a sequence or a
    /// binding, else the type that the node holds.
    pub fn typ(&self) -> (t: Type)
        ensures
            t@ == type_term(*self),
        decreases self,
    {
        match self {
            Expr::Int { .. } => int_type(),
            Expr::Float { .. } => float(),
            Expr::Atom { .. } => atom(),
            Expr::String { .. } => string(),
            Expr::Tuple { typ, .. } => clone_type(typ),
            Expr::Sequence { then, .. } => then.typ(),
            Expr::Var { typ, .. } => clone_type(typ),
            Expr::Fun { typ, .. } => clone_type(typ),
            Expr::Nil { typ, .. } => clone_type(typ),
            Expr::Cons { typ, .. } => clone_type(typ),
            Expr::Call { typ, .. } => clone_type(typ),
            Expr::BinOp { typ, .. } => clone_type(typ),
            Expr::Let { then, .. } => then.typ(),
            Expr::Constructor { typ, .. } => clone_type(typ),
            Expr::Case { typ, .. } => clone_type(typ),
            Expr::RecordNil { typ, .. } => clone_type(typ),
            Expr::RecordCons { typ, .. } => clone_type(typ),
            Expr::RecordSelect { typ, .. } => clone_type(typ),
            Expr::ModuleSelect { typ, .. } => clone_type(typ),
        }
    }
}

} // verus!
