use vstd::prelude::*;

verus! {

/// A type of the source language. A `Var` names a cell of a [`crate::store::Store`]
/// by its index; every occurrence of the same index is the same variable.
#[derive(Debug, PartialEq)]
pub enum Type {
    Const { public: bool, module: String, name: String },
    App { public: bool, module: String, name: String, args: Vec<Type> },
    Tuple { elems: Vec<Type> },
    Fun { args: Vec<Type>, retrn: Box<Type> },
    Record { row: Row },
    Module { row: Row },
    Var { cell: usize },
}

/// The state of one type-variable cell.
#[derive(Debug, PartialEq)]
pub enum TypeVar {
    Unbound { id: usize, level: usize },
    Link { typ: Box<Type> },
    Generic { id: usize },
}

/// An ordered list of labelled fields.
#[derive(Debug, PartialEq)]
pub enum Row {
    Nil,
    Cons { label: String, head: Box<Type>, tail: Box<Row> },
}

/// The mathematical value of a [`Type`]: the same tree over sequences.
pub enum Term {
    Const { public: bool, module: Seq<char>, name: Seq<char> },
    App { public: bool, module: Seq<char>, name: Seq<char>, args: Seq<Term> },
    Tuple { elems: Seq<Term> },
    Fun { args: Seq<Term>, retrn: Box<Term> },
    Record { fields: Seq<(Seq<char>, Term)> },
    Module { fields: Seq<(Seq<char>, Term)> },
    Var { cell: nat },
}

/// The mathematical value of a [`TypeVar`].
pub enum Slot {
    Unbound { id: nat, level: nat },
    Link { term: Term },
    Generic { id: nat },
}

/// The term that a type denotes.
pub open spec fn term_of(t: Type) -> Term
    decreases t,
{
    match t {
        Type::Const { public, module, name } => Term::Const { public, module: module@, name: name@ },
        Type::App { public, module, name, args } => Term::App {
            public,
            module: module@,
            name: name@,
            args: terms_of(args@),
        },
        Type::Tuple { elems } => Term::Tuple { elems: terms_of(elems@) },
        Type::Fun { args, retrn } => Term::Fun {
            args: terms_of(args@),
            retrn: Box::new(term_of(*retrn)),
        },
        Type::Record { row } => Term::Record { fields: fields_of(row) },
        Type::Module { row } => Term::Module { fields: fields_of(row) },
        Type::Var { cell } => Term::Var { cell: cell as nat },
    }
}

/// The terms that a sequence of types denotes, in order.
pub open spec fn terms_of(ts: Seq<Type>) -> Seq<Term>
    decreases ts,
{
    if ts.len() == 0 {
        Seq::empty()
    } else {
        terms_of(ts.drop_last()).push(term_of(ts.last()))
    }
}

/// The labelled terms that a row denotes, first field first.
pub open spec fn fields_of(r: Row) -> Seq<(Seq<char>, Term)>
    decreases r,
{
    match r {
        Row::Nil => Seq::empty(),
        Row::Cons { label, head, tail } => seq![(label@, term_of(*head))] + fields_of(*tail),
    }
}

impl View for Type {
    type V = Term;

    open spec fn view(&self) -> Term {
        term_of(*self)
    }
}

impl View for Row {
    type V = Seq<(Seq<char>, Term)>;

    open spec fn view(&self) -> Seq<(Seq<char>, Term)> {
        fields_of(*self)
    }
}

impl View for TypeVar {
    type V = Slot;

    open spec fn view(&self) -> Slot {
        match self {
            TypeVar::Unbound { id, level } => Slot::Unbound { id: *id as nat, level: *level as nat },
            TypeVar::Link { typ } => Slot::Link { term: term_of(**typ) },
            TypeVar::Generic { id } => Slot::Generic { id: *id as nat },
        }
    }
}

/// `terms_of` goes through a sequence element by element.
pub proof fn lemma_terms_of(ts: Seq<Type>)
    ensures
        terms_of(ts).len() == ts.len(),
        forall|i: int| 0 <= i < ts.len() ==> #[trigger] terms_of(ts)[i] == term_of(ts[i]),
    decreases ts.len(),
{
    if ts.len() > 0 {
        lemma_terms_of(ts.drop_last());
    }
}

/// Sequences of types with the same terms, element by element, denote the same terms.
pub proof fn lemma_terms_of_eq(xs: Seq<Type>, ys: Seq<Type>)
    requires
        xs.len() == ys.len(),
        forall|i: int| 0 <= i < xs.len() ==> term_of(#[trigger] xs[i]) == term_of(ys[i]),
    ensures
        terms_of(xs) == terms_of(ys),
{
    lemma_terms_of(xs);
    lemma_terms_of(ys);
    assert(terms_of(xs) =~= terms_of(ys));
}

/// A copy of a list of types.
pub fn clone_types(ts: &Vec<Type>) -> (res: Vec<Type>)
    ensures
        res@.len() == ts@.len(),
        forall|i: int| 0 <= i < ts@.len() ==> term_of(#[trigger] res@[i]) == term_of(ts@[i]),
        terms_of(res@) == terms_of(ts@),
    decreases ts, 0nat,
{
    let mut res: Vec<Type> = Vec::new();
    let mut i: usize = 0;
    while i < ts.len()
        invariant
            i <= ts.len(),
            res@.len() == i,
            forall|j: int| 0 <= j < i ==> term_of(#[trigger] res@[j]) == term_of(ts@[j]),
        decreases ts.len() - i,
    {
        let c = clone_type(&ts[i]);
        res.push(c);
        i += 1;
    }
    proof {
        lemma_terms_of_eq(res@, ts@);
    }
    res
}

/// A copy of a type.
pub fn clone_type(t: &Type) -> (res: Type)
    ensures
        res@ == t@,
    decreases t, 1nat,
{
    match t {
        Type::Const { public, module, name } => Type::Const {
            public: *public,
            module: module.clone(),
            name: name.clone(),
        },
        Type::App { public, module, name, args } => Type::App {
            public: *public,
            module: module.clone(),
            name: name.clone(),
            args: clone_types(args),
        },
        Type::Tuple { elems } => Type::Tuple { elems: clone_types(elems) },
        Type::Fun { args, retrn } => Type::Fun {
            args: clone_types(args),
            retrn: Box::new(clone_type(retrn)),
        },
        Type::Record { row } => Type::Record { row: clone_row(row) },
        Type::Module { row } => Type::Module { row: clone_row(row) },
        Type::Var { cell } => Type::Var { cell: *cell },
    }
}

/// A copy of a row.
pub fn clone_row(r: &Row) -> (res: Row)
    ensures
        res@ == r@,
    decreases r, 1nat,
{
    match r {
        Row::Nil => Row::Nil,
        Row::Cons { label, head, tail } => Row::Cons {
            label: label.clone(),
            head: Box::new(clone_type(head)),
            tail: Box::new(clone_row(tail)),
        },
    }
}

impl Clone for Type {
    fn clone(&self) -> (res: Self)
        ensures
            res@ == self@,
    {
        clone_type(self)
    }
}

impl Clone for Row {
    fn clone(&self) -> (res: Self)
        ensures
            res@ == self@,
    {
        clone_row(self)
    }
}

impl Clone for TypeVar {
    fn clone(&self) -> (res: Self)
        ensures
            res@ == self@,
    {
        match self {
            TypeVar::Unbound { id, level } => TypeVar::Unbound { id: *id, level: *level },
            TypeVar::Link { typ } => TypeVar::Link { typ: Box::new(clone_type(typ)) },
            TypeVar::Generic { id } => TypeVar::Generic { id: *id },
        }
    }
}

/// The term of a built-in type without arguments.
pub open spec fn builtin(name: Seq<char>) -> Term {
    Term::Const { public: true, module: Seq::empty(), name }
}

/// The term of the list type over `elem`.
pub open spec fn list_of(elem: Term) -> Term {
    Term::App { public: true, module: Seq::empty(), name: "List"@, args: seq![elem] }
}

/// The type of whole numbers.
pub fn int_type() -> (t: Type)
    ensures
        t@ == builtin("Int"@),
{
    Type::Const { public: true, name: "Int".to_owned(), module: String::new() }
}

/// The type of floating point numbers.
pub fn float() -> (t: Type)
    ensures
        t@ == builtin("Float"@),
{
    Type::Const { public: true, name: "Float".to_owned(), module: String::new() }
}

/// The type of atoms.
pub fn atom() -> (t: Type)
    ensures
        t@ == builtin("Atom"@),
{
    Type::Const { public: true, name: "Atom".to_owned(), module: String::new() }
}

/// The type of text.
pub fn string() -> (t: Type)
    ensures
        t@ == builtin("String"@),
{
    Type::Const { public: true, name: "String".to_owned(), module: String::new() }
}

/// The type of lists whose elements have the type `t`.
pub fn list(t: Type) -> (l: Type)
    ensures
        l@ == list_of(t@),
{
    let mut args: Vec<Type> = Vec::new();
    args.push(t);
    proof {
        lemma_terms_of(args@);
        assert(terms_of(args@) =~= seq![t@]);
    }
    Type::App { public: true, name: "List".to_owned(), module: String::new(), args }
}

} // verus!
