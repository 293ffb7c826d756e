use crate::env::{copy_letters, letter_of, letters, no_letters, set_letter};
use crate::pretty::{
    break_, docs_of, intersperse, interspersed, join, join_docs, layout, text, Doc, Document,
};
use crate::store::{
    hops, in_range, lemma_resolve_link, resolve, resolve_all, Shape, Store,
};
use crate::typ::{lemma_terms_of, terms_of, Slot, Type, TypeVar};
use vstd::prelude::*;
use vstd::string::*;

verus! {

/// How far the arguments of a type move to the right where they do not fit on the line.
pub const INDENT: usize = 2;

/// The names that variables are given, in the order in which they are given.
pub open spec fn alphabet() -> Seq<char> {
    "abcdefghijklmnopqrstuvwxyz"@
}

/// The number of names there are.
pub open spec fn letter_count() -> nat {
    26
}

/// The name with number `n`, counted from 0.
pub open spec fn letter(n: nat) -> Seq<char> {
    alphabet().subrange(n as int, n as int + 1)
}

/// The shape can be shown: it holds no tuple, record or module, and no variable dangles.
pub open spec fn printable(s: Shape) -> bool
    decreases s,
{
    match s {
        Shape::Const { .. } => true,
        Shape::App { args, .. } => forall|i: int| 0 <= i < args.len() ==> printable(#[trigger] args[i]),
        Shape::Fun { args, retrn } => printable(*retrn) && forall|i: int|
            0 <= i < args.len() ==> printable(#[trigger] args[i]),
        Shape::Unbound { .. } => true,
        Shape::Generic { .. } => true,
        _ => false,
    }
}

/// The document of the variable `id`, with the naming table and the number of names given
/// after it: the name that the table holds for `id`, else the next name not yet given, which
/// then stands for `id`.
pub open spec fn print_var(id: nat, names: Map<nat, Seq<char>>, next: nat) -> (
    Doc,
    Map<nat, Seq<char>>,
    nat,
) {
    if names.contains_key(id) {
        (Doc::Text(names[id]), names, next)
    } else {
        (Doc::Text(letter(next)), names.insert(id, letter(next)), next + 1)
    }
}

/// The document of a shape, with the naming table and the number of names given after it.
/// Variables are named in the order in which they are first met, from left to right.
pub open spec fn print(s: Shape, names: Map<nat, Seq<char>>, next: nat) -> (
    Doc,
    Map<nat, Seq<char>>,
    nat,
)
    decreases s, 0nat,
{
    match s {
        Shape::Const { name, .. } => (Doc::Text(name), names, next),
        Shape::App { name, args, .. } => {
            let inner = print_args(args, names, next);
            (
                Doc::Cons(
                    Box::new(
                        Doc::Cons(
                            Box::new(
                                Doc::Cons(Box::new(Doc::Text(name)), Box::new(Doc::Text("("@))),
                            ),
                            Box::new(inner.0),
                        ),
                    ),
                    Box::new(Doc::Text(")"@)),
                ),
                inner.1,
                inner.2,
            )
        },
        Shape::Fun { args, retrn } => {
            let inner = print_args(args, names, next);
            let last = print(*retrn, inner.1, inner.2);
            (
                Doc::Cons(
                    Box::new(
                        Doc::Cons(
                            Box::new(Doc::Cons(Box::new(Doc::Text("fn("@)), Box::new(inner.0))),
                            Box::new(Doc::Text(") -> "@)),
                        ),
                    ),
                    Box::new(last.0),
                ),
                last.1,
                last.2,
            )
        },
        Shape::Unbound { id, .. } => print_var(id, names, next),
        Shape::Generic { id } => print_var(id, names, next),
        _ => (Doc::Nil, names, next),
    }
}

/// The documents of the first `k` of `args`, each a group, with the naming table and the
/// number of names given after them.
pub open spec fn print_upto(args: Seq<Shape>, k: nat, names: Map<nat, Seq<char>>, next: nat) -> (
    Seq<Doc>,
    Map<nat, Seq<char>>,
    nat,
)
    decreases args, k,
{
    if k == 0 || k > args.len() {
        (Seq::empty(), names, next)
    } else {
        let before = print_upto(args, (k - 1) as nat, names, next);
        let this = print(args[k - 1], before.1, before.2);
        (before.0.push(Doc::Group(Box::new(this.0))), this.1, this.2)
    }
}

/// The document of an argument list: the arguments with a comma between each two, where a
/// line may end, and after the last a place where a line may end with a comma.
pub open spec fn print_args(args: Seq<Shape>, names: Map<nat, Seq<char>>, next: nat) -> (
    Doc,
    Map<nat, Seq<char>>,
    nat,
)
    decreases args, args.len() + 1,
{
    let each = print_upto(args, args.len(), names, next);
    (
        Doc::Cons(
            Box::new(
                Doc::Nest(
                    INDENT as nat,
                    Box::new(
                        join(
                            interspersed(each.0, Doc::Break { broken: ","@, unbroken: ", "@ }),
                            Doc::Nil,
                        ),
                    ),
                ),
            ),
            Box::new(Doc::Break { broken: ","@, unbroken: ""@ }),
        ),
        each.1,
        each.2,
    )
}

/// Printing gives names and takes none back.
pub proof fn lemma_print_grows(s: Shape, names: Map<nat, Seq<char>>, next: nat)
    ensures
        print(s, names, next).2 >= next,
    decreases s, 0nat,
{
    match s {
        Shape::App { args, .. } => {
            lemma_print_upto_grows(args, 0, args.len(), names, next);
            assert(print_upto(args, 0, names, next).2 == next);
            assert(print_args(args, names, next).2 == print_upto(args, args.len(), names, next).2);
        },
        Shape::Fun { args, retrn } => {
            lemma_print_upto_grows(args, 0, args.len(), names, next);
            assert(print_upto(args, 0, names, next).2 == next);
            assert(print_args(args, names, next).2 == print_upto(args, args.len(), names, next).2);
            let inner = print_args(args, names, next);
            lemma_print_grows(*retrn, inner.1, inner.2);
        },
        _ => {},
    }
}

/// Printing more arguments gives names and takes none back.
pub proof fn lemma_print_upto_grows(
    args: Seq<Shape>,
    k: nat,
    j: nat,
    names: Map<nat, Seq<char>>,
    next: nat,
)
    requires
        k <= j <= args.len(),
    ensures
        print_upto(args, k, names, next).2 <= print_upto(args, j, names, next).2,
    decreases args, j,
{
    if k < j {
        lemma_print_upto_grows(args, k, (j - 1) as nat, names, next);
        let before = print_upto(args, (j - 1) as nat, names, next);
        lemma_print_grows(args[j - 1], before.1, before.2);
    }
}

/// A shape in which every variable id `id` is replaced by `f(id)`.
pub open spec fn renamed(s: Shape, f: spec_fn(nat) -> nat) -> Shape
    decreases s,
{
    match s {
        Shape::App { public, module, name, args } => Shape::App {
            public,
            module,
            name,
            args: renamed_all(args, f),
        },
        Shape::Tuple { elems } => Shape::Tuple { elems: renamed_all(elems, f) },
        Shape::Fun { args, retrn } => Shape::Fun {
            args: renamed_all(args, f),
            retrn: Box::new(renamed(*retrn, f)),
        },
        Shape::Unbound { cell, id, level } => Shape::Unbound { cell, id: f(id), level },
        Shape::Generic { id } => Shape::Generic { id: f(id) },
        _ => s,
    }
}

/// Shapes in which every variable id `id` is replaced by `f(id)`.
pub open spec fn renamed_all(ss: Seq<Shape>, f: spec_fn(nat) -> nat) -> Seq<Shape>
    decreases ss,
{
    Seq::new(
        ss.len(),
        |i: int|
            if 0 <= i < ss.len() {
                renamed(ss[i], f)
            } else {
                Shape::Dangling { cell: 0 }
            },
    )
}

/// A naming table that holds for `f(id)` what `names` holds for `id`, where `g` takes
/// `f(id)` back to `id`.
pub open spec fn renamed_names(
    names: Map<nat, Seq<char>>,
    f: spec_fn(nat) -> nat,
    g: spec_fn(nat) -> nat,
) -> Map<nat, Seq<char>> {
    Map::new(|k: nat| f(g(k)) == k && names.contains_key(g(k)), |k: nat| names[g(k)])
}

/// Printing a shape with other ids, and with a table that names them as the first table
/// names the first ids, gives the same document and the same number of new names.
pub proof fn lemma_print_renamed(
    s: Shape,
    names: Map<nat, Seq<char>>,
    next: nat,
    f: spec_fn(nat) -> nat,
    g: spec_fn(nat) -> nat,
)
    requires
        forall|id: nat| g(#[trigger] f(id)) == id,
    ensures
        print(renamed(s, f), renamed_names(names, f, g), next) == (
            print(s, names, next).0,
            renamed_names(print(s, names, next).1, f, g),
            print(s, names, next).2,
        ),
    decreases s, 0nat,
{
    match s {
        Shape::App { args, .. } => {
            lemma_print_args_renamed(args, names, next, f, g);
        },
        Shape::Fun { args, retrn } => {
            lemma_print_args_renamed(args, names, next, f, g);
            let inner = print_args(args, names, next);
            lemma_print_renamed(*retrn, inner.1, inner.2, f, g);
        },
        Shape::Unbound { id, .. } => {
            lemma_print_var_renamed(id, names, next, f, g);
        },
        Shape::Generic { id } => {
            lemma_print_var_renamed(id, names, next, f, g);
        },
        _ => {},
    }
}

/// `lemma_print_renamed` for an argument list.
proof fn lemma_print_args_renamed(
    args: Seq<Shape>,
    names: Map<nat, Seq<char>>,
    next: nat,
    f: spec_fn(nat) -> nat,
    g: spec_fn(nat) -> nat,
)
    requires
        forall|id: nat| g(#[trigger] f(id)) == id,
    ensures
        print_args(renamed_all(args, f), renamed_names(names, f, g), next) == (
            print_args(args, names, next).0,
            renamed_names(print_args(args, names, next).1, f, g),
            print_args(args, names, next).2,
        ),
    decreases args, args.len() + 1,
{
    lemma_print_upto_renamed(args, args.len(), names, next, f, g);
    assert(renamed_all(args, f).len() == args.len());
}

/// `lemma_print_renamed` for one variable.
proof fn lemma_print_var_renamed(
    id: nat,
    names: Map<nat, Seq<char>>,
    next: nat,
    f: spec_fn(nat) -> nat,
    g: spec_fn(nat) -> nat,
)
    requires
        forall|id: nat| g(#[trigger] f(id)) == id,
    ensures
        print_var(f(id), renamed_names(names, f, g), next) == (
            print_var(id, names, next).0,
            renamed_names(print_var(id, names, next).1, f, g),
            print_var(id, names, next).2,
        ),
{
    assert(g(f(id)) == id);
    if !names.contains_key(id) {
        assert(renamed_names(names, f, g).insert(f(id), letter(next)) =~= renamed_names(
            names.insert(id, letter(next)),
            f,
            g,
        ));
    }
}

/// `lemma_print_renamed` for the first `k` arguments.
proof fn lemma_print_upto_renamed(
    args: Seq<Shape>,
    k: nat,
    names: Map<nat, Seq<char>>,
    next: nat,
    f: spec_fn(nat) -> nat,
    g: spec_fn(nat) -> nat,
)
    requires
        forall|id: nat| g(#[trigger] f(id)) == id,
        k <= args.len(),
    ensures
        print_upto(renamed_all(args, f), k, renamed_names(names, f, g), next) == (
            print_upto(args, k, names, next).0,
            renamed_names(print_upto(args, k, names, next).1, f, g),
            print_upto(args, k, names, next).2,
        ),
    decreases args, k,
{
    if k > 0 {
        lemma_print_upto_renamed(args, (k - 1) as nat, names, next, f, g);
        let before = print_upto(args, (k - 1) as nat, names, next);
        lemma_print_renamed(args[k - 1], before.1, before.2, f, g);
        assert(renamed_all(args, f)[k - 1] == renamed(args[k - 1], f));
    }
}

/// The name with number `*i`, and `*i` moved to the next.
pub fn next_letter(i: &mut usize) -> (name: String)
    requires
        *old(i) < letter_count(),
    ensures
        name@ == letter(*old(i) as nat),
        *final(i) == *old(i) + 1,
{
    let all = "abcdefghijklmnopqrstuvwxyz";
    proof {
        reveal_strlit("abcdefghijklmnopqrstuvwxyz");
    }
    let c = String::from_str(all.substring_char(*i, *i + 1));
    *i += 1;
    c
}

/// The shape can be shown with the names of `names` and the letters that are left after
/// `next` of them have been given.
pub open spec fn showable(s: Shape, names: Map<nat, Seq<char>>, next: nat) -> bool {
    printable(s) && print(s, names, next).2 <= letter_count()
}

/// The document of the variable `id`, unless the letters have run out.
fn show_var(id: usize, names: &mut im::HashMap<usize, String>, uid: &mut usize) -> (shown: Option<
    Document,
>)
    requires
        *old(uid) <= letter_count(),
    ensures
        match shown {
            Some(doc) => {
                &&& print_var(id as nat, letters(*old(names)), *old(uid) as nat).2 <= letter_count()
                &&& (doc@, letters(*final(names)), *final(uid) as nat) == print_var(
                    id as nat,
                    letters(*old(names)),
                    *old(uid) as nat,
                )
            },
            None => print_var(id as nat, letters(*old(names)), *old(uid) as nat).2 > letter_count(),
        },
{
    match letter_of(names, id) {
        Some(n) => Some(Document::Text(n.clone())),
        None => {
            if *uid >= 26 {
                None
            } else {
                let n = next_letter(uid);
                set_letter(names, id, n.clone());
                Some(Document::Text(n))
            }
        },
    }
}

/// The document of an argument list, unless one of the arguments cannot be shown or the
/// letters run out.
fn args_to_gleam_doc(
    args: &Vec<Type>,
    store: &Store,
    names: &mut im::HashMap<usize, String>,
    uid: &mut usize,
) -> (shown: Option<Document>)
    requires
        store.wf(),
        forall|i: int| 0 <= i < args@.len() ==> in_range(#[trigger] terms_of(args@)[i], store@.len()),
    ensures
        match shown {
            Some(doc) => {
                &&& forall|i: int|
                    0 <= i < args@.len() ==> printable(
                        #[trigger] resolve_all(store@, terms_of(args@), store@.len())[i],
                    )
                &&& print_args(
                    resolve_all(store@, terms_of(args@), store@.len()),
                    letters(*old(names)),
                    *old(uid) as nat,
                ).2 <= letter_count()
                &&& (doc@, letters(*final(names)), *final(uid) as nat) == print_args(
                    resolve_all(store@, terms_of(args@), store@.len()),
                    letters(*old(names)),
                    *old(uid) as nat,
                )
            },
            None => !({
                &&& forall|i: int|
                    0 <= i < args@.len() ==> printable(
                        #[trigger] resolve_all(store@, terms_of(args@), store@.len())[i],
                    )
                &&& print_args(
                    resolve_all(store@, terms_of(args@), store@.len()),
                    letters(*old(names)),
                    *old(uid) as nat,
                ).2 <= letter_count()
            }),
        },
    decreases resolve_all(store@, terms_of(args@), store@.len()), 0nat, 0nat,
{
    let ghost shapes = resolve_all(store@, terms_of(args@), store@.len());
    let ghost names0 = letters(*names);
    let ghost next0 = *uid as nat;
    proof {
        lemma_terms_of(args@);
        lemma_print_upto_grows(shapes, 0, shapes.len(), names0, next0);
    }
    if *uid > 26 {
        return None;
    }
    let mut docs: Vec<Document> = Vec::new();
    let mut i: usize = 0;
    while i < args.len()
        invariant
            i <= args.len(),
            store.wf(),
            shapes == resolve_all(store@, terms_of(args@), store@.len()),
            shapes.len() == args@.len(),
            forall|j: int| 0 <= j < args@.len() ==> #[trigger] terms_of(args@)[j] == args@[j]@,
            forall|j: int| 0 <= j < args@.len() ==> in_range(#[trigger] terms_of(args@)[j], store@.len()),
            forall|j: int| 0 <= j < i ==> printable(#[trigger] shapes[j]),
            names0 == letters(*old(names)),
            next0 == *old(uid),
            *uid <= letter_count(),
            (docs_of(docs@), letters(*names), *uid as nat) == print_upto(shapes, i as nat, names0, next0),
        decreases args.len() - i,
    {
        proof {
            lemma_print_upto_grows(shapes, (i + 1) as nat, shapes.len(), names0, next0);
            assert(shapes[i as int] == resolve(store@, args@[i as int]@));
            assert(in_range(terms_of(args@)[i as int], store@.len()));
        }
        let ghost before = docs_of(docs@);
        let d = match show(&args[i], store, names, uid) {
            Some(doc) => doc.group(),
            None => {
                proof {
                    if printable(shapes[i as int]) {
                        assert(print_upto(shapes, (i + 1) as nat, names0, next0).2
                            > letter_count());
                    }
                    assert(print_args(shapes, names0, next0).2 == print_upto(
                        shapes,
                        shapes.len(),
                        names0,
                        next0,
                    ).2);
                }
                return None;
            },
        };
        docs.push(d);
        proof {
            assert(docs_of(docs@) =~= before.push(d@));
        }
        i += 1;
    }
    Some(join_docs(intersperse(docs, break_(",", ", "))).nest(INDENT).append(break_(",", "")))
}

/// The document of a type, unless the type cannot be shown or the letters run out.
fn show(t: &Type, store: &Store, names: &mut im::HashMap<usize, String>, uid: &mut usize) -> (shown:
    Option<Document>)
    requires
        store.wf(),
        in_range(t@, store@.len()),
    ensures
        match shown {
            Some(doc) => {
                &&& showable(resolve(store@, t@), letters(*old(names)), *old(uid) as nat)
                &&& (doc@, letters(*final(names)), *final(uid) as nat) == print(
                    resolve(store@, t@),
                    letters(*old(names)),
                    *old(uid) as nat,
                )
            },
            None => !showable(resolve(store@, t@), letters(*old(names)), *old(uid) as nat),
        },
    decreases resolve(store@, t@), hops(store@, t@), 1nat,
{
    let ghost shape = resolve(store@, t@);
    let ghost n = store@.len();
    proof {
        lemma_print_grows(shape, letters(*names), *uid as nat);
    }
    if *uid > 26 {
        return None;
    }
    match t {
        Type::Const { name, .. } => Some(Document::Text(name.clone())),
        Type::App { name, args, .. } => {
            proof {
                lemma_terms_of(args@);
                assert(shape->App_args == resolve_all(store@, terms_of(args@), n));
            }
            match args_to_gleam_doc(args, store, names, uid) {
                Some(inner) => Some(
                    Document::Text(name.clone()).append(text("(")).append(inner).append(text(")")),
                ),
                None => None,
            }
        },
        Type::Fun { args, retrn } => {
            proof {
                lemma_terms_of(args@);
                assert(shape->Fun_args == resolve_all(store@, terms_of(args@), n));
                assert(*shape->retrn == resolve(store@, retrn@));
                let inner = print_args(shape->Fun_args, letters(*names), *uid as nat);
                lemma_print_grows(resolve(store@, retrn@), inner.1, inner.2);
            }
            let inner = match args_to_gleam_doc(args, store, names, uid) {
                Some(doc) => doc,
                None => {
                    return None;
                },
            };
            match show(retrn, store, names, uid) {
                Some(last) => Some(text("fn(").append(inner).append(text(") -> ")).append(last)),
                None => None,
            }
        },
        Type::Tuple { .. } => None,
        Type::Record { .. } => None,
        Type::Module { .. } => None,
        Type::Var { cell } => {
            proof {
                if store@[*cell as int] is Link {
                    lemma_resolve_link(store@, *cell as nat);
                }
            }
            match store.get(*cell) {
                TypeVar::Link { typ } => show(typ, store, names, uid),
                TypeVar::Unbound { id, .. } => show_var(*id, names, uid),
                TypeVar::Generic { id } => show_var(*id, names, uid),
            }
        },
    }
}

/// What a cell is seen as, by itself: what it links to where it is solved, else a generic
/// variable with its id. This is what is shown of it.
pub open spec fn slot_shape(slots: Seq<Slot>, s: Slot) -> Shape {
    match s {
        Slot::Link { term } => resolve(slots, term),
        Slot::Unbound { id, .. } => Shape::Generic { id },
        Slot::Generic { id } => Shape::Generic { id },
    }
}

/// The document of a cell by itself, unless it cannot be shown or the letters run out.
fn show_slot(
    var: &TypeVar,
    store: &Store,
    names: &mut im::HashMap<usize, String>,
    uid: &mut usize,
) -> (shown: Option<Document>)
    requires
        store.wf(),
        var@ matches Slot::Link { term } ==> in_range(term, store@.len()),
    ensures
        match shown {
            Some(doc) => {
                &&& showable(slot_shape(store@, var@), letters(*old(names)), *old(uid) as nat)
                &&& (doc@, letters(*final(names)), *final(uid) as nat) == print(
                    slot_shape(store@, var@),
                    letters(*old(names)),
                    *old(uid) as nat,
                )
            },
            None => !showable(slot_shape(store@, var@), letters(*old(names)), *old(uid) as nat),
        },
{
    match var {
        TypeVar::Link { typ } => show(typ, store, names, uid),
        TypeVar::Unbound { id, .. } => {
            if *uid > 26 {
                None
            } else {
                show_var(*id, names, uid)
            }
        },
        TypeVar::Generic { id } => {
            if *uid > 26 {
                None
            } else {
                show_var(*id, names, uid)
            }
        },
    }
}

/// A naming table that names no variable yet.
pub fn new_names() -> (names: im::HashMap<usize, String>)
    ensures
        letters(names) == (Map::<nat, Seq<char>>::empty()),
{
    no_letters()
}

impl Type {
    /// This type as text for lines of at most `limit` columns, with its variables named from
    /// `a` on in the order in which they are met; nothing where the type cannot be shown or the
    /// letters do not suffice.
    pub fn pretty(&self, store: &Store, limit: usize) -> (shown: Option<String>)
        requires
            store.wf(),
            in_range(self@, store@.len()),
        ensures
            match shown {
                Some(s) => showable(resolve(store@, self@), Map::empty(), 0) && s@ == layout(
                    print(resolve(store@, self@), Map::empty(), 0).0,
                    limit as nat,
                ),
                None => !showable(resolve(store@, self@), Map::empty(), 0),
            },
    {
        let mut names = new_names();
        let mut uid: usize = 0;
        match show(self, store, &mut names, &mut uid) {
            Some(doc) => Some(doc.format(limit)),
            None => None,
        }
    }

    /// The document that shows this type. The variables are named by `names`; one that has no
    /// name there gets the next that `uid` counts.
    pub fn to_gleam_doc(
        &self,
        store: &Store,
        names: &mut im::HashMap<usize, String>,
        uid: &mut usize,
    ) -> (doc: Document)
        requires
            store.wf(),
            in_range(self@, store@.len()),
            showable(resolve(store@, self@), letters(*old(names)), *old(uid) as nat),
        ensures
            (doc@, letters(*final(names)), *final(uid) as nat) == print(
                resolve(store@, self@),
                letters(*old(names)),
                *old(uid) as nat,
            ),
    {
        match show(self, store, names, uid) {
            Some(doc) => doc,
            None => unreached(),
        }
    }

    /// The document that shows this type, where it can be shown and the letters suffice.
    /// Where not, `names` and `uid` stay as they are.
    pub fn try_to_gleam_doc(
        &self,
        store: &Store,
        names: &mut im::HashMap<usize, String>,
        uid: &mut usize,
    ) -> (shown: Option<Document>)
        requires
            store.wf(),
            in_range(self@, store@.len()),
        ensures
            match shown {
                Some(doc) => {
                    &&& showable(resolve(store@, self@), letters(*old(names)), *old(uid) as nat)
                    &&& (doc@, letters(*final(names)), *final(uid) as nat) == print(
                        resolve(store@, self@),
                        letters(*old(names)),
                        *old(uid) as nat,
                    )
                },
                None => {
                    &&& !showable(resolve(store@, self@), letters(*old(names)), *old(uid) as nat)
                    &&& letters(*final(names)) == letters(*old(names))
                    &&& *final(uid) == *old(uid)
                },
            },
    {
        let mut trial = copy_letters(names);
        let mut next = *uid;
        match show(self, store, &mut trial, &mut next) {
            Some(doc) => {
                *names = trial;
                *uid = next;
                Some(doc)
            },
            None => None,
        }
    }
}

impl TypeVar {
    /// The document that shows this variable: what it links to where it is solved, else
    /// its name.
    pub fn to_gleam_doc(
        &self,
        store: &Store,
        names: &mut im::HashMap<usize, String>,
        uid: &mut usize,
    ) -> (doc: Document)
        requires
            store.wf(),
            self@ matches Slot::Link { term } ==> in_range(term, store@.len()),
            showable(slot_shape(store@, self@), letters(*old(names)), *old(uid) as nat),
        ensures
            (doc@, letters(*final(names)), *final(uid) as nat) == print(
                slot_shape(store@, self@),
                letters(*old(names)),
                *old(uid) as nat,
            ),
    {
        match show_slot(self, store, names, uid) {
            Some(doc) => doc,
            None => unreached(),
        }
    }

    /// The document that shows this variable, where it can be shown and the letters suffice.
    /// Where not, `names` and `uid` stay as they are.
    pub fn try_to_gleam_doc(
        &self,
        store: &Store,
        names: &mut im::HashMap<usize, String>,
        uid: &mut usize,
    ) -> (shown: Option<Document>)
        requires
            store.wf(),
            self@ matches Slot::Link { term } ==> in_range(term, store@.len()),
        ensures
            match shown {
                Some(doc) => {
                    &&& showable(slot_shape(store@, self@), letters(*old(names)), *old(uid) as nat)
                    &&& (doc@, letters(*final(names)), *final(uid) as nat) == print(
                        slot_shape(store@, self@),
                        letters(*old(names)),
                        *old(uid) as nat,
                    )
                },
                None => {
                    &&& !showable(slot_shape(store@, self@), letters(*old(names)), *old(uid) as nat)
                    &&& letters(*final(names)) == letters(*old(names))
                    &&& *final(uid) == *old(uid)
                },
            },
    {
        let mut trial = copy_letters(names);
        let mut next = *uid;
        match show_slot(self, store, &mut trial, &mut next) {
            Some(doc) => {
                *names = trial;
                *uid = next;
                Some(doc)
            },
            None => None,
        }
    }
}

} // verus!
