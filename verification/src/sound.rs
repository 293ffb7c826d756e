use crate::store::{
    distinct_ids, hops, in_range, lemma_link_count_bound, lemma_resolve_link, resolve, resolve_all,
    resolve_fields, well_formed, Shape,
};
use crate::typ::{Slot, Term};
use crate::unify::{
    all_in_range,
    head,
    lemma_bind_well_formed,
    lemma_head,
    lemma_zonk,
    link_free,
    occurs,
    progress,
    solve,
    unbound_id,
    unify_list_spec,
    unify_spec,
    unsolved,
    zonk,
};
use vstd::prelude::*;

verus! {

/// A shape in which the unsolved variable of the cell `cell` is replaced by `w`.
pub open spec fn subst(x: Shape, cell: nat, w: Shape) -> Shape
    decreases x,
{
    match x {
        Shape::Unbound { cell: c, .. } => if c == cell {
            w
        } else {
            x
        },
        Shape::App { public, module, name, args } => Shape::App {
            public,
            module,
            name,
            args: subst_all(args, cell, w),
        },
        Shape::Tuple { elems } => Shape::Tuple { elems: subst_all(elems, cell, w) },
        Shape::Fun { args, retrn } => Shape::Fun {
            args: subst_all(args, cell, w),
            retrn: Box::new(subst(*retrn, cell, w)),
        },
        Shape::Record { fields } => Shape::Record { fields: subst_fields(fields, cell, w) },
        Shape::Module { fields } => Shape::Module { fields: subst_fields(fields, cell, w) },
        _ => x,
    }
}

/// Shapes in which the unsolved variable of the cell `cell` is replaced by `w`.
pub open spec fn subst_all(xs: Seq<Shape>, cell: nat, w: Shape) -> Seq<Shape>
    decreases xs,
{
    Seq::new(
        xs.len(),
        |i: int|
            if 0 <= i < xs.len() {
                subst(xs[i], cell, w)
            } else {
                Shape::Dangling { cell: 0 }
            },
    )
}

/// Fields in which the unsolved variable of the cell `cell` is replaced by `w`.
pub open spec fn subst_fields(fs: Seq<(Seq<char>, Shape)>, cell: nat, w: Shape) -> Seq<
    (Seq<char>, Shape),
>
    decreases fs,
{
    Seq::new(
        fs.len(),
        |i: int|
            if 0 <= i < fs.len() {
                (fs[i].0, subst(fs[i].1, cell, w))
            } else {
                (Seq::empty(), Shape::Dangling { cell: 0 })
            },
    )
}

/// The unsolved variable of the cell `cell` stands somewhere in the shape.
pub open spec fn touches(x: Shape, cell: nat) -> bool
    decreases x,
{
    match x {
        Shape::Unbound { cell: c, .. } => c == cell,
        Shape::App { args, .. } => exists|i: int| 0 <= i < args.len() && touches(#[trigger] args[i], cell),
        Shape::Tuple { elems } => exists|i: int|
            0 <= i < elems.len() && touches(#[trigger] elems[i], cell),
        Shape::Fun { args, retrn } => touches(*retrn, cell) || exists|i: int|
            0 <= i < args.len() && touches(#[trigger] args[i], cell),
        Shape::Record { fields } => exists|i: int|
            0 <= i < fields.len() && touches((#[trigger] fields[i]).1, cell),
        Shape::Module { fields } => exists|i: int|
            0 <= i < fields.len() && touches((#[trigger] fields[i]).1, cell),
        _ => false,
    }
}

/// A shape without regard to whether its named types are public.
pub open spec fn plain(x: Shape) -> Shape
    decreases x,
{
    match x {
        Shape::Const { module, name, .. } => Shape::Const { public: true, module, name },
        Shape::App { module, name, args, .. } => Shape::App {
            public: true,
            module,
            name,
            args: plain_all(args),
        },
        Shape::Tuple { elems } => Shape::Tuple { elems: plain_all(elems) },
        Shape::Fun { args, retrn } => Shape::Fun {
            args: plain_all(args),
            retrn: Box::new(plain(*retrn)),
        },
        Shape::Record { fields } => Shape::Record { fields: plain_fields(fields) },
        Shape::Module { fields } => Shape::Module { fields: plain_fields(fields) },
        _ => x,
    }
}

/// Shapes without regard to whether their named types are public.
pub open spec fn plain_all(xs: Seq<Shape>) -> Seq<Shape>
    decreases xs,
{
    Seq::new(
        xs.len(),
        |i: int|
            if 0 <= i < xs.len() {
                plain(xs[i])
            } else {
                Shape::Dangling { cell: 0 }
            },
    )
}

/// Fields without regard to whether their named types are public.
pub open spec fn plain_fields(fs: Seq<(Seq<char>, Shape)>) -> Seq<(Seq<char>, Shape)>
    decreases fs,
{
    Seq::new(
        fs.len(),
        |i: int|
            if 0 <= i < fs.len() {
                (fs[i].0, plain(fs[i].1))
            } else {
                (Seq::empty(), Shape::Dangling { cell: 0 })
            },
    )
}

/// Two terms stand for the same type: they are seen as the same shape but for whether the
/// named types in it are public.
pub open spec fn agree(slots: Seq<Slot>, a: Term, b: Term) -> bool {
    plain(resolve(slots, a)) == plain(resolve(slots, b))
}

/// Replacing a variable that does not stand in a shape changes nothing.
pub proof fn lemma_subst_untouched(x: Shape, cell: nat, w: Shape)
    requires
        !touches(x, cell),
    ensures
        subst(x, cell, w) == x,
    decreases x,
{
    match x {
        Shape::App { args, .. } => {
            assert forall|i: int| 0 <= i < args.len() implies subst(args[i], cell, w) == args[i] by {
                assert(!touches(args[i], cell));
                lemma_subst_untouched(args[i], cell, w);
            }
            assert(subst_all(args, cell, w) =~= args);
        },
        Shape::Tuple { elems } => {
            assert forall|i: int| 0 <= i < elems.len() implies subst(elems[i], cell, w)
                == elems[i] by {
                assert(!touches(elems[i], cell));
                lemma_subst_untouched(elems[i], cell, w);
            }
            assert(subst_all(elems, cell, w) =~= elems);
        },
        Shape::Fun { args, retrn } => {
            lemma_subst_untouched(*retrn, cell, w);
            assert forall|i: int| 0 <= i < args.len() implies subst(args[i], cell, w) == args[i] by {
                assert(!touches(args[i], cell));
                lemma_subst_untouched(args[i], cell, w);
            }
            assert(subst_all(args, cell, w) =~= args);
        },
        Shape::Record { fields } => {
            assert forall|i: int| 0 <= i < fields.len() implies subst(fields[i].1, cell, w)
                == fields[i].1 by {
                assert(!touches(fields[i].1, cell));
                lemma_subst_untouched(fields[i].1, cell, w);
            }
            assert(subst_fields(fields, cell, w) =~= fields);
        },
        Shape::Module { fields } => {
            assert forall|i: int| 0 <= i < fields.len() implies subst(fields[i].1, cell, w)
                == fields[i].1 by {
                assert(!touches(fields[i].1, cell));
                lemma_subst_untouched(fields[i].1, cell, w);
            }
            assert(subst_fields(fields, cell, w) =~= fields);
        },
        _ => {},
    }
}

/// Where the variable of an unsolved cell stands in what a term is seen as, the id of the
/// cell occurs in it.
pub proof fn lemma_touch_occurs(slots: Seq<Slot>, t: Term, cell: nat, id: nat)
    requires
        well_formed(slots),
        in_range(t, slots.len()),
        cell < slots.len(),
        slots[cell as int] matches Slot::Unbound { id: found, .. } && found == id,
        touches(resolve(slots, t), cell),
    ensures
        occurs(resolve(slots, t), id),
    decreases resolve(slots, t), hops(slots, t),
{
    let n = slots.len();
    match t {
        Term::Const { .. } => {},
        Term::App { args, .. } => {
            let shapes = resolve_all(slots, args, n);
            assert(resolve(slots, t)->App_args == shapes);
            let i = choose|i: int| 0 <= i < shapes.len() && touches(#[trigger] shapes[i], cell);
            assert(shapes[i] == resolve(slots, args[i]));
            lemma_touch_occurs(slots, args[i], cell, id);
        },
        Term::Tuple { elems } => {
            let shapes = resolve_all(slots, elems, n);
            assert(resolve(slots, t)->elems == shapes);
            let i = choose|i: int| 0 <= i < shapes.len() && touches(#[trigger] shapes[i], cell);
            assert(shapes[i] == resolve(slots, elems[i]));
            lemma_touch_occurs(slots, elems[i], cell, id);
        },
        Term::Fun { args, retrn } => {
            let shapes = resolve_all(slots, args, n);
            assert(resolve(slots, t)->Fun_args == shapes);
            assert(*resolve(slots, t)->retrn == resolve(slots, *retrn));
            if touches(resolve(slots, *retrn), cell) {
                lemma_touch_occurs(slots, *retrn, cell, id);
            } else {
                let i = choose|i: int| 0 <= i < shapes.len() && touches(#[trigger] shapes[i], cell);
                assert(shapes[i] == resolve(slots, args[i]));
                lemma_touch_occurs(slots, args[i], cell, id);
            }
        },
        Term::Record { fields } => {
            let shapes = resolve_fields(slots, fields, n);
            assert(resolve(slots, t)->Record_fields == shapes);
            let i = choose|i: int| 0 <= i < shapes.len() && touches((#[trigger] shapes[i]).1, cell);
            assert(shapes[i].1 == resolve(slots, fields[i].1));
            lemma_touch_occurs(slots, fields[i].1, cell, id);
        },
        Term::Module { fields } => {
            let shapes = resolve_fields(slots, fields, n);
            assert(resolve(slots, t)->Module_fields == shapes);
            let i = choose|i: int| 0 <= i < shapes.len() && touches((#[trigger] shapes[i]).1, cell);
            assert(shapes[i].1 == resolve(slots, fields[i].1));
            lemma_touch_occurs(slots, fields[i].1, cell, id);
        },
        Term::Var { cell: c } => match slots[c as int] {
            Slot::Link { term } => {
                lemma_resolve_link(slots, c);
                lemma_touch_occurs(slots, term, cell, id);
            },
            _ => {},
        },
    }
}

/// A term without solved variables in which the variable of a cell does not stand is seen
/// alike whatever that cell holds.
pub proof fn lemma_resolve_untouched(slots: Seq<Slot>, z: Term, cell: nat, s: Slot)
    requires
        link_free(z, slots),
        cell < slots.len(),
        slots[cell as int] is Unbound,
        !touches(resolve(slots, z), cell),
    ensures
        resolve(slots.update(cell as int, s), z) == resolve(slots, z),
    decreases z,
{
    let after = slots.update(cell as int, s);
    let n = slots.len();
    match z {
        Term::Const { .. } => {},
        Term::App { args, .. } => {
            assert(resolve(slots, z)->App_args == resolve_all(slots, args, n));
            assert forall|i: int| 0 <= i < args.len() implies resolve(after, args[i]) == resolve(
                slots,
                args[i],
            ) by {
                assert(resolve_all(slots, args, n)[i] == resolve(slots, args[i]));
                lemma_resolve_untouched(slots, args[i], cell, s);
            }
            assert(resolve_all(after, args, n) =~= resolve_all(slots, args, n));
        },
        Term::Tuple { elems } => {
            assert(resolve(slots, z)->elems == resolve_all(slots, elems, n));
            assert forall|i: int| 0 <= i < elems.len() implies resolve(after, elems[i]) == resolve(
                slots,
                elems[i],
            ) by {
                assert(resolve_all(slots, elems, n)[i] == resolve(slots, elems[i]));
                lemma_resolve_untouched(slots, elems[i], cell, s);
            }
            assert(resolve_all(after, elems, n) =~= resolve_all(slots, elems, n));
        },
        Term::Fun { args, retrn } => {
            assert(resolve(slots, z)->Fun_args == resolve_all(slots, args, n));
            assert(*resolve(slots, z)->retrn == resolve(slots, *retrn));
            lemma_resolve_untouched(slots, *retrn, cell, s);
            assert forall|i: int| 0 <= i < args.len() implies resolve(after, args[i]) == resolve(
                slots,
                args[i],
            ) by {
                assert(resolve_all(slots, args, n)[i] == resolve(slots, args[i]));
                lemma_resolve_untouched(slots, args[i], cell, s);
            }
            assert(resolve_all(after, args, n) =~= resolve_all(slots, args, n));
        },
        Term::Record { fields } => {
            assert(resolve(slots, z)->Record_fields == resolve_fields(slots, fields, n));
            assert forall|i: int| 0 <= i < fields.len() implies resolve(after, fields[i].1)
                == resolve(slots, fields[i].1) by {
                assert(resolve_fields(slots, fields, n)[i].1 == resolve(slots, fields[i].1));
                lemma_resolve_untouched(slots, fields[i].1, cell, s);
            }
            assert(resolve_fields(after, fields, n) =~= resolve_fields(slots, fields, n));
        },
        Term::Module { fields } => {
            assert(resolve(slots, z)->Module_fields == resolve_fields(slots, fields, n));
            assert forall|i: int| 0 <= i < fields.len() implies resolve(after, fields[i].1)
                == resolve(slots, fields[i].1) by {
                assert(resolve_fields(slots, fields, n)[i].1 == resolve(slots, fields[i].1));
                lemma_resolve_untouched(slots, fields[i].1, cell, s);
            }
            assert(resolve_fields(after, fields, n) =~= resolve_fields(slots, fields, n));
        },
        Term::Var { cell: c } => {},
    }
}

/// Once an unsolved cell is linked to a term, every term is seen as before with the
/// variable of that cell replaced by what the term is seen as.
pub proof fn lemma_resolve_bound(slots: Seq<Slot>, cell: nat, id: nat, z: Term, t: Term)
    requires
        well_formed(slots),
        cell < slots.len(),
        slots[cell as int] matches Slot::Unbound { id: found, .. } && found == id,
        link_free(z, slots),
        !occurs(resolve(slots, z), id),
        in_range(t, slots.len()),
    ensures
        resolve(slots.update(cell as int, Slot::Link { term: z }), t) == subst(
            resolve(slots, t),
            cell,
            resolve(slots, z),
        ),
    decreases resolve(slots, t), hops(slots, t),
{
    let s = Slot::Link { term: z };
    let after = slots.update(cell as int, s);
    let w = resolve(slots, z);
    let n = slots.len();
    lemma_bind_well_formed(slots, cell as int, id, z);
    match t {
        Term::Const { .. } => {},
        Term::App { args, .. } => {
            assert(resolve(slots, t)->App_args == resolve_all(slots, args, n));
            assert forall|i: int| 0 <= i < args.len() implies resolve(after, args[i]) == subst(
                resolve(slots, args[i]),
                cell,
                w,
            ) by {
                assert(resolve_all(slots, args, n)[i] == resolve(slots, args[i]));
                lemma_resolve_bound(slots, cell, id, z, args[i]);
            }
            assert(resolve_all(after, args, n) =~= subst_all(resolve_all(slots, args, n), cell, w));
        },
        Term::Tuple { elems } => {
            assert(resolve(slots, t)->elems == resolve_all(slots, elems, n));
            assert forall|i: int| 0 <= i < elems.len() implies resolve(after, elems[i]) == subst(
                resolve(slots, elems[i]),
                cell,
                w,
            ) by {
                assert(resolve_all(slots, elems, n)[i] == resolve(slots, elems[i]));
                lemma_resolve_bound(slots, cell, id, z, elems[i]);
            }
            assert(resolve_all(after, elems, n) =~= subst_all(
                resolve_all(slots, elems, n),
                cell,
                w,
            ));
        },
        Term::Fun { args, retrn } => {
            assert(resolve(slots, t)->Fun_args == resolve_all(slots, args, n));
            assert(*resolve(slots, t)->retrn == resolve(slots, *retrn));
            lemma_resolve_bound(slots, cell, id, z, *retrn);
            assert forall|i: int| 0 <= i < args.len() implies resolve(after, args[i]) == subst(
                resolve(slots, args[i]),
                cell,
                w,
            ) by {
                assert(resolve_all(slots, args, n)[i] == resolve(slots, args[i]));
                lemma_resolve_bound(slots, cell, id, z, args[i]);
            }
            assert(resolve_all(after, args, n) =~= subst_all(resolve_all(slots, args, n), cell, w));
        },
        Term::Record { fields } => {
            assert(resolve(slots, t)->Record_fields == resolve_fields(slots, fields, n));
            assert forall|i: int| 0 <= i < fields.len() implies resolve(after, fields[i].1)
                == subst(resolve(slots, fields[i].1), cell, w) by {
                assert(resolve_fields(slots, fields, n)[i].1 == resolve(slots, fields[i].1));
                lemma_resolve_bound(slots, cell, id, z, fields[i].1);
            }
            assert(resolve_fields(after, fields, n) =~= subst_fields(
                resolve_fields(slots, fields, n),
                cell,
                w,
            ));
        },
        Term::Module { fields } => {
            assert(resolve(slots, t)->Module_fields == resolve_fields(slots, fields, n));
            assert forall|i: int| 0 <= i < fields.len() implies resolve(after, fields[i].1)
                == subst(resolve(slots, fields[i].1), cell, w) by {
                assert(resolve_fields(slots, fields, n)[i].1 == resolve(slots, fields[i].1));
                lemma_resolve_bound(slots, cell, id, z, fields[i].1);
            }
            assert(resolve_fields(after, fields, n) =~= subst_fields(
                resolve_fields(slots, fields, n),
                cell,
                w,
            ));
        },
        Term::Var { cell: c } => {
            if c == cell {
                lemma_resolve_link(after, cell);
                if touches(w, cell) {
                    lemma_below_in_range_free(z, slots);
                    lemma_touch_occurs(slots, z, cell, id);
                }
                lemma_resolve_untouched(slots, z, cell, s);
            } else {
                match slots[c as int] {
                    Slot::Link { term } => {
                        lemma_resolve_link(slots, c);
                        lemma_resolve_link(after, c);
                        lemma_resolve_bound(slots, cell, id, z, term);
                    },
                    _ => {},
                }
            }
        },
    }
}

/// A term without solved variables names only cells of the store.
pub proof fn lemma_below_in_range_free(z: Term, slots: Seq<Slot>)
    requires
        link_free(z, slots),
    ensures
        in_range(z, slots.len()),
{
    crate::store::lemma_below_in_range(z, slots, Seq::<nat>::empty(), 0);
}

/// Replacing a variable in two shapes that are the same, but for what is public, leaves
/// them so.
pub proof fn lemma_plain_subst(x: Shape, y: Shape, cell: nat, w: Shape)
    requires
        plain(x) == plain(y),
    ensures
        plain(subst(x, cell, w)) == plain(subst(y, cell, w)),
    decreases x,
{
    match x {
        Shape::App { args, .. } => {
            let others = y->App_args;
            assert(plain_all(args) == plain_all(others));
            assert(args.len() == others.len());
            assert forall|i: int| 0 <= i < args.len() implies plain(subst(args[i], cell, w))
                == plain(subst(others[i], cell, w)) by {
                assert(plain_all(args)[i] == plain_all(others)[i]);
                lemma_plain_subst(args[i], others[i], cell, w);
            }
            assert(plain_all(subst_all(args, cell, w)) =~= plain_all(subst_all(others, cell, w)));
        },
        Shape::Tuple { elems } => {
            let others = y->elems;
            assert(plain_all(elems) == plain_all(others));
            assert(elems.len() == others.len());
            assert forall|i: int| 0 <= i < elems.len() implies plain(subst(elems[i], cell, w))
                == plain(subst(others[i], cell, w)) by {
                assert(plain_all(elems)[i] == plain_all(others)[i]);
                lemma_plain_subst(elems[i], others[i], cell, w);
            }
            assert(plain_all(subst_all(elems, cell, w)) =~= plain_all(subst_all(others, cell, w)));
        },
        Shape::Fun { args, retrn } => {
            let others = y->Fun_args;
            assert(plain_all(args) == plain_all(others));
            assert(args.len() == others.len());
            assert(plain(*retrn) == plain(*y->retrn));
            lemma_plain_subst(*retrn, *y->retrn, cell, w);
            assert forall|i: int| 0 <= i < args.len() implies plain(subst(args[i], cell, w))
                == plain(subst(others[i], cell, w)) by {
                assert(plain_all(args)[i] == plain_all(others)[i]);
                lemma_plain_subst(args[i], others[i], cell, w);
            }
            assert(plain_all(subst_all(args, cell, w)) =~= plain_all(subst_all(others, cell, w)));
        },
        Shape::Record { fields } => {
            let others = y->Record_fields;
            assert(plain_fields(fields) == plain_fields(others));
            assert(fields.len() == others.len());
            assert forall|i: int| 0 <= i < fields.len() implies {
                &&& plain(subst(fields[i].1, cell, w)) == plain(subst(others[i].1, cell, w))
                &&& fields[i].0 == others[i].0
            } by {
                assert(plain_fields(fields)[i] == plain_fields(others)[i]);
                lemma_plain_subst(fields[i].1, others[i].1, cell, w);
            }
            assert(plain_fields(subst_fields(fields, cell, w)) =~= plain_fields(
                subst_fields(others, cell, w),
            ));
        },
        Shape::Module { fields } => {
            let others = y->Module_fields;
            assert(plain_fields(fields) == plain_fields(others));
            assert(fields.len() == others.len());
            assert forall|i: int| 0 <= i < fields.len() implies {
                &&& plain(subst(fields[i].1, cell, w)) == plain(subst(others[i].1, cell, w))
                &&& fields[i].0 == others[i].0
            } by {
                assert(plain_fields(fields)[i] == plain_fields(others)[i]);
                lemma_plain_subst(fields[i].1, others[i].1, cell, w);
            }
            assert(plain_fields(subst_fields(fields, cell, w)) =~= plain_fields(
                subst_fields(others, cell, w),
            ));
        },
        _ => {},
    }
}

/// What `solve` leaves is a well-formed store with as many cells, in which no two unsolved
/// cells hold the same id; and two terms that stood for the same type still do.
pub proof fn lemma_solve(
    slots: Seq<Slot>,
    cell: nat,
    id: nat,
    other: Term,
    given: Term,
    p: Term,
    q: Term,
)
    requires
        well_formed(slots),
        distinct_ids(slots),
        cell < slots.len(),
        slots[cell as int] matches Slot::Unbound { id: found, .. } && found == id,
        in_range(other, slots.len()),
        in_range(p, slots.len()),
        in_range(q, slots.len()),
    ensures
        well_formed(solve(slots, cell, id, other, given).slots),
        distinct_ids(solve(slots, cell, id, other, given).slots),
        progress(slots, solve(slots, cell, id, other, given).slots),
        agree(slots, p, q) ==> agree(solve(slots, cell, id, other, given).slots, p, q),
        solve(slots, cell, id, other, given).clash is None ==> agree(
            solve(slots, cell, id, other, given).slots,
            Term::Var { cell },
            other,
        ),
{
    let r = solve(slots, cell, id, other, given);
    let me = Term::Var { cell };
    if unbound_id(slots, other) == Some(id) {
        assert(other == me);
    } else if occurs(resolve(slots, other), id) {
    } else {
        let z = zonk(slots, other);
        let w = resolve(slots, z);
        lemma_zonk(slots, other);
        lemma_bind_well_formed(slots, cell as int, id, z);
        lemma_resolve_bound(slots, cell, id, z, p);
        lemma_resolve_bound(slots, cell, id, z, q);
        if agree(slots, p, q) {
            lemma_plain_subst(resolve(slots, p), resolve(slots, q), cell, w);
        }
        lemma_resolve_bound(slots, cell, id, z, me);
        lemma_resolve_bound(slots, cell, id, z, other);
        if touches(w, cell) {
            lemma_touch_occurs(slots, other, cell, id);
        }
        lemma_subst_untouched(w, cell, w);
    }
}

/// Unification leaves a well-formed store with as many cells, in which no two unsolved cells
/// hold the same id; two terms that stood for the same type still do; and where it
/// succeeds, the two terms it was given stand for the same type.
pub proof fn lemma_unify(slots: Seq<Slot>, a: Term, b: Term, p: Term, q: Term)
    requires
        well_formed(slots),
        distinct_ids(slots),
        in_range(a, slots.len()),
        in_range(b, slots.len()),
        in_range(p, slots.len()),
        in_range(q, slots.len()),
    ensures
        well_formed(unify_spec(slots, a, b).slots),
        distinct_ids(unify_spec(slots, a, b).slots),
        progress(slots, unify_spec(slots, a, b).slots),
        agree(slots, p, q) ==> agree(unify_spec(slots, a, b).slots, p, q),
        unify_spec(slots, a, b).clash is None ==> agree(unify_spec(slots, a, b).slots, a, b),
    decreases unsolved(slots), resolve(slots, a), 0nat,
{
    let x = head(slots, a);
    let y = head(slots, b);
    let n = slots.len();
    let r = unify_spec(slots, a, b);
    lemma_head(slots, a);
    lemma_head(slots, b);
    match unbound_id(slots, x) {
        Some(id) => {
            lemma_solve(slots, x->cell, id, y, b, p, q);
            lemma_solve(slots, x->cell, id, y, b, a, x);
            lemma_solve(slots, x->cell, id, y, b, b, y);
        },
        None => match unbound_id(slots, y) {
            Some(id) => {
                lemma_solve(slots, y->cell, id, x, a, p, q);
                lemma_solve(slots, y->cell, id, x, a, a, x);
                lemma_solve(slots, y->cell, id, x, a, b, y);
            },
            None => match x {
                Term::App { module, name, args, .. } => {
                    if y is App && y->App_module == module && y->App_name == name
                        && y->App_args.len() == args.len() {
                        let others = y->App_args;
                        assert(resolve(slots, x)->App_args == resolve_all(slots, args, n));
                        lemma_unify_list(slots, args, others, 0, p, q);
                        lemma_unify_list(slots, args, others, 0, a, x);
                        lemma_unify_list(slots, args, others, 0, b, y);
                        if r.clash is None {
                            assert(plain_all(resolve_all(r.slots, args, n)) =~= plain_all(
                                resolve_all(r.slots, others, n),
                            )) by {
                                assert forall|i: int| 0 <= i < args.len() implies plain(
                                    resolve_all(r.slots, args, n)[i],
                                ) == plain(resolve_all(r.slots, others, n)[i]) by {
                                    assert(agree(r.slots, args[i], others[i]));
                                }
                            }
                        }
                    }
                },
                Term::Tuple { elems } => {
                    if y is Tuple && y->elems.len() == elems.len() {
                        let others = y->elems;
                        assert(resolve(slots, x)->elems == resolve_all(slots, elems, n));
                        lemma_unify_list(slots, elems, others, 0, p, q);
                        lemma_unify_list(slots, elems, others, 0, a, x);
                        lemma_unify_list(slots, elems, others, 0, b, y);
                        if r.clash is None {
                            assert(plain_all(resolve_all(r.slots, elems, n)) =~= plain_all(
                                resolve_all(r.slots, others, n),
                            )) by {
                                assert forall|i: int| 0 <= i < elems.len() implies plain(
                                    resolve_all(r.slots, elems, n)[i],
                                ) == plain(resolve_all(r.slots, others, n)[i]) by {
                                    assert(agree(r.slots, elems[i], others[i]));
                                }
                            }
                        }
                    }
                },
                Term::Fun { args, retrn } => {
                    if y is Fun && y->Fun_args.len() == args.len() {
                        let others = y->Fun_args;
                        let last = *y->retrn;
                        assert(resolve(slots, x)->Fun_args == resolve_all(slots, args, n));
                        assert(*resolve(slots, x)->retrn == resolve(slots, *retrn));
                        let first = unify_list_spec(slots, args, others, 0);
                        lemma_unify_list(slots, args, others, 0, p, q);
                        lemma_unify_list(slots, args, others, 0, a, x);
                        lemma_unify_list(slots, args, others, 0, b, y);
                        if first.clash is None {
                            lemma_link_count_bound(first.slots);
                            lemma_link_count_bound(slots);
                            lemma_unify(first.slots, *retrn, last, p, q);
                            lemma_unify(first.slots, *retrn, last, a, x);
                            lemma_unify(first.slots, *retrn, last, b, y);
                            if r.clash is None {
                                assert(plain_all(resolve_all(r.slots, args, n)) =~= plain_all(
                                    resolve_all(r.slots, others, n),
                                )) by {
                                    assert forall|i: int| 0 <= i < args.len() implies plain(
                                        resolve_all(r.slots, args, n)[i],
                                    ) == plain(resolve_all(r.slots, others, n)[i]) by {
                                        assert(agree(first.slots, args[i], others[i]));
                                        lemma_unify(first.slots, *retrn, last, args[i], others[i]);
                                    }
                                }
                            }
                        }
                    }
                },
                _ => {},
            },
        },
    }
}

/// Unification of two lists from the pair `k` on: as `lemma_unify`, and where it succeeds
/// each of the pairs from `k` on stands for the same type.
pub proof fn lemma_unify_list(
    slots: Seq<Slot>,
    xs: Seq<Term>,
    ys: Seq<Term>,
    k: nat,
    p: Term,
    q: Term,
)
    requires
        well_formed(slots),
        distinct_ids(slots),
        all_in_range(xs, slots.len()),
        all_in_range(ys, slots.len()),
        xs.len() == ys.len(),
        in_range(p, slots.len()),
        in_range(q, slots.len()),
    ensures
        well_formed(unify_list_spec(slots, xs, ys, k).slots),
        distinct_ids(unify_list_spec(slots, xs, ys, k).slots),
        progress(slots, unify_list_spec(slots, xs, ys, k).slots),
        agree(slots, p, q) ==> agree(unify_list_spec(slots, xs, ys, k).slots, p, q),
        unify_list_spec(slots, xs, ys, k).clash is None ==> forall|i: int|
            k <= i < xs.len() ==> agree(
                unify_list_spec(slots, xs, ys, k).slots,
                #[trigger] xs[i],
                ys[i],
            ),
    decreases unsolved(slots), resolve_all(slots, xs, slots.len()), xs.len() - k,
{
    if k < xs.len() {
        let x = xs[k as int];
        let y = ys[k as int];
        assert(resolve_all(slots, xs, slots.len())[k as int] == resolve(slots, x));
        let first = unify_spec(slots, x, y);
        lemma_unify(slots, x, y, p, q);
        if first.clash is None {
            lemma_link_count_bound(first.slots);
            lemma_link_count_bound(slots);
            let r = unify_list_spec(first.slots, xs, ys, k + 1);
            lemma_unify_list(first.slots, xs, ys, k + 1, p, q);
            lemma_unify_list(first.slots, xs, ys, k + 1, x, y);
            assert(r == unify_list_spec(slots, xs, ys, k));
        }
    }
}

} // verus!
