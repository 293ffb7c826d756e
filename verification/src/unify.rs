use crate::store::{
    below,
    hops,
    in_range,
    lemma_link_count_bound,
    lemma_resolve_link,
    bound_only,
    lemma_resolve_types,
    link_count,
    ranked,
    ranking,
    resolve,
    resolve_all,
    resolve_fields,
    well_formed,
    Shape,
    Store,
};
use crate::env::Env;
use crate::store::lemma_bound_only_keeps_ids;
use crate::typ::{clone_type, terms_of, Row, Slot, Term, Type, TypeVar};
use vstd::prelude::*;

verus! {

/// Every term of `ts` names only cells among the first `n`.
pub open spec fn all_in_range(ts: Seq<Term>, n: nat) -> bool {
    forall|i: int| 0 <= i < ts.len() ==> in_range(#[trigger] ts[i], n)
}

/// Every field of `fs` names only cells among the first `n`.
pub open spec fn fields_in_range(fs: Seq<(Seq<char>, Term)>, n: nat) -> bool {
    forall|i: int| 0 <= i < fs.len() ==> in_range((#[trigger] fs[i]).1, n)
}

/// What a term stands for once the links at its root are followed: a term that is no solved
/// variable.
pub open spec fn head(slots: Seq<Slot>, t: Term) -> Term
    decreases hops(slots, t),
    when well_formed(slots) && in_range(t, slots.len())
{
    match t {
        Term::Var { cell } => match slots[cell as int] {
            Slot::Link { term } => {
                proof {
                    lemma_resolve_link(slots, cell);
                }
                head(slots, term)
            },
            _ => t,
        },
        _ => t,
    }
}

/// A term for the same shape in which no solved variable is left.
pub open spec fn zonk(slots: Seq<Slot>, t: Term) -> Term
    decreases resolve(slots, t), hops(slots, t),
    when well_formed(slots) && in_range(t, slots.len())
{
    match t {
        Term::Const { .. } => t,
        Term::App { public, module, name, args } => {
            proof {
                assert(resolve(slots, t)->App_args == resolve_all(slots, args, slots.len()));
            }
            Term::App { public, module, name, args: zonk_all(slots, args) }
        },
        Term::Tuple { elems } => {
            proof {
                assert(resolve(slots, t)->elems == resolve_all(slots, elems, slots.len()));
            }
            Term::Tuple { elems: zonk_all(slots, elems) }
        },
        Term::Fun { args, retrn } => {
            proof {
                assert(resolve(slots, t)->Fun_args == resolve_all(slots, args, slots.len()));
                assert(*resolve(slots, t)->retrn == resolve(slots, *retrn));
            }
            Term::Fun { args: zonk_all(slots, args), retrn: Box::new(zonk(slots, *retrn)) }
        },
        Term::Record { fields } => {
            proof {
                assert(resolve(slots, t)->Record_fields == resolve_fields(
                    slots,
                    fields,
                    slots.len(),
                ));
            }
            Term::Record { fields: zonk_fields(slots, fields) }
        },
        Term::Module { fields } => {
            proof {
                assert(resolve(slots, t)->Module_fields == resolve_fields(
                    slots,
                    fields,
                    slots.len(),
                ));
            }
            Term::Module { fields: zonk_fields(slots, fields) }
        },
        Term::Var { cell } => match slots[cell as int] {
            Slot::Link { term } => {
                proof {
                    lemma_resolve_link(slots, cell);
                }
                zonk(slots, term)
            },
            _ => t,
        },
    }
}

/// Terms for the same shapes in which no solved variable is left.
pub open spec fn zonk_all(slots: Seq<Slot>, ts: Seq<Term>) -> Seq<Term>
    decreases resolve_all(slots, ts, slots.len()), 0nat,
    when well_formed(slots) && all_in_range(ts, slots.len())
{
    Seq::new(
        ts.len(),
        |i: int|
            if 0 <= i < ts.len() {
                proof {
                    assert(resolve_all(slots, ts, slots.len())[i] == resolve(slots, ts[i]));
                }
                zonk(slots, ts[i])
            } else {
                Term::Var { cell: 0 }
            },
    )
}

/// Fields for the same shapes in which no solved variable is left.
pub open spec fn zonk_fields(slots: Seq<Slot>, fs: Seq<(Seq<char>, Term)>) -> Seq<(Seq<char>, Term)>
    decreases resolve_fields(slots, fs, slots.len()), 0nat,
    when well_formed(slots) && fields_in_range(fs, slots.len())
{
    Seq::new(
        fs.len(),
        |i: int|
            if 0 <= i < fs.len() {
                proof {
                    assert(resolve_fields(slots, fs, slots.len())[i].1 == resolve(slots, fs[i].1));
                }
                (fs[i].0, zonk(slots, fs[i].1))
            } else {
                (Seq::empty(), Term::Var { cell: 0 })
            },
    )
}

/// No variable of `t` is solved, and each names a cell of `slots`.
pub open spec fn link_free(t: Term, slots: Seq<Slot>) -> bool {
    below(t, slots, Seq::<nat>::empty(), 0)
}

/// The head of a term is seen as the term is, and is no solved variable.
pub proof fn lemma_head(slots: Seq<Slot>, t: Term)
    requires
        well_formed(slots),
        in_range(t, slots.len()),
    ensures
        resolve(slots, head(slots, t)) == resolve(slots, t),
        in_range(head(slots, t), slots.len()),
        head(slots, t) matches Term::Var { cell } ==> !(slots[cell as int] is Link),
    decreases hops(slots, t),
{
    match t {
        Term::Var { cell } => match slots[cell as int] {
            Slot::Link { term } => {
                lemma_resolve_link(slots, cell);
                lemma_head(slots, term);
            },
            _ => {},
        },
        _ => {},
    }
}

/// What `zonk` gives is seen as the term is, and holds no solved variable.
pub proof fn lemma_zonk(slots: Seq<Slot>, t: Term)
    requires
        well_formed(slots),
        in_range(t, slots.len()),
    ensures
        resolve(slots, zonk(slots, t)) == resolve(slots, t),
        link_free(zonk(slots, t), slots),
        in_range(zonk(slots, t), slots.len()),
    decreases resolve(slots, t), hops(slots, t),
{
    let n = slots.len();
    let none = Seq::<nat>::empty();
    match t {
        Term::Const { .. } => {},
        Term::App { public, module, name, args } => {
            assert(resolve(slots, t)->App_args == resolve_all(slots, args, n));
            lemma_zonk_all(slots, args);
        },
        Term::Tuple { elems } => {
            assert(resolve(slots, t)->elems == resolve_all(slots, elems, n));
            lemma_zonk_all(slots, elems);
        },
        Term::Fun { args, retrn } => {
            assert(resolve(slots, t)->Fun_args == resolve_all(slots, args, n));
            assert(*resolve(slots, t)->retrn == resolve(slots, *retrn));
            lemma_zonk_all(slots, args);
            lemma_zonk(slots, *retrn);
        },
        Term::Record { fields } => {
            assert(resolve(slots, t)->Record_fields == resolve_fields(slots, fields, n));
            lemma_zonk_fields(slots, fields);
        },
        Term::Module { fields } => {
            assert(resolve(slots, t)->Module_fields == resolve_fields(slots, fields, n));
            lemma_zonk_fields(slots, fields);
        },
        Term::Var { cell } => match slots[cell as int] {
            Slot::Link { term } => {
                lemma_resolve_link(slots, cell);
                lemma_zonk(slots, term);
            },
            _ => {},
        },
    }
}

/// What `zonk_all` gives is seen as the terms are, and holds no solved variable.
pub proof fn lemma_zonk_all(slots: Seq<Slot>, ts: Seq<Term>)
    requires
        well_formed(slots),
        all_in_range(ts, slots.len()),
    ensures
        zonk_all(slots, ts).len() == ts.len(),
        resolve_all(slots, zonk_all(slots, ts), slots.len()) == resolve_all(slots, ts, slots.len()),
        forall|i: int|
            0 <= i < ts.len() ==> below(
                #[trigger] zonk_all(slots, ts)[i],
                slots,
                Seq::<nat>::empty(),
                0,
            ),
        all_in_range(zonk_all(slots, ts), slots.len()),
    decreases resolve_all(slots, ts, slots.len()), 0nat,
{
    let n = slots.len();
    assert forall|i: int| 0 <= i < ts.len() implies {
        &&& resolve(slots, #[trigger] zonk_all(slots, ts)[i]) == resolve(slots, ts[i])
        &&& link_free(zonk_all(slots, ts)[i], slots)
        &&& in_range(zonk_all(slots, ts)[i], n)
    } by {
        assert(resolve_all(slots, ts, n)[i] == resolve(slots, ts[i]));
        lemma_zonk(slots, ts[i]);
    }
    assert(resolve_all(slots, zonk_all(slots, ts), n) =~= resolve_all(slots, ts, n));
}

/// What `zonk_fields` gives is seen as the fields are, and holds no solved variable.
pub proof fn lemma_zonk_fields(slots: Seq<Slot>, fs: Seq<(Seq<char>, Term)>)
    requires
        well_formed(slots),
        fields_in_range(fs, slots.len()),
    ensures
        zonk_fields(slots, fs).len() == fs.len(),
        resolve_fields(slots, zonk_fields(slots, fs), slots.len()) == resolve_fields(
            slots,
            fs,
            slots.len(),
        ),
        forall|i: int|
            0 <= i < fs.len() ==> below(
                (#[trigger] zonk_fields(slots, fs)[i]).1,
                slots,
                Seq::<nat>::empty(),
                0,
            ),
        fields_in_range(zonk_fields(slots, fs), slots.len()),
    decreases resolve_fields(slots, fs, slots.len()), 0nat,
{
    let n = slots.len();
    assert forall|i: int| 0 <= i < fs.len() implies {
        &&& resolve(slots, (#[trigger] zonk_fields(slots, fs)[i]).1) == resolve(slots, fs[i].1)
        &&& zonk_fields(slots, fs)[i].0 == fs[i].0
        &&& link_free(zonk_fields(slots, fs)[i].1, slots)
        &&& in_range(zonk_fields(slots, fs)[i].1, n)
    } by {
        assert(resolve_fields(slots, fs, n)[i].1 == resolve(slots, fs[i].1));
        lemma_zonk(slots, fs[i].1);
    }
    assert(resolve_fields(slots, zonk_fields(slots, fs), n) =~= resolve_fields(slots, fs, n));
}

/// The unsolved variable with the number `id` stands somewhere in the shape.
pub open spec fn occurs(s: Shape, id: nat) -> bool
    decreases s,
{
    match s {
        Shape::App { args, .. } => exists|i: int| 0 <= i < args.len() && occurs(#[trigger] args[i], id),
        Shape::Tuple { elems } => exists|i: int|
            0 <= i < elems.len() && occurs(#[trigger] elems[i], id),
        Shape::Fun { args, retrn } => occurs(*retrn, id) || exists|i: int|
            0 <= i < args.len() && occurs(#[trigger] args[i], id),
        Shape::Record { fields } => exists|i: int|
            0 <= i < fields.len() && occurs((#[trigger] fields[i]).1, id),
        Shape::Module { fields } => exists|i: int|
            0 <= i < fields.len() && occurs((#[trigger] fields[i]).1, id),
        Shape::Unbound { id: found, .. } => found == id,
        _ => false,
    }
}

/// What a type stands for once the links at its root are followed.
pub fn head_of(store: &Store, t: &Type) -> (h: Type)
    requires
        store.wf(),
        in_range(t@, store@.len()),
    ensures
        h@ == head(store@, t@),
    decreases hops(store@, t@),
{
    match t {
        Type::Var { cell } => match store.get(*cell) {
            TypeVar::Link { typ } => {
                proof {
                    lemma_resolve_link(store@, *cell as nat);
                }
                head_of(store, typ)
            },
            _ => Type::Var { cell: *cell },
        },
        _ => clone_type(t),
    }
}

/// Types for the same shapes in which no solved variable is left.
fn zonk_types(store: &Store, ts: &Vec<Type>) -> (zs: Vec<Type>)
    requires
        store.wf(),
        all_in_range(terms_of(ts@), store@.len()),
    ensures
        terms_of(zs@) == zonk_all(store@, terms_of(ts@)),
    decreases resolve_all(store@, terms_of(ts@), store@.len()), 0nat,
{
    proof {
        lemma_resolve_types(store@, ts@);
    }
    let mut zs: Vec<Type> = Vec::new();
    let mut i: usize = 0;
    while i < ts.len()
        invariant
            i <= ts.len(),
            zs@.len() == i,
            store.wf(),
            all_in_range(terms_of(ts@), store@.len()),
            terms_of(ts@).len() == ts@.len(),
            forall|j: int| 0 <= j < ts@.len() ==> #[trigger] terms_of(ts@)[j] == ts@[j]@,
            forall|j: int|
                0 <= j < ts@.len() ==> #[trigger] resolve_all(
                    store@,
                    terms_of(ts@),
                    store@.len(),
                )[j] == resolve(store@, ts@[j]@),
            forall|j: int| 0 <= j < i ==> (#[trigger] zs@[j])@ == zonk(store@, ts@[j]@),
        decreases ts.len() - i,
    {
        proof {
            assert(in_range(terms_of(ts@)[i as int], store@.len()));
            assert(resolve_all(store@, terms_of(ts@), store@.len())[i as int] == resolve(
                store@,
                ts@[i as int]@,
            ));
        }
        let z = zonk_type(store, &ts[i]);
        zs.push(z);
        i += 1;
    }
    proof {
        crate::typ::lemma_terms_of(zs@);
        assert(terms_of(zs@) =~= zonk_all(store@, terms_of(ts@)));
    }
    zs
}

/// A row for the same shapes in which no solved variable is left.
fn zonk_row(store: &Store, r: &Row) -> (z: Row)
    requires
        store.wf(),
        fields_in_range(r@, store@.len()),
    ensures
        z@ == zonk_fields(store@, r@),
    decreases resolve_fields(store@, r@, store@.len()), 0nat,
{
    match r {
        Row::Nil => {
            proof {
                assert(Seq::<(Seq<char>, Term)>::empty() =~= zonk_fields(store@, r@));
            }
            Row::Nil
        },
        Row::Cons { label, head, tail } => {
            let ghost n = store@.len();
            let ghost shapes = resolve_fields(store@, r@, n);
            proof {
                assert(r@[0] == (label@, head@));
                assert forall|i: int| 0 <= i < tail@.len() implies in_range(
                    (#[trigger] tail@[i]).1,
                    n,
                ) by {
                    assert(tail@[i] == r@[i + 1]);
                }
                assert(shapes[0].1 == resolve(store@, head@));
                assert(resolve_fields(store@, tail@, n) =~= shapes.subrange(1, shapes.len() as int)) by {
                    assert forall|i: int| 0 <= i < tail@.len() implies #[trigger] resolve_fields(
                        store@,
                        tail@,
                        n,
                    )[i] == shapes[i + 1] by {
                        assert(tail@[i] == r@[i + 1]);
                    }
                }
            }
            let zhead = zonk_type(store, head);
            let ztail = zonk_row(store, tail);
            let z = Row::Cons { label: label.clone(), head: Box::new(zhead), tail: Box::new(ztail) };
            proof {
                assert forall|i: int| 0 <= i < r@.len() implies #[trigger] z@[i] == zonk_fields(
                    store@,
                    r@,
                )[i] by {
                    if i > 0 {
                        assert(r@[i] == tail@[i - 1]);
                        assert(z@[i] == ztail@[i - 1]);
                    }
                }
                assert(z@ =~= zonk_fields(store@, r@));
            }
            z
        },
    }
}

/// A type for the same shape in which no solved variable is left.
pub fn zonk_type(store: &Store, t: &Type) -> (z: Type)
    requires
        store.wf(),
        in_range(t@, store@.len()),
    ensures
        z@ == zonk(store@, t@),
    decreases resolve(store@, t@), hops(store@, t@),
{
    let ghost n = store@.len();
    match t {
        Type::Const { .. } => clone_type(t),
        Type::App { public, module, name, args } => {
            proof {
                assert(resolve(store@, t@)->App_args == resolve_all(store@, terms_of(args@), n));
            }
            Type::App {
                public: *public,
                module: module.clone(),
                name: name.clone(),
                args: zonk_types(store, args),
            }
        },
        Type::Tuple { elems } => {
            proof {
                assert(resolve(store@, t@)->elems == resolve_all(store@, terms_of(elems@), n));
            }
            Type::Tuple { elems: zonk_types(store, elems) }
        },
        Type::Fun { args, retrn } => {
            proof {
                assert(resolve(store@, t@)->Fun_args == resolve_all(store@, terms_of(args@), n));
                assert(*resolve(store@, t@)->retrn == resolve(store@, retrn@));
            }
            Type::Fun { args: zonk_types(store, args), retrn: Box::new(zonk_type(store, retrn)) }
        },
        Type::Record { row } => {
            proof {
                assert(resolve(store@, t@)->Record_fields == resolve_fields(store@, row@, n));
            }
            Type::Record { row: zonk_row(store, row) }
        },
        Type::Module { row } => {
            proof {
                assert(resolve(store@, t@)->Module_fields == resolve_fields(store@, row@, n));
            }
            Type::Module { row: zonk_row(store, row) }
        },
        Type::Var { cell } => match store.get(*cell) {
            TypeVar::Link { typ } => {
                proof {
                    lemma_resolve_link(store@, *cell as nat);
                }
                zonk_type(store, typ)
            },
            _ => Type::Var { cell: *cell },
        },
    }
}

/// Whether the unsolved variable with the number `id` stands in one of the types.
fn mentions_any(store: &Store, ts: &Vec<Type>, id: usize) -> (found: bool)
    requires
        forall|i: int| 0 <= i < ts@.len() ==> link_free(#[trigger] terms_of(ts@)[i], store@),
    ensures
        found == exists|i: int|
            0 <= i < ts@.len() && occurs(
                #[trigger] resolve_all(store@, terms_of(ts@), store@.len())[i],
                id as nat,
            ),
    decreases ts,
{
    let ghost shapes = resolve_all(store@, terms_of(ts@), store@.len());
    proof {
        lemma_resolve_types(store@, ts@);
    }
    let mut i: usize = 0;
    while i < ts.len()
        invariant
            i <= ts.len(),
            shapes == resolve_all(store@, terms_of(ts@), store@.len()),
            shapes.len() == ts@.len(),
            forall|j: int| 0 <= j < ts@.len() ==> link_free(#[trigger] terms_of(ts@)[j], store@),
            forall|j: int| 0 <= j < ts@.len() ==> #[trigger] terms_of(ts@)[j] == ts@[j]@,
            forall|j: int| 0 <= j < ts@.len() ==> #[trigger] shapes[j] == resolve(store@, ts@[j]@),
            forall|j: int| 0 <= j < i ==> !occurs(#[trigger] shapes[j], id as nat),
        decreases ts.len() - i,
    {
        proof {
            assert(link_free(terms_of(ts@)[i as int], store@));
        }
        if mentions(store, &ts[i], id) {
            proof {
                assert(occurs(shapes[i as int], id as nat));
            }
            return true;
        }
        i += 1;
    }
    false
}

/// Whether the unsolved variable with the number `id` stands in one of the fields.
fn mentions_row(store: &Store, r: &Row, id: usize) -> (found: bool)
    requires
        forall|i: int| 0 <= i < r@.len() ==> link_free((#[trigger] r@[i]).1, store@),
    ensures
        found == exists|i: int|
            0 <= i < r@.len() && occurs(
                (#[trigger] resolve_fields(store@, r@, store@.len())[i]).1,
                id as nat,
            ),
    decreases r,
{
    let ghost shapes = resolve_fields(store@, r@, store@.len());
    match r {
        Row::Nil => false,
        Row::Cons { label, head, tail } => {
            let ghost rest = resolve_fields(store@, tail@, store@.len());
            proof {
                assert(r@[0] == (label@, head@));
                assert forall|i: int| 0 <= i < tail@.len() implies link_free(
                    (#[trigger] tail@[i]).1,
                    store@,
                ) by {
                    assert(tail@[i] == r@[i + 1]);
                }
                assert forall|i: int| 0 <= i < tail@.len() implies #[trigger] rest[i] == shapes[i
                    + 1] by {
                    assert(tail@[i] == r@[i + 1]);
                }
            }
            if mentions(store, head, id) {
                proof {
                    assert(occurs(shapes[0].1, id as nat));
                }
                return true;
            }
            let found = mentions_row(store, tail, id);
            proof {
                if found {
                    let i = choose|i: int| 0 <= i < tail@.len() && occurs((#[trigger] rest[i]).1, id as nat);
                    assert(occurs(shapes[i + 1].1, id as nat));
                } else {
                    assert forall|i: int| 0 <= i < r@.len() implies !occurs(
                        (#[trigger] shapes[i]).1,
                        id as nat,
                    ) by {
                        if i > 0 {
                            assert(!occurs(rest[i - 1].1, id as nat));
                        }
                    }
                }
            }
            found
        },
    }
}

/// Whether the unsolved variable with the number `id` stands in a type without solved
/// variables.
pub fn mentions(store: &Store, z: &Type, id: usize) -> (found: bool)
    requires
        link_free(z@, store@),
    ensures
        found == occurs(resolve(store@, z@), id as nat),
    decreases z,
{
    let ghost n = store@.len();
    match z {
        Type::Const { .. } => false,
        Type::App { args, .. } => {
            proof {
                lemma_resolve_types(store@, args@);
                assert(resolve(store@, z@)->App_args == resolve_all(store@, terms_of(args@), n));
            }
            mentions_any(store, args, id)
        },
        Type::Tuple { elems } => {
            proof {
                lemma_resolve_types(store@, elems@);
                assert(resolve(store@, z@)->elems == resolve_all(store@, terms_of(elems@), n));
            }
            mentions_any(store, elems, id)
        },
        Type::Fun { args, retrn } => {
            proof {
                lemma_resolve_types(store@, args@);
                assert(resolve(store@, z@)->Fun_args == resolve_all(store@, terms_of(args@), n));
                assert(*resolve(store@, z@)->retrn == resolve(store@, retrn@));
            }
            if mentions(store, retrn, id) {
                true
            } else {
                mentions_any(store, args, id)
            }
        },
        Type::Record { row } => {
            proof {
                assert(resolve(store@, z@)->Record_fields == resolve_fields(store@, row@, n));
            }
            mentions_row(store, row, id)
        },
        Type::Module { row } => {
            proof {
                assert(resolve(store@, z@)->Module_fields == resolve_fields(store@, row@, n));
            }
            mentions_row(store, row, id)
        },
        Type::Var { cell } => match store.get(*cell) {
            TypeVar::Unbound { id: found, .. } => *found == id,
            _ => false,
        },
    }
}

/// Solving one more cell makes one more link.
pub proof fn lemma_link_count_update(slots: Seq<Slot>, cell: int, s: Slot)
    requires
        0 <= cell < slots.len(),
        !(slots[cell] is Link),
        s is Link,
    ensures
        link_count(slots.update(cell, s)) == link_count(slots) + 1,
{
    let after = slots.update(cell, s);
    let before_set = Set::new(|i: int| 0 <= i < slots.len() && slots[i] is Link);
    let after_set = Set::new(|i: int| 0 <= i < after.len() && after[i] is Link);
    lemma_link_count_bound(slots);
    assert(after_set =~= before_set.insert(cell));
}

/// The ranks after one more cell is solved: the new link has rank 1 and every other rank
/// has moved up by one.
pub open spec fn bumped(rank: Seq<nat>, cell: int) -> Seq<nat> {
    Seq::new(
        rank.len(),
        |k: int|
            if k == cell {
                1nat
            } else {
                rank[k] + 1
            },
    )
}

/// What was below a rank is below the next rank once one more cell is solved and the ranks
/// have moved up.
proof fn lemma_below_bump(t: Term, slots: Seq<Slot>, rank: Seq<nat>, r: nat, cell: int, s: Slot)
    requires
        below(t, slots, rank, r),
        r >= 1,
        0 <= cell < slots.len(),
        rank.len() == slots.len(),
    ensures
        below(t, slots.update(cell, s), bumped(rank, cell), r + 1),
    decreases t,
{
    let slots2 = slots.update(cell, s);
    let rank2 = bumped(rank, cell);
    match t {
        Term::Const { .. } => {},
        Term::App { args, .. } => {
            assert forall|i: int| 0 <= i < args.len() implies below(
                #[trigger] args[i],
                slots2,
                rank2,
                r + 1,
            ) by {
                lemma_below_bump(args[i], slots, rank, r, cell, s);
            }
        },
        Term::Tuple { elems } => {
            assert forall|i: int| 0 <= i < elems.len() implies below(
                #[trigger] elems[i],
                slots2,
                rank2,
                r + 1,
            ) by {
                lemma_below_bump(elems[i], slots, rank, r, cell, s);
            }
        },
        Term::Fun { args, retrn } => {
            lemma_below_bump(*retrn, slots, rank, r, cell, s);
            assert forall|i: int| 0 <= i < args.len() implies below(
                #[trigger] args[i],
                slots2,
                rank2,
                r + 1,
            ) by {
                lemma_below_bump(args[i], slots, rank, r, cell, s);
            }
        },
        Term::Record { fields } => {
            assert forall|i: int| 0 <= i < fields.len() implies below(
                (#[trigger] fields[i]).1,
                slots2,
                rank2,
                r + 1,
            ) by {
                lemma_below_bump(fields[i].1, slots, rank, r, cell, s);
            }
        },
        Term::Module { fields } => {
            assert forall|i: int| 0 <= i < fields.len() implies below(
                (#[trigger] fields[i]).1,
                slots2,
                rank2,
                r + 1,
            ) by {
                lemma_below_bump(fields[i].1, slots, rank, r, cell, s);
            }
        },
        Term::Var { cell: c } => {},
    }
}

/// A term without solved variables in which the variable of a cell does not occur stays
/// without solved variables when that cell is solved.
proof fn lemma_below_new_link(
    z: Term,
    slots: Seq<Slot>,
    cell: int,
    id: nat,
    s: Slot,
    rank2: Seq<nat>,
)
    requires
        link_free(z, slots),
        0 <= cell < slots.len(),
        slots[cell] matches Slot::Unbound { id: found, .. } && found == id,
        !occurs(resolve(slots, z), id),
    ensures
        below(z, slots.update(cell, s), rank2, 1),
    decreases z,
{
    let slots2 = slots.update(cell, s);
    let n = slots.len();
    match z {
        Term::Const { .. } => {},
        Term::App { args, .. } => {
            assert(resolve(slots, z)->App_args == resolve_all(slots, args, n));
            assert forall|i: int| 0 <= i < args.len() implies below(
                #[trigger] args[i],
                slots2,
                rank2,
                1,
            ) by {
                assert(resolve_all(slots, args, n)[i] == resolve(slots, args[i]));
                lemma_below_new_link(args[i], slots, cell, id, s, rank2);
            }
        },
        Term::Tuple { elems } => {
            assert(resolve(slots, z)->elems == resolve_all(slots, elems, n));
            assert forall|i: int| 0 <= i < elems.len() implies below(
                #[trigger] elems[i],
                slots2,
                rank2,
                1,
            ) by {
                assert(resolve_all(slots, elems, n)[i] == resolve(slots, elems[i]));
                lemma_below_new_link(elems[i], slots, cell, id, s, rank2);
            }
        },
        Term::Fun { args, retrn } => {
            assert(resolve(slots, z)->Fun_args == resolve_all(slots, args, n));
            assert(*resolve(slots, z)->retrn == resolve(slots, *retrn));
            lemma_below_new_link(*retrn, slots, cell, id, s, rank2);
            assert forall|i: int| 0 <= i < args.len() implies below(
                #[trigger] args[i],
                slots2,
                rank2,
                1,
            ) by {
                assert(resolve_all(slots, args, n)[i] == resolve(slots, args[i]));
                lemma_below_new_link(args[i], slots, cell, id, s, rank2);
            }
        },
        Term::Record { fields } => {
            assert(resolve(slots, z)->Record_fields == resolve_fields(slots, fields, n));
            assert forall|i: int| 0 <= i < fields.len() implies below(
                (#[trigger] fields[i]).1,
                slots2,
                rank2,
                1,
            ) by {
                assert(resolve_fields(slots, fields, n)[i].1 == resolve(slots, fields[i].1));
                lemma_below_new_link(fields[i].1, slots, cell, id, s, rank2);
            }
        },
        Term::Module { fields } => {
            assert(resolve(slots, z)->Module_fields == resolve_fields(slots, fields, n));
            assert forall|i: int| 0 <= i < fields.len() implies below(
                (#[trigger] fields[i]).1,
                slots2,
                rank2,
                1,
            ) by {
                assert(resolve_fields(slots, fields, n)[i].1 == resolve(slots, fields[i].1));
                lemma_below_new_link(fields[i].1, slots, cell, id, s, rank2);
            }
        },
        Term::Var { cell: c } => {},
    }
}

/// A well-formed store stays well-formed when an unsolved cell is linked to a term without
/// solved variables in which its variable does not occur.
pub proof fn lemma_bind_well_formed(slots: Seq<Slot>, cell: int, id: nat, z: Term)
    requires
        well_formed(slots),
        0 <= cell < slots.len(),
        slots[cell] matches Slot::Unbound { id: found, .. } && found == id,
        link_free(z, slots),
        !occurs(resolve(slots, z), id),
    ensures
        well_formed(slots.update(cell, Slot::Link { term: z })),
        link_count(slots.update(cell, Slot::Link { term: z })) == link_count(slots) + 1,
{
    let s = Slot::Link { term: z };
    let after = slots.update(cell, s);
    let rank = ranking(slots);
    let rank2 = bumped(rank, cell);
    lemma_link_count_update(slots, cell, s);
    assert forall|i: int| 0 <= i < after.len() implies (#[trigger] after[i] matches Slot::Link {
        term,
    } ==> {
        &&& 1 <= rank2[i] <= link_count(after)
        &&& below(term, after, rank2, rank2[i])
    }) by {
        if after[i] is Link {
            if i == cell {
                lemma_below_new_link(z, slots, cell, id, s, rank2);
            } else {
                assert(slots[i] == after[i]);
                lemma_below_bump(after[i]->term, slots, rank, rank[i], cell, s);
            }
        }
    }
    assert(ranked(after, rank2));
}

/// Links an unsolved cell to a type.
pub fn bind(store: &mut Store, cell: usize, z: Type)
    requires
        old(store).wf(),
        cell < old(store)@.len(),
        old(store)@[cell as int] matches Slot::Unbound { id, .. } && !occurs(
            resolve(old(store)@, z@),
            id,
        ),
        link_free(z@, old(store)@),
    ensures
        final(store).wf(),
        final(store)@ == old(store)@.update(cell as int, Slot::Link { term: z@ }),
        link_count(final(store)@) == link_count(old(store)@) + 1,
{
    proof {
        lemma_bind_well_formed(store@, cell as int, store@[cell as int]->Unbound_id, z@);
    }
    let ghost term = z@;
    store.cells.set(cell, TypeVar::Link { typ: Box::new(z) });
    proof {
        assert(store@ =~= old(store)@.update(cell as int, Slot::Link { term }));
    }
}

/// Why two types cannot be made the same.
#[derive(Debug)]
pub enum UnifyError {
    /// The two types differ in their shape or in their name.
    TypeMismatch { expected: Type, found: Type },
    /// The unsolved variable `id` would have to stand for `typ`, which contains it.
    RecursiveType { id: usize, typ: Type },
}

/// The mathematical value of a [`UnifyError`].
pub enum Clash {
    Mismatch { expected: Term, found: Term },
    Recursive { id: nat, term: Term },
}

/// What unification leaves: the cells, and the reason where it failed.
pub struct Unified {
    pub slots: Seq<Slot>,
    pub clash: Option<Clash>,
}

/// The value of what `unify` returns.
pub open spec fn clash_of(res: Result<(), UnifyError>) -> Option<Clash> {
    match res {
        Ok(_) => None,
        Err(UnifyError::TypeMismatch { expected, found }) => Some(
            Clash::Mismatch { expected: expected@, found: found@ },
        ),
        Err(UnifyError::RecursiveType { id, typ }) => Some(
            Clash::Recursive { id: id as nat, term: typ@ },
        ),
    }
}

/// The number of cells that are not solved.
pub open spec fn unsolved(slots: Seq<Slot>) -> nat {
    (slots.len() - link_count(slots)) as nat
}

/// `b` is `a`, or has as many cells and more of them solved.
pub open spec fn progress(a: Seq<Slot>, b: Seq<Slot>) -> bool {
    a.len() == b.len() && (b == a || link_count(b) > link_count(a))
}

/// The number of the unsolved variable that a term is, if it is one.
pub open spec fn unbound_id(slots: Seq<Slot>, t: Term) -> Option<nat> {
    match t {
        Term::Var { cell } => if cell < slots.len() {
            match slots[cell as int] {
                Slot::Unbound { id, .. } => Some(id),
                _ => None,
            }
        } else {
            None
        },
        _ => None,
    }
}

/// The number of the generic variable that a term is, if it is one.
pub open spec fn generic_id(slots: Seq<Slot>, t: Term) -> Option<nat> {
    match t {
        Term::Var { cell } => if cell < slots.len() {
            match slots[cell as int] {
                Slot::Generic { id } => Some(id),
                _ => None,
            }
        } else {
            None
        },
        _ => None,
    }
}

/// Unification has nothing to do.
pub open spec fn same(slots: Seq<Slot>) -> Unified {
    Unified { slots, clash: None }
}

/// Unification fails on two types that differ.
pub open spec fn mismatch(slots: Seq<Slot>, a: Term, b: Term) -> Unified {
    Unified { slots, clash: Some(Clash::Mismatch { expected: a, found: b }) }
}

/// The unsolved variable `id` of the cell `cell` meets `other`, which is no solved variable
/// and was passed as `given`. Where `other` is the same unsolved variable, nothing happens.
/// Where the variable occurs in `other`, unification fails and leaves the cells as they are.
/// Else the cell is linked to `other`.
pub open spec fn solve(slots: Seq<Slot>, cell: nat, id: nat, other: Term, given: Term) -> Unified {
    if unbound_id(slots, other) == Some(id) {
        same(slots)
    } else if occurs(resolve(slots, other), id) {
        Unified { slots, clash: Some(Clash::Recursive { id, term: given }) }
    } else {
        Unified {
            slots: slots.update(cell as int, Slot::Link { term: zonk(slots, other) }),
            clash: None,
        }
    }
}

/// What the unification of `a` and `b` leaves. Both are first taken through the links at
/// their root. An unsolved variable is then linked to the other side, the left one first.
/// Two generic variables must have the same number, two named types the same module and
/// name, two types with parts as many parts, which are unified in their order, the first
/// failure ending it. Everything else is a mismatch of `a` and `b`.
pub open spec fn unify_spec(slots: Seq<Slot>, a: Term, b: Term) -> Unified
    decreases unsolved(slots), resolve(slots, a), 0nat,
    when well_formed(slots) && in_range(a, slots.len()) && in_range(b, slots.len())
{
    let x = head(slots, a);
    let y = head(slots, b);
    let n = slots.len();
    match unbound_id(slots, x) {
        Some(id) => solve(slots, x->cell, id, y, b),
        None => match unbound_id(slots, y) {
            Some(id) => solve(slots, y->cell, id, x, a),
            None => match x {
                Term::Var { .. } => if y is Var && generic_id(slots, x) == generic_id(slots, y) {
                    same(slots)
                } else {
                    mismatch(slots, a, b)
                },
                Term::Const { module, name, .. } => if y is Const && y->Const_module == module
                    && y->Const_name == name {
                    same(slots)
                } else {
                    mismatch(slots, a, b)
                },
                Term::App { module, name, args, .. } => if y is App && y->App_module == module
                    && y->App_name == name && y->App_args.len() == args.len() {
                    proof {
                        lemma_head(slots, a);
                        lemma_head(slots, b);
                        assert(resolve(slots, x)->App_args == resolve_all(slots, args, n));
                    }
                    unify_list_spec(slots, args, y->App_args, 0)
                } else {
                    mismatch(slots, a, b)
                },
                Term::Tuple { elems } => if y is Tuple && y->elems.len() == elems.len() {
                    proof {
                        lemma_head(slots, a);
                        lemma_head(slots, b);
                        assert(resolve(slots, x)->elems == resolve_all(slots, elems, n));
                    }
                    unify_list_spec(slots, elems, y->elems, 0)
                } else {
                    mismatch(slots, a, b)
                },
                Term::Fun { args, retrn } => if y is Fun && y->Fun_args.len() == args.len() {
                    proof {
                        lemma_head(slots, a);
                        lemma_head(slots, b);
                        assert(resolve(slots, x)->Fun_args == resolve_all(slots, args, n));
                        assert(*resolve(slots, x)->retrn == resolve(slots, *retrn));
                    }
                    let r = unify_list_spec(slots, args, y->Fun_args, 0);
                    if r.clash is None && progress(slots, r.slots) {
                        proof {
                            lemma_link_count_bound(r.slots);
                            lemma_link_count_bound(slots);
                        }
                        unify_spec(r.slots, *retrn, *y->retrn)
                    } else {
                        r
                    }
                } else {
                    mismatch(slots, a, b)
                },
                _ => mismatch(slots, a, b),
            },
        },
    }
}

/// What the unification of `xs` and `ys` leaves, pair by pair from the pair `k` on. It ends
/// at the first pair that fails.
pub open spec fn unify_list_spec(slots: Seq<Slot>, xs: Seq<Term>, ys: Seq<Term>, k: nat) -> Unified
    decreases unsolved(slots), resolve_all(slots, xs, slots.len()), xs.len() - k,
    when well_formed(slots) && all_in_range(xs, slots.len()) && all_in_range(ys, slots.len())
        && xs.len() == ys.len()
{
    if k >= xs.len() {
        same(slots)
    } else {
        proof {
            assert(resolve_all(slots, xs, slots.len())[k as int] == resolve(slots, xs[k as int]));
        }
        let r = unify_spec(slots, xs[k as int], ys[k as int]);
        if r.clash is None && progress(slots, r.slots) {
            proof {
                lemma_link_count_bound(r.slots);
                lemma_link_count_bound(slots);
            }
            unify_list_spec(r.slots, xs, ys, k + 1)
        } else {
            r
        }
    }
}

/// The cell and the number of the unsolved variable that a type is, if it is one.
fn unbound_cell(store: &Store, t: &Type) -> (found: Option<(usize, usize)>)
    requires
        in_range(t@, store@.len()),
    ensures
        match found {
            Some((cell, id)) => t@ == (Term::Var { cell: cell as nat }) && unbound_id(store@, t@)
                == Some(id as nat),
            None => unbound_id(store@, t@) is None,
        },
{
    match t {
        Type::Var { cell } => match store.get(*cell) {
            TypeVar::Unbound { id, .. } => Some((*cell, *id)),
            _ => None,
        },
        _ => None,
    }
}

/// The number of the generic variable that a type is, if it is one.
fn generic_of(store: &Store, t: &Type) -> (found: Option<usize>)
    requires
        in_range(t@, store@.len()),
    ensures
        match found {
            Some(id) => generic_id(store@, t@) == Some(id as nat),
            None => generic_id(store@, t@) is None,
        },
{
    match t {
        Type::Var { cell } => match store.get(*cell) {
            TypeVar::Generic { id } => Some(*id),
            _ => None,
        },
        _ => None,
    }
}

/// The failure for two types that differ.
fn mismatched(a: &Type, b: &Type) -> (res: Result<(), UnifyError>)
    ensures
        clash_of(res) == Some(Clash::Mismatch { expected: a@, found: b@ }),
{
    Err(UnifyError::TypeMismatch { expected: clone_type(a), found: clone_type(b) })
}

/// Links the unsolved variable `id` of the cell `cell` to `other`, unless `other` is the same
/// variable or holds it.
fn solve_cell(store: &mut Store, cell: usize, id: usize, other: &Type, given: &Type) -> (res:
    Result<(), UnifyError>)
    requires
        old(store).wf(),
        cell < old(store)@.len(),
        old(store)@[cell as int] matches Slot::Unbound { id: found, .. } && found == id,
        in_range(other@, old(store)@.len()),
    ensures
        final(store).wf(),
        progress(old(store)@, final(store)@),
        bound_only(old(store)@, final(store)@),
        final(store)@ == solve(old(store)@, cell as nat, id as nat, other@, given@).slots,
        clash_of(res) == solve(old(store)@, cell as nat, id as nat, other@, given@).clash,
{
    match unbound_cell(store, other) {
        Some((_, found)) => {
            if found == id {
                return Ok(());
            }
        },
        None => {},
    }
    let z = zonk_type(store, other);
    proof {
        lemma_zonk(store@, other@);
    }
    if mentions(store, &z, id) {
        Err(UnifyError::RecursiveType { id, typ: clone_type(given) })
    } else {
        bind(store, cell, z);
        Ok(())
    }
}

/// Unifies two lists of types pair by pair from the pair `k` on, up to the first failure.
fn unify_from(store: &mut Store, xs: &Vec<Type>, ys: &Vec<Type>, k: usize) -> (res: Result<
    (),
    UnifyError,
>)
    requires
        old(store).wf(),
        all_in_range(terms_of(xs@), old(store)@.len()),
        all_in_range(terms_of(ys@), old(store)@.len()),
        xs@.len() == ys@.len(),
        k <= xs@.len(),
    ensures
        final(store).wf(),
        progress(old(store)@, final(store)@),
        bound_only(old(store)@, final(store)@),
        final(store)@ == unify_list_spec(old(store)@, terms_of(xs@), terms_of(ys@), k as nat).slots,
        clash_of(res) == unify_list_spec(old(store)@, terms_of(xs@), terms_of(ys@), k as nat).clash,
    decreases
            unsolved(old(store)@),
            resolve_all(old(store)@, terms_of(xs@), old(store)@.len()),
            xs@.len() - k,
{
    proof {
        lemma_resolve_types(store@, xs@);
        lemma_resolve_types(store@, ys@);
    }
    if k >= xs.len() {
        Ok(())
    } else {
        proof {
            assert(in_range(terms_of(xs@)[k as int], store@.len()));
            assert(in_range(terms_of(ys@)[k as int], store@.len()));
            assert(resolve_all(store@, terms_of(xs@), store@.len())[k as int] == resolve(
                store@,
                xs@[k as int]@,
            ));
        }
        match unify(store, &xs[k], &ys[k]) {
            Err(e) => Err(e),
            Ok(_) => {
                proof {
                    lemma_link_count_bound(store@);
                    lemma_link_count_bound(old(store)@);
                }
                unify_from(store, xs, ys, k + 1)
            },
        }
    }
}

/// Makes two types the same by solving unsolved variables of `store`, or says why they
/// cannot be.
pub fn unify(store: &mut Store, a: &Type, b: &Type) -> (res: Result<(), UnifyError>)
    requires
        old(store).wf(),
        in_range(a@, old(store)@.len()),
        in_range(b@, old(store)@.len()),
    ensures
        final(store).wf(),
        progress(old(store)@, final(store)@),
        bound_only(old(store)@, final(store)@),
        final(store)@ == unify_spec(old(store)@, a@, b@).slots,
        clash_of(res) == unify_spec(old(store)@, a@, b@).clash,
    decreases unsolved(old(store)@), resolve(old(store)@, a@), 0nat,
{
    let ghost n = store@.len();
    let x = head_of(store, a);
    let y = head_of(store, b);
    proof {
        lemma_head(store@, a@);
        lemma_head(store@, b@);
    }
    match unbound_cell(store, &x) {
        Some((cell, id)) => {
            return solve_cell(store, cell, id, &y, b);
        },
        None => {},
    }
    match unbound_cell(store, &y) {
        Some((cell, id)) => {
            return solve_cell(store, cell, id, &x, a);
        },
        None => {},
    }
    match &x {
        Type::Var { .. } => {
            match &y {
                Type::Var { .. } => {
                    let gx = generic_of(store, &x);
                    let gy = generic_of(store, &y);
                    match (gx, gy) {
                        (Some(i), Some(j)) => if i == j {
                            Ok(())
                        } else {
                            mismatched(a, b)
                        },
                        (None, None) => Ok(()),
                        _ => mismatched(a, b),
                    }
                },
                _ => mismatched(a, b),
            }
        },
        Type::Const { module, name, .. } => {
            match &y {
                Type::Const { module: other_module, name: other_name, .. } => {
                    if *other_module == *module && *other_name == *name {
                        Ok(())
                    } else {
                        mismatched(a, b)
                    }
                },
                _ => mismatched(a, b),
            }
        },
        Type::App { module, name, args, .. } => {
            match &y {
                Type::App { module: other_module, name: other_name, args: other_args, .. } => {
                    proof {
                        lemma_resolve_types(store@, args@);
                        lemma_resolve_types(store@, other_args@);
                    }
                    if *other_module == *module && *other_name == *name && other_args.len()
                        == args.len() {
                        proof {
                            assert(resolve(store@, x@)->App_args == resolve_all(
                                store@,
                                terms_of(args@),
                                n,
                            ));
                        }
                        unify_from(store, args, other_args, 0)
                    } else {
                        mismatched(a, b)
                    }
                },
                _ => mismatched(a, b),
            }
        },
        Type::Tuple { elems } => {
            match &y {
                Type::Tuple { elems: other_elems } => {
                    proof {
                        lemma_resolve_types(store@, elems@);
                        lemma_resolve_types(store@, other_elems@);
                    }
                    if other_elems.len() == elems.len() {
                        proof {
                            assert(resolve(store@, x@)->elems == resolve_all(
                                store@,
                                terms_of(elems@),
                                n,
                            ));
                        }
                        unify_from(store, elems, other_elems, 0)
                    } else {
                        mismatched(a, b)
                    }
                },
                _ => mismatched(a, b),
            }
        },
        Type::Fun { args, retrn } => {
            match &y {
                Type::Fun { args: other_args, retrn: other_retrn } => {
                    proof {
                        lemma_resolve_types(store@, args@);
                        lemma_resolve_types(store@, other_args@);
                    }
                    if other_args.len() == args.len() {
                        proof {
                            assert(resolve(store@, x@)->Fun_args == resolve_all(
                                store@,
                                terms_of(args@),
                                n,
                            ));
                            assert(*resolve(store@, x@)->retrn == resolve(store@, retrn@));
                        }
                        match unify_from(store, args, other_args, 0) {
                            Err(e) => Err(e),
                            Ok(_) => {
                                proof {
                                    lemma_link_count_bound(store@);
                                    lemma_link_count_bound(old(store)@);
                                }
                                unify(store, retrn, other_retrn)
                            },
                        }
                    } else {
                        mismatched(a, b)
                    }
                },
                _ => mismatched(a, b),
            }
        },
        _ => mismatched(a, b),
    }
}

/// Makes two types the same by solving unsolved variables of an environment, or says why
/// they cannot be. The names in scope and the counter stay as they are.
pub fn unify_in(env: &mut Env, a: &Type, b: &Type) -> (res: Result<(), UnifyError>)
    requires
        old(env).wf(),
        in_range(a@, old(env).store@.len()),
        in_range(b@, old(env).store@.len()),
    ensures
        final(env).wf(),
        final(env).uid == old(env).uid,
        final(env).variables == old(env).variables,
        final(env).store@ == unify_spec(old(env).store@, a@, b@).slots,
        clash_of(res) == unify_spec(old(env).store@, a@, b@).clash,
{
    let res = unify(&mut env.store, a, b);
    proof {
        lemma_bound_only_keeps_ids(old(env).store@, env.store@, env.uid as nat);
    }
    res
}

} // verus!
