use crate::store::{
    extends, hops, in_range, lemma_in_range_more, lemma_in_range_types, lemma_resolve_extends,
    lemma_resolve_link, lemma_resolve_types, resolve, resolve_all, well_formed, Shape, Store,
};
use crate::env::Env;
use crate::typ::{clone_type, terms_of, Slot, Type, TypeVar};
use vstd::prelude::*;

verus! {

/// A shape with its unsolved variables of a level above `level` made generic.
pub open spec fn generalised(s: Shape, level: nat) -> Shape
    decreases s,
{
    match s {
        Shape::App { public, module, name, args } => Shape::App {
            public,
            module,
            name,
            args: generalised_all(args, level),
        },
        Shape::Tuple { elems } => Shape::Tuple { elems: generalised_all(elems, level) },
        Shape::Fun { args, retrn } => Shape::Fun {
            args: generalised_all(args, level),
            retrn: Box::new(generalised(*retrn, level)),
        },
        Shape::Unbound { id, level: made_at, .. } => if made_at > level {
            Shape::Generic { id }
        } else {
            s
        },
        _ => s,
    }
}

/// Each of the shapes with its unsolved variables of a level above `level` made generic.
pub open spec fn generalised_all(ss: Seq<Shape>, level: nat) -> Seq<Shape>
    decreases ss,
{
    Seq::new(
        ss.len(),
        |i: int|
            if 0 <= i < ss.len() {
                generalised(ss[i], level)
            } else {
                Shape::Dangling { cell: 0 }
            },
    )
}

/// The cells of `b` after those of `a` all hold generic variables.
pub open spec fn grown_by_generics(a: Seq<Slot>, b: Seq<Slot>) -> bool {
    &&& extends(a, b)
    &&& forall|i: int| a.len() <= i < b.len() ==> #[trigger] b[i] is Generic
}

/// Types like `args`, one by one, in which the unsolved variables of a level above `level`
/// are generic.
fn generalise_all(store: &mut Store, args: &Vec<Type>, level: usize) -> (res: Vec<Type>)
    requires
        old(store).wf(),
        forall|i: int| 0 <= i < args@.len() ==> in_range(#[trigger] args@[i]@, old(store)@.len()),
    ensures
        final(store).wf(),
        grown_by_generics(old(store)@, final(store)@),
        res@.len() == args@.len(),
        forall|i: int|
            0 <= i < args@.len() ==> {
                &&& in_range(#[trigger] res@[i]@, final(store)@.len())
                &&& resolve(final(store)@, res@[i]@) == generalised(
                    resolve(old(store)@, args@[i]@),
                    level as nat,
                )
            },
    decreases resolve_all(old(store)@, terms_of(args@), old(store)@.len()), 0nat, 0nat,
{
    let ghost before = store@;
    let ghost shapes = resolve_all(before, terms_of(args@), before.len());
    proof {
        lemma_resolve_types(before, args@);
    }
    let mut res: Vec<Type> = Vec::new();
    let mut i: usize = 0;
    while i < args.len()
        invariant
            i <= args.len(),
            res@.len() == i,
            store.wf(),
            before == old(store)@,
            well_formed(before),
            shapes == resolve_all(before, terms_of(args@), before.len()),
            shapes.len() == args@.len(),
            forall|j: int| 0 <= j < args@.len() ==> #[trigger] shapes[j] == resolve(before, args@[j]@),
            grown_by_generics(before, store@),
            forall|j: int| 0 <= j < args@.len() ==> in_range(#[trigger] args@[j]@, before.len()),
            forall|j: int|
                0 <= j < i ==> {
                    &&& in_range(#[trigger] res@[j]@, store@.len())
                    &&& resolve(store@, res@[j]@) == generalised(
                        resolve(before, args@[j]@),
                        level as nat,
                    )
                },
        decreases args.len() - i,
    {
        let ghost mid = store@;
        proof {
            lemma_resolve_extends(before, mid, args@[i as int]@);
            lemma_in_range_more(args@[i as int]@, before.len(), mid.len());
            assert(shapes[i as int] == resolve(before, args@[i as int]@));
            assert(resolve(mid, args@[i as int]@) == shapes[i as int]);
        }
        let g = generalise_ref(store, &args[i], level);
        proof {
            assert forall|j: int| 0 <= j < i implies {
                &&& in_range(#[trigger] res@[j]@, store@.len())
                &&& resolve(store@, res@[j]@) == generalised(
                    resolve(before, args@[j]@),
                    level as nat,
                )
            } by {
                lemma_resolve_extends(mid, store@, res@[j]@);
                lemma_in_range_more(res@[j]@, mid.len(), store@.len());
            }
        }
        res.push(g);
        i += 1;
    }
    res
}

/// A type like `t` in which the unsolved variables of a level above `level` are generic.
pub fn generalise_ref(store: &mut Store, t: &Type, level: usize) -> (res: Type)
    requires
        old(store).wf(),
        in_range(t@, old(store)@.len()),
    ensures
        final(store).wf(),
        grown_by_generics(old(store)@, final(store)@),
        in_range(res@, final(store)@.len()),
        resolve(final(store)@, res@) == generalised(resolve(old(store)@, t@), level as nat),
    decreases resolve(old(store)@, t@), hops(old(store)@, t@), 1nat,
{
    match t {
        Type::Const { .. } => clone_type(t),
        Type::App { public, module, name, args } => {
            proof {
                lemma_resolve_types(store@, args@);
                lemma_in_range_types(args@, store@.len());
            }
            let gs = generalise_all(store, args, level);
            proof {
                lemma_resolve_types(store@, gs@);
                lemma_in_range_types(gs@, store@.len());
                assert(resolve_all(store@, terms_of(gs@), store@.len()) =~= generalised_all(
                    resolve_all(old(store)@, terms_of(args@), old(store)@.len()),
                    level as nat,
                ));
            }
            Type::App { public: *public, module: module.clone(), name: name.clone(), args: gs }
        },
        Type::Tuple { elems } => {
            proof {
                lemma_resolve_types(store@, elems@);
                lemma_in_range_types(elems@, store@.len());
            }
            let gs = generalise_all(store, elems, level);
            proof {
                lemma_resolve_types(store@, gs@);
                lemma_in_range_types(gs@, store@.len());
                assert(resolve_all(store@, terms_of(gs@), store@.len()) =~= generalised_all(
                    resolve_all(old(store)@, terms_of(elems@), old(store)@.len()),
                    level as nat,
                ));
            }
            Type::Tuple { elems: gs }
        },
        Type::Fun { args, retrn } => {
            proof {
                lemma_resolve_types(store@, args@);
                lemma_in_range_types(args@, store@.len());
            }
            let gs = generalise_all(store, args, level);
            let ghost mid = store@;
            proof {
                lemma_resolve_extends(old(store)@, mid, retrn@);
                lemma_in_range_more(retrn@, old(store)@.len(), mid.len());
            }
            let r = generalise_ref(store, retrn, level);
            proof {
                lemma_resolve_types(store@, gs@);
                assert forall|j: int| 0 <= j < gs@.len() implies {
                    &&& in_range(#[trigger] gs@[j]@, store@.len())
                    &&& resolve(store@, gs@[j]@) == generalised(
                        resolve(old(store)@, args@[j]@),
                        level as nat,
                    )
                } by {
                    lemma_resolve_extends(mid, store@, gs@[j]@);
                    lemma_in_range_more(gs@[j]@, mid.len(), store@.len());
                }
                lemma_in_range_types(gs@, store@.len());
                assert(resolve_all(store@, terms_of(gs@), store@.len()) =~= generalised_all(
                    resolve_all(old(store)@, terms_of(args@), old(store)@.len()),
                    level as nat,
                ));
            }
            Type::Fun { args: gs, retrn: Box::new(r) }
        },
        Type::Record { .. } => clone_type(t),
        Type::Module { .. } => clone_type(t),
        Type::Var { cell } => {
            let var = store.get(*cell).clone();
            match var {
                TypeVar::Unbound { id, level: made_at } => {
                    if made_at > level {
                        store.insert(TypeVar::Generic { id })
                    } else {
                        Type::Var { cell: *cell }
                    }
                },
                TypeVar::Generic { .. } => Type::Var { cell: *cell },
                TypeVar::Link { typ } => {
                    proof {
                        lemma_resolve_link(store@, *cell as nat);
                    }
                    generalise_ref(store, &typ, level)
                },
            }
        },
    }
}

/// Takes a level and a type and turns all type variables within the type that have
/// level higher than the input level into generalized (polymorphic) type variables.
pub fn generalise(store: &mut Store, typ: Type, level: usize) -> (res: Type)
    requires
        old(store).wf(),
        in_range(typ@, old(store)@.len()),
    ensures
        final(store).wf(),
        grown_by_generics(old(store)@, final(store)@),
        in_range(res@, final(store)@.len()),
        resolve(final(store)@, res@) == generalised(resolve(old(store)@, typ@), level as nat),
{
    generalise_ref(store, &typ, level)
}

/// The place of `id` in `seen`.
pub open spec fn position(seen: Seq<nat>, id: nat) -> nat {
    choose|k: nat| k < seen.len() && seen[k as int] == id
}

/// The new variable with the number `k`: an unsolved variable of the level `level`.
pub open spec fn fresh_var(k: nat, base_cell: nat, base_id: nat, level: nat) -> Shape {
    Shape::Unbound { cell: base_cell + k, id: base_id + k, level }
}

/// A shape with each generic variable replaced by a new unsolved variable of the level
/// `level`, with the numbers of the generic variables replaced so far, in the order in which
/// they were first met. Every occurrence of one generic variable gets the same new variable;
/// `seen` lists the generic variables that have one already. The new variable with the
/// number `k` has the cell `base_cell + k` and the id `base_id + k`.
pub open spec fn instantiated(s: Shape, seen: Seq<nat>, base_cell: nat, base_id: nat, level: nat) -> (
    Shape,
    Seq<nat>,
)
    decreases s, 0nat,
{
    match s {
        Shape::Generic { id } => if seen.contains(id) {
            (fresh_var(position(seen, id), base_cell, base_id, level), seen)
        } else {
            (fresh_var(seen.len(), base_cell, base_id, level), seen.push(id))
        },
        Shape::App { public, module, name, args } => {
            let inner = instantiated_upto(args, args.len(), seen, base_cell, base_id, level);
            (Shape::App { public, module, name, args: inner.0 }, inner.1)
        },
        Shape::Tuple { elems } => {
            let inner = instantiated_upto(elems, elems.len(), seen, base_cell, base_id, level);
            (Shape::Tuple { elems: inner.0 }, inner.1)
        },
        Shape::Fun { args, retrn } => {
            let inner = instantiated_upto(args, args.len(), seen, base_cell, base_id, level);
            let last = instantiated(*retrn, inner.1, base_cell, base_id, level);
            (Shape::Fun { args: inner.0, retrn: Box::new(last.0) }, last.1)
        },
        _ => (s, seen),
    }
}

/// The first `k` of the shapes, instantiated from left to right.
pub open spec fn instantiated_upto(
    args: Seq<Shape>,
    k: nat,
    seen: Seq<nat>,
    base_cell: nat,
    base_id: nat,
    level: nat,
) -> (Seq<Shape>, Seq<nat>)
    decreases args, k,
{
    if k == 0 || k > args.len() {
        (Seq::empty(), seen)
    } else {
        let before = instantiated_upto(args, (k - 1) as nat, seen, base_cell, base_id, level);
        let this = instantiated(args[k - 1], before.1, base_cell, base_id, level);
        (before.0.push(this.0), this.1)
    }
}

/// Instantiation makes new variables and forgets none.
pub proof fn lemma_instantiated_grows(
    s: Shape,
    seen: Seq<nat>,
    base_cell: nat,
    base_id: nat,
    level: nat,
)
    ensures
        instantiated(s, seen, base_cell, base_id, level).1.len() >= seen.len(),
    decreases s, 0nat,
{
    match s {
        Shape::App { args, .. } => {
            lemma_instantiated_upto_grows(args, 0, args.len(), seen, base_cell, base_id, level);
        },
        Shape::Tuple { elems } => {
            lemma_instantiated_upto_grows(elems, 0, elems.len(), seen, base_cell, base_id, level);
        },
        Shape::Fun { args, retrn } => {
            lemma_instantiated_upto_grows(args, 0, args.len(), seen, base_cell, base_id, level);
            let inner = instantiated_upto(args, args.len(), seen, base_cell, base_id, level);
            lemma_instantiated_grows(*retrn, inner.1, base_cell, base_id, level);
        },
        _ => {},
    }
}

/// Instantiating more shapes makes new variables and forgets none.
pub proof fn lemma_instantiated_upto_grows(
    args: Seq<Shape>,
    k: nat,
    j: nat,
    seen: Seq<nat>,
    base_cell: nat,
    base_id: nat,
    level: nat,
)
    requires
        k <= j <= args.len(),
    ensures
        instantiated_upto(args, k, seen, base_cell, base_id, level).1.len() <= instantiated_upto(
            args,
            j,
            seen,
            base_cell,
            base_id,
            level,
        ).1.len(),
        instantiated_upto(args, 0, seen, base_cell, base_id, level).1 == seen,
        instantiated_upto(args, j, seen, base_cell, base_id, level).0.len() == j,
    decreases args, j,
{
    if j > 0 {
        if k < j {
            lemma_instantiated_upto_grows(args, k, (j - 1) as nat, seen, base_cell, base_id, level);
        } else {
            lemma_instantiated_upto_grows(
                args,
                (j - 1) as nat,
                (j - 1) as nat,
                seen,
                base_cell,
                base_id,
                level,
            );
        }
        let before = instantiated_upto(args, (j - 1) as nat, seen, base_cell, base_id, level);
        lemma_instantiated_grows(args[j - 1], before.1, base_cell, base_id, level);
    }
}

/// The numbers in a list of ids.
pub open spec fn ids_of(v: Seq<usize>) -> Seq<nat> {
    Seq::new(v.len(), |i: int| v[i] as nat)
}

/// The cells from `base_cell` on hold the new variables of `seen`, one each and in order,
/// and `uid` has counted them.
pub open spec fn instantiating(
    slots: Seq<Slot>,
    uid: nat,
    seen: Seq<nat>,
    base_cell: nat,
    base_id: nat,
    level: nat,
) -> bool {
    &&& slots.len() == base_cell + seen.len()
    &&& uid == base_id + seen.len()
    &&& seen.no_duplicates()
    &&& forall|k: int|
        0 <= k < seen.len() ==> #[trigger] slots[base_cell + k] == (Slot::Unbound {
            id: (base_id + k) as nat,
            level,
        })
}

/// The place of `id` in `seen`, if it is there.
fn find_id(seen: &Vec<usize>, id: usize) -> (found: Option<usize>)
    ensures
        match found {
            Some(k) => k < seen@.len() && seen@[k as int] == id,
            None => !ids_of(seen@).contains(id as nat),
        },
{
    let mut i: usize = 0;
    while i < seen.len()
        invariant
            i <= seen.len(),
            forall|j: int| 0 <= j < i ==> seen@[j] != id,
        decreases seen.len() - i,
    {
        if seen[i] == id {
            return Some(i);
        }
        i += 1;
    }
    proof {
        if ids_of(seen@).contains(id as nat) {
            let j = choose|j: int| 0 <= j < ids_of(seen@).len() && ids_of(seen@)[j] == id as nat;
            assert(seen@[j] == id);
        }
    }
    None
}

/// Copies of `args`, one by one and from left to right, in which each generic variable is
/// replaced by its new variable.
fn instantiate_all(
    env: &mut Env,
    args: &Vec<Type>,
    level: usize,
    seen: &mut Vec<usize>,
    base_cell: usize,
    base_id: usize,
    Ghost(start): Ghost<Seq<Slot>>,
) -> (res: Vec<Type>)
    requires
        old(env).wf(),
        well_formed(start),
        start.len() == base_cell,
        extends(start, old(env).store@),
        forall|i: int| 0 <= i < args@.len() ==> in_range(#[trigger] args@[i]@, start.len()),
        instantiating(
            old(env).store@,
            old(env).uid as nat,
            ids_of(old(seen)@),
            base_cell as nat,
            base_id as nat,
            level as nat,
        ),
        base_id + instantiated_upto(
            resolve_all(start, terms_of(args@), start.len()),
            args@.len(),
            ids_of(old(seen)@),
            base_cell as nat,
            base_id as nat,
            level as nat,
        ).1.len() <= usize::MAX,
    ensures
        final(env).wf(),
        final(env).variables == old(env).variables,
        extends(old(env).store@, final(env).store@),
        instantiating(
            final(env).store@,
            final(env).uid as nat,
            ids_of(final(seen)@),
            base_cell as nat,
            base_id as nat,
            level as nat,
        ),
        res@.len() == args@.len(),
        forall|i: int| 0 <= i < res@.len() ==> in_range(#[trigger] res@[i]@, final(env).store@.len()),
        (resolve_all(final(env).store@, terms_of(res@), final(env).store@.len()), ids_of(final(seen)@))
            == instantiated_upto(
            resolve_all(start, terms_of(args@), start.len()),
            args@.len(),
            ids_of(old(seen)@),
            base_cell as nat,
            base_id as nat,
            level as nat,
        ),
    decreases resolve_all(start, terms_of(args@), start.len()), 0nat, 0nat,
{
    let ghost shapes = resolve_all(start, terms_of(args@), start.len());
    let ghost seen0 = ids_of(seen@);
    let ghost bc = base_cell as nat;
    let ghost bi = base_id as nat;
    let ghost lv = level as nat;
    proof {
        lemma_resolve_types(start, args@);
    }
    let mut res: Vec<Type> = Vec::new();
    let mut i: usize = 0;
    while i < args.len()
        invariant
            i <= args.len(),
            res@.len() == i,
            env.wf(),
            env.variables == old(env).variables,
            well_formed(start),
            start.len() == base_cell,
            extends(start, env.store@),
            extends(old(env).store@, env.store@),
            bc == base_cell,
            bi == base_id,
            lv == level,
            shapes == resolve_all(start, terms_of(args@), start.len()),
            shapes.len() == args@.len(),
            forall|j: int| 0 <= j < args@.len() ==> #[trigger] shapes[j] == resolve(start, args@[j]@),
            forall|j: int| 0 <= j < args@.len() ==> in_range(#[trigger] args@[j]@, start.len()),
            instantiating(env.store@, env.uid as nat, ids_of(seen@), bc, bi, lv),
            bi + instantiated_upto(shapes, shapes.len(), seen0, bc, bi, lv).1.len() <= usize::MAX,
            forall|j: int| 0 <= j < i ==> in_range(#[trigger] res@[j]@, env.store@.len()),
            instantiated_upto(shapes, i as nat, seen0, bc, bi, lv).0.len() == i,
            forall|j: int|
                0 <= j < i ==> resolve(env.store@, #[trigger] res@[j]@) == instantiated_upto(
                    shapes,
                    i as nat,
                    seen0,
                    bc,
                    bi,
                    lv,
                ).0[j],
            ids_of(seen@) == instantiated_upto(shapes, i as nat, seen0, bc, bi, lv).1,
        decreases args.len() - i,
    {
        let ghost mid = env.store@;
        let ghost before = instantiated_upto(shapes, i as nat, seen0, bc, bi, lv);
        proof {
            lemma_instantiated_upto_grows(shapes, (i + 1) as nat, shapes.len(), seen0, bc, bi, lv);
            assert(shapes[i as int] == resolve(start, args@[i as int]@));
        }
        let g = instantiate_in(env, &args[i], level, seen, base_cell, base_id, Ghost(start));
        proof {
            let after = instantiated_upto(shapes, (i + 1) as nat, seen0, bc, bi, lv);
            assert forall|j: int| 0 <= j < i implies {
                &&& in_range(#[trigger] res@[j]@, env.store@.len())
                &&& resolve(env.store@, res@[j]@) == after.0[j]
            } by {
                lemma_resolve_extends(mid, env.store@, res@[j]@);
                lemma_in_range_more(res@[j]@, mid.len(), env.store@.len());
            }
        }
        res.push(g);
        i += 1;
    }
    proof {
        lemma_resolve_types(env.store@, res@);
        assert(resolve_all(env.store@, terms_of(res@), env.store@.len()) =~= instantiated_upto(
            shapes,
            shapes.len(),
            seen0,
            bc,
            bi,
            lv,
        ).0);
    }
    res
}

/// A copy of `t` in which each generic variable is replaced by its new variable: the one
/// that `seen` lists for it, else one that is made now and listed. `start` are the cells
/// there were when the instantiation began.
fn instantiate_in(
    env: &mut Env,
    t: &Type,
    level: usize,
    seen: &mut Vec<usize>,
    base_cell: usize,
    base_id: usize,
    Ghost(start): Ghost<Seq<Slot>>,
) -> (res: Type)
    requires
        old(env).wf(),
        well_formed(start),
        start.len() == base_cell,
        extends(start, old(env).store@),
        in_range(t@, start.len()),
        instantiating(
            old(env).store@,
            old(env).uid as nat,
            ids_of(old(seen)@),
            base_cell as nat,
            base_id as nat,
            level as nat,
        ),
        base_id + instantiated(
            resolve(start, t@),
            ids_of(old(seen)@),
            base_cell as nat,
            base_id as nat,
            level as nat,
        ).1.len() <= usize::MAX,
    ensures
        final(env).wf(),
        final(env).variables == old(env).variables,
        extends(old(env).store@, final(env).store@),
        instantiating(
            final(env).store@,
            final(env).uid as nat,
            ids_of(final(seen)@),
            base_cell as nat,
            base_id as nat,
            level as nat,
        ),
        in_range(res@, final(env).store@.len()),
        (resolve(final(env).store@, res@), ids_of(final(seen)@)) == instantiated(
            resolve(start, t@),
            ids_of(old(seen)@),
            base_cell as nat,
            base_id as nat,
            level as nat,
        ),
    decreases resolve(start, t@), hops(old(env).store@, t@), 1nat,
{
    let ghost seen0 = ids_of(seen@);
    let ghost bc = base_cell as nat;
    let ghost bi = base_id as nat;
    let ghost lv = level as nat;
    let ghost n = start.len();
    proof {
        lemma_resolve_extends(start, env.store@, t@);
        lemma_in_range_more(t@, start.len(), env.store@.len());
    }
    match t {
        Type::Const { .. } => clone_type(t),
        Type::App { public, module, name, args } => {
            proof {
                lemma_resolve_types(start, args@);
                lemma_in_range_types(args@, start.len());
                assert(resolve(start, t@)->App_args == resolve_all(start, terms_of(args@), n));
            }
            let gs = instantiate_all(env, args, level, seen, base_cell, base_id, Ghost(start));
            proof {
                lemma_resolve_types(env.store@, gs@);
                lemma_in_range_types(gs@, env.store@.len());
            }
            Type::App { public: *public, module: module.clone(), name: name.clone(), args: gs }
        },
        Type::Tuple { elems } => {
            proof {
                lemma_resolve_types(start, elems@);
                lemma_in_range_types(elems@, start.len());
                assert(resolve(start, t@)->elems == resolve_all(start, terms_of(elems@), n));
            }
            let gs = instantiate_all(env, elems, level, seen, base_cell, base_id, Ghost(start));
            proof {
                lemma_resolve_types(env.store@, gs@);
                lemma_in_range_types(gs@, env.store@.len());
            }
            Type::Tuple { elems: gs }
        },
        Type::Fun { args, retrn } => {
            proof {
                lemma_resolve_types(start, args@);
                lemma_in_range_types(args@, start.len());
                assert(resolve(start, t@)->Fun_args == resolve_all(start, terms_of(args@), n));
                assert(*resolve(start, t@)->retrn == resolve(start, retrn@));
                let shapes = resolve_all(start, terms_of(args@), n);
                let inner = instantiated_upto(shapes, shapes.len(), seen0, bc, bi, lv);
                lemma_instantiated_grows(resolve(start, retrn@), inner.1, bc, bi, lv);
            }
            let gs = instantiate_all(env, args, level, seen, base_cell, base_id, Ghost(start));
            let ghost mid = env.store@;
            let r = instantiate_in(env, retrn, level, seen, base_cell, base_id, Ghost(start));
            proof {
                lemma_resolve_types(mid, gs@);
                lemma_resolve_types(env.store@, gs@);
                assert forall|j: int| 0 <= j < gs@.len() implies {
                    &&& in_range(#[trigger] gs@[j]@, env.store@.len())
                    &&& resolve(env.store@, gs@[j]@) == resolve(mid, gs@[j]@)
                } by {
                    lemma_resolve_extends(mid, env.store@, gs@[j]@);
                    lemma_in_range_more(gs@[j]@, mid.len(), env.store@.len());
                }
                lemma_in_range_types(gs@, env.store@.len());
                assert(resolve_all(env.store@, terms_of(gs@), env.store@.len()) =~= resolve_all(
                    mid,
                    terms_of(gs@),
                    mid.len(),
                ));
            }
            Type::Fun { args: gs, retrn: Box::new(r) }
        },
        Type::Record { .. } => clone_type(t),
        Type::Module { .. } => clone_type(t),
        Type::Var { cell } => {
            let var = env.store.get(*cell).clone();
            match var {
                TypeVar::Generic { id } => {
                    match find_id(seen, id) {
                        Some(k) => {
                            let cells = env.store.len();
                            proof {
                                assert(ids_of(seen@).len() == seen@.len());
                                assert(cells == base_cell + seen@.len());
                                assert(ids_of(seen@)[k as int] == id as nat);
                                assert(position(seen0, id as nat) == k);
                                assert(env.store@[base_cell + k] == (Slot::Unbound {
                                    id: (base_id + k) as nat,
                                    level: lv,
                                }));
                            }
                            Type::Var { cell: base_cell + k }
                        },
                        None => {
                            let v = env.new_unbound_var(level);
                            seen.push(id);
                            proof {
                                assert(ids_of(seen@) =~= seen0.push(id as nat));
                                assert forall|k: int| 0 <= k < ids_of(seen@).len() implies
                                    #[trigger] env.store@[base_cell + k] == (Slot::Unbound {
                                    id: (base_id + k) as nat,
                                    level: lv,
                                }) by {
                                    if k < seen0.len() {
                                        assert(env.store@[base_cell + k] == old(env).store@[base_cell
                                            + k]);
                                    }
                                }
                            }
                            v
                        },
                    }
                },
                TypeVar::Unbound { .. } => Type::Var { cell: *cell },
                TypeVar::Link { typ } => {
                    proof {
                        lemma_resolve_link(env.store@, *cell as nat);
                        lemma_resolve_link(start, *cell as nat);
                    }
                    instantiate_in(env, &typ, level, seen, base_cell, base_id, Ghost(start))
                },
            }
        },
    }
}

/// The new cells that instantiation makes: `n` unsolved variables of the level `level`,
/// numbered from `base_id` on.
pub open spec fn fresh_slots(n: nat, base_id: nat, level: nat) -> Seq<Slot> {
    Seq::new(n, |k: int| Slot::Unbound { id: (base_id + k) as nat, level })
}

/// A copy of a type in which each generic variable is replaced by a new unsolved variable of
/// the level `level`, the same one for every occurrence of the same generic variable.
pub fn instantiate(env: &mut Env, typ: &Type, level: usize) -> (res: Type)
    requires
        old(env).wf(),
        in_range(typ@, old(env).store@.len()),
        old(env).uid + instantiated(
            resolve(old(env).store@, typ@),
            Seq::empty(),
            old(env).store@.len(),
            old(env).uid as nat,
            level as nat,
        ).1.len() <= usize::MAX,
    ensures
        final(env).wf(),
        final(env).variables == old(env).variables,
        in_range(res@, final(env).store@.len()),
        resolve(final(env).store@, res@) == instantiated(
            resolve(old(env).store@, typ@),
            Seq::empty(),
            old(env).store@.len(),
            old(env).uid as nat,
            level as nat,
        ).0,
        final(env).uid == old(env).uid + instantiated(
            resolve(old(env).store@, typ@),
            Seq::empty(),
            old(env).store@.len(),
            old(env).uid as nat,
            level as nat,
        ).1.len(),
        final(env).store@ == old(env).store@ + fresh_slots(
            (final(env).uid - old(env).uid) as nat,
            old(env).uid as nat,
            level as nat,
        ),
{
    let mut seen: Vec<usize> = Vec::new();
    let base_cell = env.store.len();
    let base_id = env.uid;
    let ghost start = env.store@;
    proof {
        assert(ids_of(seen@) =~= Seq::<nat>::empty());
    }
    let res = instantiate_in(env, typ, level, &mut seen, base_cell, base_id, Ghost(start));
    proof {
        assert(env.store@ =~= start + fresh_slots(
            (env.uid - base_id) as nat,
            base_id as nat,
            level as nat,
        )) by {
            assert forall|i: int| 0 <= i < env.store@.len() implies env.store@[i] == (start
                + fresh_slots((env.uid - base_id) as nat, base_id as nat, level as nat))[i] by {
                if i >= start.len() {
                    let k = i - start.len();
                    assert(env.store@[base_cell + k] == (Slot::Unbound {
                        id: (base_id + k) as nat,
                        level: level as nat,
                    }));
                }
            }
        }
    }
    res
}

} // verus!
