use crate::typ::{lemma_terms_of, terms_of, Row, Slot, Term, Type, TypeVar};
use vstd::set_lib::{lemma_int_range, lemma_len_subset, set_int_range};
use vstd::prelude::*;

verus! {

/// A type as it is seen through every link: no solved variable is left in it.
pub enum Shape {
    Const { public: bool, module: Seq<char>, name: Seq<char> },
    App { public: bool, module: Seq<char>, name: Seq<char>, args: Seq<Shape> },
    Tuple { elems: Seq<Shape> },
    Fun { args: Seq<Shape>, retrn: Box<Shape> },
    Record { fields: Seq<(Seq<char>, Shape)> },
    Module { fields: Seq<(Seq<char>, Shape)> },
    /// An unsolved variable, with the cell that holds it.
    Unbound { cell: nat, id: nat, level: nat },
    /// A polymorphic placeholder.
    Generic { id: nat },
    /// A variable that names no cell, or a chain of links that does not end.
    Dangling { cell: nat },
}

/// Every variable of `t` names one of the first `n` cells.
pub open spec fn in_range(t: Term, n: nat) -> bool
    decreases t,
{
    match t {
        Term::Const { .. } => true,
        Term::App { args, .. } => forall|i: int| 0 <= i < args.len() ==> in_range(#[trigger] args[i], n),
        Term::Tuple { elems } => forall|i: int| 0 <= i < elems.len() ==> in_range(#[trigger] elems[i], n),
        Term::Fun { args, retrn } => in_range(*retrn, n) && forall|i: int|
            0 <= i < args.len() ==> in_range(#[trigger] args[i], n),
        Term::Record { fields } => forall|i: int|
            0 <= i < fields.len() ==> in_range((#[trigger] fields[i]).1, n),
        Term::Module { fields } => forall|i: int|
            0 <= i < fields.len() ==> in_range((#[trigger] fields[i]).1, n),
        Term::Var { cell } => cell < n,
    }
}

/// `t` seen through the links of `slots`, following at most `fuel` links in a row.
pub open spec fn resolve_fuel(slots: Seq<Slot>, t: Term, fuel: nat) -> Shape
    decreases fuel, t,
{
    match t {
        Term::Const { public, module, name } => Shape::Const { public, module, name },
        Term::App { public, module, name, args } => Shape::App {
            public,
            module,
            name,
            args: resolve_all(slots, args, fuel),
        },
        Term::Tuple { elems } => Shape::Tuple { elems: resolve_all(slots, elems, fuel) },
        Term::Fun { args, retrn } => Shape::Fun {
            args: resolve_all(slots, args, fuel),
            retrn: Box::new(resolve_fuel(slots, *retrn, fuel)),
        },
        Term::Record { fields } => Shape::Record { fields: resolve_fields(slots, fields, fuel) },
        Term::Module { fields } => Shape::Module { fields: resolve_fields(slots, fields, fuel) },
        Term::Var { cell } => if cell < slots.len() {
            match slots[cell as int] {
                Slot::Unbound { id, level } => Shape::Unbound { cell, id, level },
                Slot::Generic { id } => Shape::Generic { id },
                Slot::Link { term } => if fuel > 0 {
                    resolve_fuel(slots, term, (fuel - 1) as nat)
                } else {
                    Shape::Dangling { cell }
                },
            }
        } else {
            Shape::Dangling { cell }
        },
    }
}

/// Each term of `ts` seen through the links of `slots`.
pub open spec fn resolve_all(slots: Seq<Slot>, ts: Seq<Term>, fuel: nat) -> Seq<Shape>
    decreases fuel, ts,
{
    Seq::new(
        ts.len(),
        |i: int|
            if 0 <= i < ts.len() {
                resolve_fuel(slots, ts[i], fuel)
            } else {
                Shape::Dangling { cell: 0 }
            },
    )
}

/// Each field of `fs` seen through the links of `slots`, under its label.
pub open spec fn resolve_fields(slots: Seq<Slot>, fs: Seq<(Seq<char>, Term)>, fuel: nat) -> Seq<
    (Seq<char>, Shape),
>
    decreases fuel, fs,
{
    Seq::new(
        fs.len(),
        |i: int|
            if 0 <= i < fs.len() {
                (fs[i].0, resolve_fuel(slots, fs[i].1, fuel))
            } else {
                (Seq::empty(), Shape::Dangling { cell: 0 })
            },
    )
}

/// `t` seen through the links of `slots`.
pub open spec fn resolve(slots: Seq<Slot>, t: Term) -> Shape {
    resolve_fuel(slots, t, slots.len())
}

/// The number of solved cells.
pub open spec fn link_count(slots: Seq<Slot>) -> nat {
    Set::new(|i: int| 0 <= i < slots.len() && slots[i] is Link).len()
}

/// Every variable of `t` names a cell of `slots`, and each solved one among them has a rank
/// under `r`.
pub open spec fn below(t: Term, slots: Seq<Slot>, rank: Seq<nat>, r: nat) -> bool
    decreases t,
{
    match t {
        Term::Const { .. } => true,
        Term::App { args, .. } => forall|i: int|
            0 <= i < args.len() ==> below(#[trigger] args[i], slots, rank, r),
        Term::Tuple { elems } => forall|i: int|
            0 <= i < elems.len() ==> below(#[trigger] elems[i], slots, rank, r),
        Term::Fun { args, retrn } => below(*retrn, slots, rank, r) && forall|i: int|
            0 <= i < args.len() ==> below(#[trigger] args[i], slots, rank, r),
        Term::Record { fields } => forall|i: int|
            0 <= i < fields.len() ==> below((#[trigger] fields[i]).1, slots, rank, r),
        Term::Module { fields } => forall|i: int|
            0 <= i < fields.len() ==> below((#[trigger] fields[i]).1, slots, rank, r),
        Term::Var { cell } => cell < slots.len() && (slots[cell as int] is Link ==> rank[cell as int]
            < r),
    }
}

/// `rank` orders the solved cells: what a solved cell links to mentions only cells of `slots`,
/// and of the solved ones only cells of lower rank. So no chain of links comes back to
/// its start.
pub open spec fn ranked(slots: Seq<Slot>, rank: Seq<nat>) -> bool {
    &&& rank.len() == slots.len()
    &&& forall|i: int|
        0 <= i < slots.len() ==> (#[trigger] slots[i] matches Slot::Link { term } ==> {
            &&& 1 <= rank[i] <= link_count(slots)
            &&& below(term, slots, rank, rank[i])
        })
}

/// No link dangles and no chain of links is cyclic.
pub open spec fn well_formed(slots: Seq<Slot>) -> bool {
    exists|rank: Seq<nat>| ranked(slots, rank)
}

/// A ranking of a well-formed store.
pub open spec fn ranking(slots: Seq<Slot>) -> Seq<nat> {
    choose|rank: Seq<nat>| ranked(slots, rank)
}

/// A bound on the links that lead from the root of `t` to something that is no solved
/// variable.
pub open spec fn hops(slots: Seq<Slot>, t: Term) -> nat {
    match t {
        Term::Var { cell } => if cell < slots.len() && slots[cell as int] is Link {
            ranking(slots)[cell as int]
        } else {
            0
        },
        _ => 0,
    }
}

/// `b` has the cells of `a`, unchanged, and perhaps more after them.
pub open spec fn extends(a: Seq<Slot>, b: Seq<Slot>) -> bool {
    &&& a.len() <= b.len()
    &&& forall|i: int| 0 <= i < a.len() ==> #[trigger] b[i] == a[i]
}

/// There are no more solved cells than cells.
pub proof fn lemma_link_count_bound(slots: Seq<Slot>)
    ensures
        link_count(slots) <= slots.len(),
        Set::new(|i: int| 0 <= i < slots.len() && slots[i] is Link).finite(),
{
    let links = Set::new(|i: int| 0 <= i < slots.len() && slots[i] is Link);
    lemma_int_range(0, slots.len() as int);
    assert(links.subset_of(set_int_range(0, slots.len() as int)));
    lemma_len_subset(links, set_int_range(0, slots.len() as int));
}

/// One more cell makes one more link where it is solved, and none where it is not.
pub proof fn lemma_link_count_push(slots: Seq<Slot>, s: Slot)
    ensures
        link_count(slots.push(s)) == link_count(slots) + (if s is Link {
            1nat
        } else {
            0nat
        }),
{
    let before = Set::new(|i: int| 0 <= i < slots.len() && slots[i] is Link);
    let after = Set::new(|i: int| 0 <= i < slots.push(s).len() && slots.push(s)[i] is Link);
    lemma_link_count_bound(slots);
    if s is Link {
        assert(after =~= before.insert(slots.len() as int));
    } else {
        assert(after =~= before);
    }
}

/// What is below a rank in a store stays so in a store that extends it.
pub proof fn lemma_below_extends(
    t: Term,
    a: Seq<Slot>,
    ra: Seq<nat>,
    b: Seq<Slot>,
    rb: Seq<nat>,
    r: nat,
)
    requires
        below(t, a, ra, r),
        extends(a, b),
        ra.len() == a.len(),
        rb.len() == b.len(),
        forall|i: int| 0 <= i < a.len() ==> rb[i] == ra[i],
    ensures
        below(t, b, rb, r),
    decreases t,
{
    match t {
        Term::Const { .. } => {},
        Term::App { args, .. } => {
            assert forall|i: int| 0 <= i < args.len() implies below(
                #[trigger] args[i],
                b,
                rb,
                r,
            ) by {
                lemma_below_extends(args[i], a, ra, b, rb, r);
            }
        },
        Term::Tuple { elems } => {
            assert forall|i: int| 0 <= i < elems.len() implies below(
                #[trigger] elems[i],
                b,
                rb,
                r,
            ) by {
                lemma_below_extends(elems[i], a, ra, b, rb, r);
            }
        },
        Term::Fun { args, retrn } => {
            lemma_below_extends(*retrn, a, ra, b, rb, r);
            assert forall|i: int| 0 <= i < args.len() implies below(
                #[trigger] args[i],
                b,
                rb,
                r,
            ) by {
                lemma_below_extends(args[i], a, ra, b, rb, r);
            }
        },
        Term::Record { fields } => {
            assert forall|i: int| 0 <= i < fields.len() implies below(
                (#[trigger] fields[i]).1,
                b,
                rb,
                r,
            ) by {
                lemma_below_extends(fields[i].1, a, ra, b, rb, r);
            }
        },
        Term::Module { fields } => {
            assert forall|i: int| 0 <= i < fields.len() implies below(
                (#[trigger] fields[i]).1,
                b,
                rb,
                r,
            ) by {
                lemma_below_extends(fields[i].1, a, ra, b, rb, r);
            }
        },
        Term::Var { cell } => {},
    }
}

/// In a ranked store, a term over its cells is below every rank above the number of links.
pub proof fn lemma_below_any(t: Term, slots: Seq<Slot>, rank: Seq<nat>, r: nat)
    requires
        ranked(slots, rank),
        in_range(t, slots.len()),
        r > link_count(slots),
    ensures
        below(t, slots, rank, r),
    decreases t,
{
    match t {
        Term::Const { .. } => {},
        Term::App { args, .. } => {
            assert forall|i: int| 0 <= i < args.len() implies below(
                #[trigger] args[i],
                slots,
                rank,
                r,
            ) by {
                lemma_below_any(args[i], slots, rank, r);
            }
        },
        Term::Tuple { elems } => {
            assert forall|i: int| 0 <= i < elems.len() implies below(
                #[trigger] elems[i],
                slots,
                rank,
                r,
            ) by {
                lemma_below_any(elems[i], slots, rank, r);
            }
        },
        Term::Fun { args, retrn } => {
            lemma_below_any(*retrn, slots, rank, r);
            assert forall|i: int| 0 <= i < args.len() implies below(
                #[trigger] args[i],
                slots,
                rank,
                r,
            ) by {
                lemma_below_any(args[i], slots, rank, r);
            }
        },
        Term::Record { fields } => {
            assert forall|i: int| 0 <= i < fields.len() implies below(
                (#[trigger] fields[i]).1,
                slots,
                rank,
                r,
            ) by {
                lemma_below_any(fields[i].1, slots, rank, r);
            }
        },
        Term::Module { fields } => {
            assert forall|i: int| 0 <= i < fields.len() implies below(
                (#[trigger] fields[i]).1,
                slots,
                rank,
                r,
            ) by {
                lemma_below_any(fields[i].1, slots, rank, r);
            }
        },
        Term::Var { cell } => {},
    }
}

/// What is below a rank names only cells of the store.
pub proof fn lemma_below_in_range(t: Term, slots: Seq<Slot>, rank: Seq<nat>, r: nat)
    requires
        below(t, slots, rank, r),
    ensures
        in_range(t, slots.len()),
    decreases t,
{
    match t {
        Term::Const { .. } => {},
        Term::App { args, .. } => {
            assert forall|i: int| 0 <= i < args.len() implies in_range(
                #[trigger] args[i],
                slots.len(),
            ) by {
                lemma_below_in_range(args[i], slots, rank, r);
            }
        },
        Term::Tuple { elems } => {
            assert forall|i: int| 0 <= i < elems.len() implies in_range(
                #[trigger] elems[i],
                slots.len(),
            ) by {
                lemma_below_in_range(elems[i], slots, rank, r);
            }
        },
        Term::Fun { args, retrn } => {
            lemma_below_in_range(*retrn, slots, rank, r);
            assert forall|i: int| 0 <= i < args.len() implies in_range(
                #[trigger] args[i],
                slots.len(),
            ) by {
                lemma_below_in_range(args[i], slots, rank, r);
            }
        },
        Term::Record { fields } => {
            assert forall|i: int| 0 <= i < fields.len() implies in_range(
                (#[trigger] fields[i]).1,
                slots.len(),
            ) by {
                lemma_below_in_range(fields[i].1, slots, rank, r);
            }
        },
        Term::Module { fields } => {
            assert forall|i: int| 0 <= i < fields.len() implies in_range(
                (#[trigger] fields[i]).1,
                slots.len(),
            ) by {
                lemma_below_in_range(fields[i].1, slots, rank, r);
            }
        },
        Term::Var { cell } => {},
    }
}

/// With enough fuel for the ranks in a term, more fuel shows the same shape.
pub proof fn lemma_fuel(slots: Seq<Slot>, rank: Seq<nat>, t: Term, r: nat, f: nat, g: nat)
    requires
        ranked(slots, rank),
        below(t, slots, rank, r),
        r <= f + 1,
        f <= g,
    ensures
        resolve_fuel(slots, t, f) == resolve_fuel(slots, t, g),
    decreases f, t,
{
    match t {
        Term::Const { .. } => {},
        Term::App { args, .. } => {
            assert forall|i: int| 0 <= i < args.len() implies resolve_fuel(slots, args[i], f)
                == resolve_fuel(slots, args[i], g) by {
                lemma_fuel(slots, rank, args[i], r, f, g);
            }
            assert(resolve_all(slots, args, f) =~= resolve_all(slots, args, g));
        },
        Term::Tuple { elems } => {
            assert forall|i: int| 0 <= i < elems.len() implies resolve_fuel(slots, elems[i], f)
                == resolve_fuel(slots, elems[i], g) by {
                lemma_fuel(slots, rank, elems[i], r, f, g);
            }
            assert(resolve_all(slots, elems, f) =~= resolve_all(slots, elems, g));
        },
        Term::Fun { args, retrn } => {
            lemma_fuel(slots, rank, *retrn, r, f, g);
            assert forall|i: int| 0 <= i < args.len() implies resolve_fuel(slots, args[i], f)
                == resolve_fuel(slots, args[i], g) by {
                lemma_fuel(slots, rank, args[i], r, f, g);
            }
            assert(resolve_all(slots, args, f) =~= resolve_all(slots, args, g));
        },
        Term::Record { fields } => {
            assert forall|i: int| 0 <= i < fields.len() implies resolve_fuel(
                slots,
                fields[i].1,
                f,
            ) == resolve_fuel(slots, fields[i].1, g) by {
                lemma_fuel(slots, rank, fields[i].1, r, f, g);
            }
            assert(resolve_fields(slots, fields, f) =~= resolve_fields(slots, fields, g));
        },
        Term::Module { fields } => {
            assert forall|i: int| 0 <= i < fields.len() implies resolve_fuel(
                slots,
                fields[i].1,
                f,
            ) == resolve_fuel(slots, fields[i].1, g) by {
                lemma_fuel(slots, rank, fields[i].1, r, f, g);
            }
            assert(resolve_fields(slots, fields, f) =~= resolve_fields(slots, fields, g));
        },
        Term::Var { cell } => {
            match slots[cell as int] {
                Slot::Link { term } => {
                    lemma_fuel(
                        slots,
                        rank,
                        term,
                        rank[cell as int],
                        (f - 1) as nat,
                        (g - 1) as nat,
                    );
                },
                _ => {},
            }
        },
    }
}

/// A solved variable is seen as what it links to.
pub proof fn lemma_resolve_link(slots: Seq<Slot>, cell: nat)
    requires
        well_formed(slots),
        cell < slots.len(),
        slots[cell as int] is Link,
    ensures
        resolve(slots, Term::Var { cell }) == resolve(slots, slots[cell as int]->term),
        hops(slots, slots[cell as int]->term) < hops(slots, Term::Var { cell }),
        in_range(slots[cell as int]->term, slots.len()),
{
    let rank = ranking(slots);
    let term = slots[cell as int]->term;
    lemma_link_count_bound(slots);
    lemma_fuel(slots, rank, term, rank[cell as int], (slots.len() - 1) as nat, slots.len());
    lemma_below_in_range(term, slots, rank, rank[cell as int]);
}

/// A term over the cells of a well-formed store is seen alike in every store that extends it.
pub proof fn lemma_resolve_extends_fuel(a: Seq<Slot>, rank: Seq<nat>, b: Seq<Slot>, t: Term, r: nat, f: nat)
    requires
        ranked(a, rank),
        below(t, a, rank, r),
        extends(a, b),
    ensures
        resolve_fuel(b, t, f) == resolve_fuel(a, t, f),
    decreases f, t,
{
    match t {
        Term::Const { .. } => {},
        Term::App { args, .. } => {
            assert forall|i: int| 0 <= i < args.len() implies resolve_fuel(b, args[i], f)
                == resolve_fuel(a, args[i], f) by {
                lemma_resolve_extends_fuel(a, rank, b, args[i], r, f);
            }
            assert(resolve_all(b, args, f) =~= resolve_all(a, args, f));
        },
        Term::Tuple { elems } => {
            assert forall|i: int| 0 <= i < elems.len() implies resolve_fuel(b, elems[i], f)
                == resolve_fuel(a, elems[i], f) by {
                lemma_resolve_extends_fuel(a, rank, b, elems[i], r, f);
            }
            assert(resolve_all(b, elems, f) =~= resolve_all(a, elems, f));
        },
        Term::Fun { args, retrn } => {
            lemma_resolve_extends_fuel(a, rank, b, *retrn, r, f);
            assert forall|i: int| 0 <= i < args.len() implies resolve_fuel(b, args[i], f)
                == resolve_fuel(a, args[i], f) by {
                lemma_resolve_extends_fuel(a, rank, b, args[i], r, f);
            }
            assert(resolve_all(b, args, f) =~= resolve_all(a, args, f));
        },
        Term::Record { fields } => {
            assert forall|i: int| 0 <= i < fields.len() implies resolve_fuel(b, fields[i].1, f)
                == resolve_fuel(a, fields[i].1, f) by {
                lemma_resolve_extends_fuel(a, rank, b, fields[i].1, r, f);
            }
            assert(resolve_fields(b, fields, f) =~= resolve_fields(a, fields, f));
        },
        Term::Module { fields } => {
            assert forall|i: int| 0 <= i < fields.len() implies resolve_fuel(b, fields[i].1, f)
                == resolve_fuel(a, fields[i].1, f) by {
                lemma_resolve_extends_fuel(a, rank, b, fields[i].1, r, f);
            }
            assert(resolve_fields(b, fields, f) =~= resolve_fields(a, fields, f));
        },
        Term::Var { cell } => {
            match a[cell as int] {
                Slot::Link { term } => {
                    if f > 0 {
                        lemma_resolve_extends_fuel(a, rank, b, term, rank[cell as int], (f - 1) as nat);
                    }
                },
                _ => {},
            }
        },
    }
}

/// A term over the cells of a well-formed store is seen alike in every store that extends it.
pub proof fn lemma_resolve_extends(a: Seq<Slot>, b: Seq<Slot>, t: Term)
    requires
        well_formed(a),
        in_range(t, a.len()),
        extends(a, b),
    ensures
        resolve(b, t) == resolve(a, t),
{
    let rank = ranking(a);
    let r = link_count(a) + 1;
    lemma_link_count_bound(a);
    lemma_below_any(t, a, rank, r);
    lemma_resolve_extends_fuel(a, rank, b, t, r, b.len());
    lemma_fuel(a, rank, t, r, a.len(), b.len());
}

/// A store with one more cell is well-formed when what the new cell links to, if it is
/// solved, mentions only the cells before it.
pub proof fn lemma_push_well_formed(slots: Seq<Slot>, s: Slot)
    requires
        well_formed(slots),
        s matches Slot::Link { term } ==> in_range(term, slots.len()),
    ensures
        well_formed(slots.push(s)),
        extends(slots, slots.push(s)),
{
    let rank = ranking(slots);
    let after = slots.push(s);
    let top = link_count(slots) + 1;
    let rank2 = rank.push(top);
    lemma_link_count_push(slots, s);
    assert forall|i: int| 0 <= i < after.len() implies (#[trigger] after[i] matches Slot::Link {
        term,
    } ==> {
        &&& 1 <= rank2[i] <= link_count(after)
        &&& below(term, after, rank2, rank2[i])
    }) by {
        if after[i] is Link {
            let term = after[i]->term;
            if i < slots.len() {
                assert(slots[i] == after[i]);
                lemma_below_extends(term, slots, rank, after, rank2, rank[i]);
            } else {
                lemma_below_any(term, slots, rank, top);
                lemma_below_extends(term, slots, rank, after, rank2, top);
            }
        }
    }
    assert(ranked(after, rank2));
}

/// A term over the first `n` cells is a term over the first `m`, where `n <= m`.
pub proof fn lemma_in_range_more(t: Term, n: nat, m: nat)
    requires
        in_range(t, n),
        n <= m,
    ensures
        in_range(t, m),
    decreases t,
{
    match t {
        Term::Const { .. } => {},
        Term::App { args, .. } => {
            assert forall|i: int| 0 <= i < args.len() implies in_range(#[trigger] args[i], m) by {
                lemma_in_range_more(args[i], n, m);
            }
        },
        Term::Tuple { elems } => {
            assert forall|i: int| 0 <= i < elems.len() implies in_range(#[trigger] elems[i], m) by {
                lemma_in_range_more(elems[i], n, m);
            }
        },
        Term::Fun { args, retrn } => {
            lemma_in_range_more(*retrn, n, m);
            assert forall|i: int| 0 <= i < args.len() implies in_range(#[trigger] args[i], m) by {
                lemma_in_range_more(args[i], n, m);
            }
        },
        Term::Record { fields } => {
            assert forall|i: int| 0 <= i < fields.len() implies in_range(
                (#[trigger] fields[i]).1,
                m,
            ) by {
                lemma_in_range_more(fields[i].1, n, m);
            }
        },
        Term::Module { fields } => {
            assert forall|i: int| 0 <= i < fields.len() implies in_range(
                (#[trigger] fields[i]).1,
                m,
            ) by {
                lemma_in_range_more(fields[i].1, n, m);
            }
        },
        Term::Var { cell } => {},
    }
}

/// A list of types is seen element by element.
pub proof fn lemma_resolve_types(slots: Seq<Slot>, ts: Seq<Type>)
    ensures
        terms_of(ts).len() == ts.len(),
        resolve_all(slots, terms_of(ts), slots.len()).len() == ts.len(),
        forall|i: int| 0 <= i < ts.len() ==> #[trigger] terms_of(ts)[i] == ts[i]@,
        forall|i: int|
            0 <= i < ts.len() ==> #[trigger] resolve_all(slots, terms_of(ts), slots.len())[i]
                == resolve(slots, ts[i]@),
{
    lemma_terms_of(ts);
}

/// A list of types is over the cells of a store when each of them is.
pub proof fn lemma_in_range_types(ts: Seq<Type>, n: nat)
    ensures
        (forall|i: int| 0 <= i < ts.len() ==> in_range(#[trigger] terms_of(ts)[i], n)) <==> (forall|
            i: int,
        |
            0 <= i < ts.len() ==> in_range(#[trigger] ts[i]@, n)),
{
    lemma_terms_of(ts);
    if forall|i: int| 0 <= i < ts.len() ==> in_range(#[trigger] terms_of(ts)[i], n) {
        assert forall|i: int| 0 <= i < ts.len() implies in_range(#[trigger] ts[i]@, n) by {
            assert(in_range(terms_of(ts)[i], n));
        }
    }
    if forall|i: int| 0 <= i < ts.len() ==> in_range(#[trigger] ts[i]@, n) {
        assert forall|i: int| 0 <= i < ts.len() implies in_range(
            #[trigger] terms_of(ts)[i],
            n,
        ) by {
            assert(in_range(ts[i]@, n));
        }
    }
}

/// No two unsolved cells hold the same id.
pub open spec fn distinct_ids(slots: Seq<Slot>) -> bool {
    forall|i: int, j: int|
        0 <= i < slots.len() && 0 <= j < slots.len() && i != j && #[trigger] slots[i] is Unbound
            && #[trigger] slots[j] is Unbound ==> slots[i]->Unbound_id != slots[j]->Unbound_id
}

/// Every unsolved cell holds an id under `uid`.
pub open spec fn ids_below(slots: Seq<Slot>, uid: nat) -> bool {
    forall|i: int| 0 <= i < slots.len() ==> (#[trigger] slots[i] matches Slot::Unbound { id, .. } ==> id
        < uid)
}

/// `b` has the cells of `a`, but that unsolved cells of `a` may be solved in `b`.
pub open spec fn bound_only(a: Seq<Slot>, b: Seq<Slot>) -> bool {
    &&& a.len() == b.len()
    &&& forall|i: int|
        0 <= i < a.len() ==> (#[trigger] b[i] == a[i] || (a[i] is Unbound && b[i] is Link))
}

/// Solving cells makes no two unsolved cells alike and no id larger.
pub proof fn lemma_bound_only_keeps_ids(a: Seq<Slot>, b: Seq<Slot>, uid: nat)
    requires
        bound_only(a, b),
    ensures
        distinct_ids(a) ==> distinct_ids(b),
        ids_below(a, uid) ==> ids_below(b, uid),
{
    if distinct_ids(a) {
        assert forall|i: int, j: int|
            0 <= i < b.len() && 0 <= j < b.len() && i != j && #[trigger] b[i] is Unbound
                && #[trigger] b[j] is Unbound implies b[i]->Unbound_id != b[j]->Unbound_id by {
            assert(b[i] == a[i]);
            assert(b[j] == a[j]);
        }
    }
    if ids_below(a, uid) {
        assert forall|i: int| 0 <= i < b.len() implies (#[trigger] b[i] matches Slot::Unbound {
            id,
            ..
        } ==> id < uid) by {
            if b[i] is Unbound {
                assert(b[i] == a[i]);
            }
        }
    }
}

/// New cells that hold no unsolved variable make no two unsolved cells alike and no id
/// larger.
pub proof fn lemma_more_cells_keep_ids(a: Seq<Slot>, b: Seq<Slot>, uid: nat)
    requires
        extends(a, b),
        forall|i: int| a.len() <= i < b.len() ==> !(#[trigger] b[i] is Unbound),
    ensures
        distinct_ids(a) ==> distinct_ids(b),
        ids_below(a, uid) ==> ids_below(b, uid),
{
    if distinct_ids(a) {
        assert forall|i: int, j: int|
            0 <= i < b.len() && 0 <= j < b.len() && i != j && #[trigger] b[i] is Unbound
                && #[trigger] b[j] is Unbound implies b[i]->Unbound_id != b[j]->Unbound_id by {
            assert(b[i] == a[i]);
            assert(b[j] == a[j]);
        }
    }
    if ids_below(a, uid) {
        assert forall|i: int| 0 <= i < b.len() implies (#[trigger] b[i] matches Slot::Unbound {
            id,
            ..
        } ==> id < uid) by {
            if b[i] is Unbound {
                assert(b[i] == a[i]);
            }
        }
    }
}

/// One more unsolved cell with the id `uid` makes no two unsolved cells alike where
/// every id was under `uid`.
pub proof fn lemma_fresh_cell_keeps_ids(a: Seq<Slot>, uid: nat, level: nat)
    requires
        distinct_ids(a),
        ids_below(a, uid),
    ensures
        distinct_ids(a.push(Slot::Unbound { id: uid, level })),
        ids_below(a.push(Slot::Unbound { id: uid, level }), uid + 1),
{
    let b = a.push(Slot::Unbound { id: uid, level });
    assert forall|i: int, j: int|
        0 <= i < b.len() && 0 <= j < b.len() && i != j && #[trigger] b[i] is Unbound
            && #[trigger] b[j] is Unbound implies b[i]->Unbound_id != b[j]->Unbound_id by {
        if i < a.len() {
            assert(b[i] == a[i]);
        }
        if j < a.len() {
            assert(b[j] == a[j]);
        }
    }
    assert forall|i: int| 0 <= i < b.len() implies (#[trigger] b[i] matches Slot::Unbound {
        id,
        ..
    } ==> id < uid + 1) by {
        if i < a.len() {
            assert(b[i] == a[i]);
        }
    }
}

/// The cells of the type variables, each named by its index.
#[derive(Debug)]
pub struct Store {
    pub cells: Vec<TypeVar>,
}

impl View for Store {
    type V = Seq<Slot>;

    open spec fn view(&self) -> Seq<Slot> {
        Seq::new(self.cells@.len(), |i: int| self.cells@[i]@)
    }
}

impl Store {
    /// No link dangles and no chain of links is cyclic.
    pub open spec fn wf(&self) -> bool {
        well_formed(self@)
    }

    /// A store without cells.
    pub fn new() -> (s: Store)
        ensures
            s@ == Seq::<Slot>::empty(),
            s.wf(),
    {
        let s = Store { cells: Vec::new() };
        proof {
            assert(s@ =~= Seq::<Slot>::empty());
            assert(ranked(s@, Seq::<nat>::empty()));
        }
        s
    }

    /// The number of cells.
    pub fn len(&self) -> (n: usize)
        ensures
            n == self@.len(),
    {
        self.cells.len()
    }

    /// Puts `var` into a new cell and returns the variable that names the cell.
    pub fn insert(&mut self, var: TypeVar) -> (t: Type)
        requires
            old(self).wf(),
            var@ matches Slot::Link { term } ==> in_range(term, old(self)@.len()),
        ensures
            final(self)@ == old(self)@.push(var@),
            final(self).wf(),
            t matches Type::Var { cell } && cell == old(self)@.len(),
    {
        let cell = self.cells.len();
        proof {
            lemma_push_well_formed(self@, var@);
        }
        self.cells.push(var);
        proof {
            assert(self@ =~= old(self)@.push(var@));
        }
        Type::Var { cell }
    }

    /// The state of a cell.
    pub fn get(&self, cell: usize) -> (var: &TypeVar)
        requires
            cell < self@.len(),
        ensures
            var@ == self@[cell as int],
    {
        &self.cells[cell]
    }
}

/// Whether every variable of the types names a cell of the store.
fn types_in_store(store: &Store, ts: &Vec<Type>) -> (ok: bool)
    ensures
        ok == forall|i: int| 0 <= i < ts@.len() ==> in_range(#[trigger] terms_of(ts@)[i], store@.len()),
    decreases ts,
{
    proof {
        lemma_terms_of(ts@);
    }
    let mut i: usize = 0;
    while i < ts.len()
        invariant
            i <= ts.len(),
            terms_of(ts@).len() == ts@.len(),
            forall|j: int| 0 <= j < ts@.len() ==> #[trigger] terms_of(ts@)[j] == ts@[j]@,
            forall|j: int| 0 <= j < i ==> in_range(#[trigger] terms_of(ts@)[j], store@.len()),
        decreases ts.len() - i,
    {
        if !store.contains(&ts[i]) {
            proof {
                assert(!in_range(terms_of(ts@)[i as int], store@.len()));
            }
            return false;
        }
        i += 1;
    }
    true
}

/// Whether every variable of the row names a cell of the store.
fn row_in_store(store: &Store, r: &Row) -> (ok: bool)
    ensures
        ok == forall|i: int| 0 <= i < r@.len() ==> in_range((#[trigger] r@[i]).1, store@.len()),
    decreases r,
{
    match r {
        Row::Nil => true,
        Row::Cons { label, head, tail } => {
            proof {
                assert(r@[0] == (label@, head@));
                assert forall|i: int| 0 <= i < tail@.len() implies #[trigger] tail@[i] == r@[i
                    + 1] by {}
            }
            if !store.contains(head) {
                proof {
                    assert(!in_range(r@[0].1, store@.len()));
                }
                return false;
            }
            let ok = row_in_store(store, tail);
            proof {
                if ok {
                    assert forall|i: int| 0 <= i < r@.len() implies in_range(
                        (#[trigger] r@[i]).1,
                        store@.len(),
                    ) by {
                        if i > 0 {
                            assert(r@[i] == tail@[i - 1]);
                        }
                    }
                } else {
                    let i = choose|i: int|
                        0 <= i < tail@.len() && !in_range((#[trigger] tail@[i]).1, store@.len());
                    assert(tail@[i] == r@[i + 1]);
                    assert(!in_range(r@[i + 1].1, store@.len()));
                }
            }
            ok
        },
    }
}

impl Store {
    /// Whether every variable of a type names a cell of this store.
    pub fn contains(&self, t: &Type) -> (ok: bool)
        ensures
            ok == in_range(t@, self@.len()),
        decreases t,
    {
        match t {
            Type::Const { .. } => true,
            Type::App { args, .. } => {
                proof {
                    lemma_terms_of(args@);
                    assert(t@->App_args == terms_of(args@));
                }
                types_in_store(self, args)
            },
            Type::Tuple { elems } => {
                proof {
                    lemma_terms_of(elems@);
                    assert(t@->elems == terms_of(elems@));
                }
                types_in_store(self, elems)
            },
            Type::Fun { args, retrn } => {
                proof {
                    lemma_terms_of(args@);
                    assert(t@->Fun_args == terms_of(args@));
                    assert(*t@->retrn == retrn@);
                }
                if self.contains(retrn) {
                    types_in_store(self, args)
                } else {
                    false
                }
            },
            Type::Record { row } => {
                proof {
                    assert(t@->Record_fields == row@);
                }
                row_in_store(self, row)
            },
            Type::Module { row } => {
                proof {
                    assert(t@->Module_fields == row@);
                }
                row_in_store(self, row)
            },
            Type::Var { cell } => *cell < self.cells.len(),
        }
    }
}

} // verus!
