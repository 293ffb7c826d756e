use crate::ast::{type_term, Expr, Pattern, TypedExpr, UntypedExpr};
use crate::infer::{ctx_after, failure, scope_after, typed_as, Failure};
use crate::pretty::Doc;
use crate::printer::{
    lemma_print_renamed, letter, print, print_var, renamed, renamed_names,
};
use crate::generalise::{fresh_var, generalised, generalised_all, instantiated, position};
use crate::store::{distinct_ids, in_range, resolve, resolve_all, well_formed, Shape};
use crate::typ::{builtin, Slot, Term};
use crate::sound::{agree, lemma_unify};
use crate::unify::{head, lemma_head, occurs, unbound_id, unify_spec, Clash};
use vstd::prelude::*;

verus! {

/// A variable that is printed with an empty naming table and no name given yet is called
/// `a`, whatever its id: two printings that share no table both start there.
pub proof fn law_names_start_at_a(id: nat, cell: nat, level: nat)
    ensures
        print_var(id, Map::empty(), 0).0 == Doc::Text(seq!['a']),
        print(Shape::Generic { id }, Map::empty(), 0).0 == Doc::Text(seq!['a']),
        print(Shape::Unbound { cell, id, level }, Map::empty(), 0).0 == Doc::Text(seq!['a']),
{
    reveal_strlit("abcdefghijklmnopqrstuvwxyz");
    assert(letter(0) =~= seq!['a']);
}

/// A variable keeps the name that it was given: printing it again, with the table that the
/// first printing left, shows the same name and gives no new one.
pub proof fn law_name_is_kept(id: nat, names: Map<nat, Seq<char>>, next: nat)
    ensures
        ({
            let first = print_var(id, names, next);
            print_var(id, first.1, first.2) == first
        }),
{
}

/// The names are given in the order of the alphabet: a variable without a name gets the
/// letter that stands at the place of the count of names given before.
pub proof fn law_names_follow_the_alphabet(id: nat, names: Map<nat, Seq<char>>, next: nat)
    requires
        !names.contains_key(id),
    ensures
        print_var(id, names, next).0 == Doc::Text(letter(next)),
        print_var(id, names, next).1 == names.insert(id, letter(next)),
        print_var(id, names, next).2 == next + 1,
{
}

/// The names in a document depend only on the order in which the variables are met, not on
/// their ids: a shape with other ids, as many different ones, is shown alike. Here `f` gives
/// the other ids and `g` takes each of them back, so that `f` gives different ids for
/// different ids.
pub proof fn law_names_depend_on_order_only(
    s: Shape,
    f: spec_fn(nat) -> nat,
    g: spec_fn(nat) -> nat,
)
    requires
        forall|id: nat| g(#[trigger] f(id)) == id,
    ensures
        print(renamed(s, f), Map::empty(), 0).0 == print(s, Map::empty(), 0).0,
        print(renamed(s, f), Map::empty(), 0).2 == print(s, Map::empty(), 0).2,
{
    lemma_print_renamed(s, Map::empty(), 0, f, g);
    assert(renamed_names(Map::empty(), f, g) =~= Map::<nat, Seq<char>>::empty());
}

/// A literal has the type of its class, in every scope and at every level: `Int` for a whole
/// number, `Float` for a floating point number, `Atom` for an atom and `String` for a text.
/// Inference does not fail on it.
pub proof fn law_literal_types(
    expr: UntypedExpr,
    typed: TypedExpr,
    level: nat,
    ctx: Map<Seq<char>, Term>,
    uid: nat,
    slots: Seq<Slot>,
)
    requires
        typed_as(expr, typed, level, ctx, uid, slots),
    ensures
        expr is Int ==> type_term(typed) == builtin("Int"@),
        expr is Float ==> type_term(typed) == builtin("Float"@),
        expr is Atom ==> type_term(typed) == builtin("Atom"@),
        expr is String ==> type_term(typed) == builtin("String"@),
        expr is Int || expr is Float || expr is Atom || expr is String ==> failure(expr, ctx.dom())
            is None,
{
}

/// The type of a sequence is the type of its last expression, and the node of the sequence
/// holds that type.
pub proof fn law_sequence_type(
    expr: UntypedExpr,
    typed: TypedExpr,
    level: nat,
    ctx: Map<Seq<char>, Term>,
    uid: nat,
    slots: Seq<Slot>,
)
    requires
        expr is Sequence,
        typed_as(expr, typed, level, ctx, uid, slots),
    ensures
        typed matches Expr::Sequence { typ, then, .. } && typ@ == type_term(*then) && type_term(typed)
            == type_term(*then),
{
}

/// A function literal that is bound to a name has generic parameters: in the type that the
/// name is bound to, the parameter with the number `k` is the generic variable with the id
/// that was given to that parameter, so that each use of the name can have its own copy.
pub proof fn law_let_makes_parameters_generic(
    expr: UntypedExpr,
    typed: TypedExpr,
    level: nat,
    ctx: Map<Seq<char>, Term>,
    uid: nat,
    slots: Seq<Slot>,
    k: int,
)
    requires
        expr matches Expr::Let { pattern: Pattern::Var { .. }, value, .. } && (*value matches Expr::Fun {
            args,
            ..
        } && 0 <= k < args@.len()),
        typed_as(expr, typed, level, ctx, uid, slots),
    ensures
        typed matches Expr::Let { typ, .. } && (resolve(slots, typ@) matches Shape::Fun { args, .. }
            && k < args.len() && args[k] == (Shape::Generic { id: (uid + k) as nat })),
{
    let bound = typed->Let_typ;
    let literal = *expr->Let_value;
    let value = *typed->Let_value;
    assert(typed_as(literal, value, level + 1, ctx, uid, slots));
    let given = type_term(value);
    let params = given->Fun_args;
    assert(params[k] is Var);
    assert(resolve(slots, given)->Fun_args == resolve_all(slots, params, slots.len()));
    assert(resolve_all(slots, params, slots.len())[k] == resolve(slots, params[k]));
    let seen = resolve(slots, given);
    assert(seen->Fun_args[k] == (Shape::Unbound {
        cell: params[k]->cell,
        id: (uid + k) as nat,
        level: level + 1,
    }));
    assert(generalised(seen, level)->Fun_args == generalised_all(seen->Fun_args, level));
    assert(generalised_all(seen->Fun_args, level)[k] == generalised(seen->Fun_args[k], level));
    assert(resolve(slots, bound@) == generalised(seen, level));
}

/// Within one instantiation a generic variable has one new variable: where it is met again,
/// it is replaced by the variable that it was replaced by first, and no new one is made.
pub proof fn law_instantiation_reuses_variables(
    id: nat,
    seen: Seq<nat>,
    base_cell: nat,
    base_id: nat,
    level: nat,
)
    requires
        seen.no_duplicates(),
    ensures
        ({
            let first = instantiated(Shape::Generic { id }, seen, base_cell, base_id, level);
            instantiated(Shape::Generic { id }, first.1, base_cell, base_id, level) == first
        }),
        instantiated(Shape::Generic { id }, seen, base_cell, base_id, level).0 is Unbound,
        instantiated(Shape::Generic { id }, seen, base_cell, base_id, level).0->Unbound_level == level,
{
    if !seen.contains(id) {
        let after = seen.push(id);
        assert(after[seen.len() as int] == id);
        assert(after.contains(id));
        let k = position(after, id);
        if k != seen.len() {
            assert(seen[k as int] == id);
        }
        assert(fresh_var(k, base_cell, base_id, level) == fresh_var(
            seen.len(),
            base_cell,
            base_id,
            level,
        ));
    }
}

/// What is bound inside a function literal is not bound after it: the literal leaves the
/// names in scope, and their types, as it found them.
pub proof fn law_function_keeps_scope(
    expr: UntypedExpr,
    typed: TypedExpr,
    level: nat,
    ctx: Map<Seq<char>, Term>,
    uid: nat,
    slots: Seq<Slot>,
)
    requires
        expr is Fun,
        typed_as(expr, typed, level, ctx, uid, slots),
    ensures
        ctx_after(typed, ctx) == ctx,
        scope_after(expr, ctx.dom()) == ctx.dom(),
{
}

/// A name that nothing binds fails with the error for unknown variables, and so has no
/// typed expression.
pub proof fn law_unknown_variable(
    expr: UntypedExpr,
    scope: Set<Seq<char>>,
    typed: TypedExpr,
    level: nat,
    ctx: Map<Seq<char>, Term>,
    uid: nat,
    slots: Seq<Slot>,
)
    requires
        expr matches Expr::Var { name, .. } && !scope.contains(name@),
        ctx.dom() == scope,
    ensures
        expr matches Expr::Var { meta, name, .. } && failure(expr, scope) == Some(
            Failure::UnknownVariable { meta, name: name@ },
        ),
        !typed_as(expr, typed, level, ctx, uid, slots),
{
}

/// An unsolved variable is not unified with a type that holds it: unification fails with
/// the error for recursive types and changes no cell. This holds where the variable is the
/// left side and where it is the right side.
pub proof fn law_occurs_check(slots: Seq<Slot>, var: Term, other: Term, id: nat)
    requires
        well_formed(slots),
        in_range(var, slots.len()),
        in_range(other, slots.len()),
        unbound_id(slots, head(slots, var)) == Some(id),
        unbound_id(slots, head(slots, other)) is None,
        occurs(resolve(slots, other), id),
    ensures
        unify_spec(slots, var, other).slots == slots,
        unify_spec(slots, var, other).clash == Some(Clash::Recursive { id, term: other }),
        unify_spec(slots, other, var).slots == slots,
        unify_spec(slots, other, var).clash == Some(Clash::Recursive { id, term: other }),
{
    lemma_head(slots, var);
    lemma_head(slots, other);
}

/// Where unification succeeds, the two types are the same afterwards: through the links,
/// both are seen as one shape, but for whether the named types in it are public. This holds
/// where no two unsolved cells hold the same id, and then also holds of the cells that
/// unification leaves.
pub proof fn law_unified_types_agree(slots: Seq<Slot>, a: Term, b: Term)
    requires
        well_formed(slots),
        distinct_ids(slots),
        in_range(a, slots.len()),
        in_range(b, slots.len()),
        unify_spec(slots, a, b).clash is None,
    ensures
        agree(unify_spec(slots, a, b).slots, a, b),
        distinct_ids(unify_spec(slots, a, b).slots),
{
    lemma_unify(slots, a, b, a, b);
}

/// Unification takes nothing back: two types that were the same before it are the same
/// after it, whether it succeeds or fails.
pub proof fn law_unification_keeps_what_agreed(slots: Seq<Slot>, a: Term, b: Term, p: Term, q: Term)
    requires
        well_formed(slots),
        distinct_ids(slots),
        in_range(a, slots.len()),
        in_range(b, slots.len()),
        in_range(p, slots.len()),
        in_range(q, slots.len()),
        agree(slots, p, q),
    ensures
        agree(unify_spec(slots, a, b).slots, p, q),
{
    lemma_unify(slots, a, b, p, q);
}

} // verus!
