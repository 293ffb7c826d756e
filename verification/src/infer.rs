use crate::ast::{type_term, Arg, Expr, Meta, Pattern, Scope, TypedExpr, UntypedExpr};
use crate::env::{bindings, lemma_scope_extends, snapshot, Env};
use crate::generalise::{generalise, generalised};
use crate::store::{
    extends, in_range, lemma_in_range_more, lemma_in_range_types, lemma_more_cells_keep_ids,
    lemma_resolve_extends, resolve, well_formed,
};
use crate::typ::{clone_type, list, list_of, terms_of, Slot, Term, Type};
use crate::unify::UnifyError;
use vstd::prelude::*;

verus! {

/// An expression form that inference does not handle.
#[derive(Debug, Clone, Copy, PartialEq, Eq)]
pub enum Form {
    Tuple,
    Cons,
    Call,
    BinOp,
    Case,
    Constructor,
    RecordNil,
    RecordCons,
    RecordSelect,
    ModuleSelect,
    /// A binding whose left side is more than a name.
    Pattern,
}

/// Why no type was found.
#[derive(Debug)]
pub enum Error {
    /// A name that nothing binds, with the bindings that were in scope.
    UnknownVariable { meta: Meta, name: String, variables: im::HashMap<String, Type> },
    /// Two types that cannot be the same.
    TypeMismatch { meta: Meta, expected: Type, found: Type },
    /// A variable that would have to stand for a type that contains it.
    RecursiveType { meta: Meta, id: usize, typ: Type },
    /// An expression form outside of what inference handles.
    NotImplemented { meta: Meta, form: Form },
}

/// The error for a failed unification at the place `meta`.
pub fn located(e: UnifyError, meta: Meta) -> (err: Error)
    ensures
        (match e {
            UnifyError::TypeMismatch { expected, found } => err == (Error::TypeMismatch {
                meta,
                expected,
                found,
            }),
            UnifyError::RecursiveType { id, typ } => err == (Error::RecursiveType { meta, id, typ }),
        }),
{
    match e {
        UnifyError::TypeMismatch { expected, found } => Error::TypeMismatch { meta, expected, found },
        UnifyError::RecursiveType { id, typ } => Error::RecursiveType { meta, id, typ },
    }
}

/// The two ways in which inference fails by itself.
pub enum Failure {
    UnknownVariable { meta: Meta, name: Seq<char> },
    NotImplemented { meta: Meta, form: Form },
}

/// The form of an expression that inference does not handle, if it is one, and where it
/// stands.
pub open spec fn unsupported(expr: UntypedExpr) -> Option<(Meta, Form)> {
    match expr {
        Expr::Tuple { meta, .. } => Some((meta, Form::Tuple)),
        Expr::Cons { meta, .. } => Some((meta, Form::Cons)),
        Expr::Call { meta, .. } => Some((meta, Form::Call)),
        Expr::BinOp { meta, .. } => Some((meta, Form::BinOp)),
        Expr::Case { meta, .. } => Some((meta, Form::Case)),
        Expr::Constructor { meta, .. } => Some((meta, Form::Constructor)),
        Expr::RecordNil { meta, .. } => Some((meta, Form::RecordNil)),
        Expr::RecordCons { meta, .. } => Some((meta, Form::RecordCons)),
        Expr::RecordSelect { meta, .. } => Some((meta, Form::RecordSelect)),
        Expr::ModuleSelect { meta, .. } => Some((meta, Form::ModuleSelect)),
        Expr::Let { meta, pattern, .. } => if pattern is Var {
            None
        } else {
            Some((meta, Form::Pattern))
        },
        _ => None,
    }
}

/// The names in scope once the first `k` parameters are bound.
pub open spec fn param_scope(scope: Set<Seq<char>>, args: Seq<Arg>, k: nat) -> Set<Seq<char>>
    decreases k,
{
    if k == 0 || k > args.len() {
        scope
    } else {
        param_scope(scope, args, (k - 1) as nat).insert(args[k - 1].name@)
    }
}

/// The bindings once the first `k` parameters are bound, each to its type.
pub open spec fn bound_params(
    ctx: Map<Seq<char>, Term>,
    args: Seq<Arg>,
    types: Seq<Term>,
    k: nat,
) -> Map<Seq<char>, Term>
    decreases k,
{
    if k == 0 || k > args.len() {
        ctx
    } else {
        bound_params(ctx, args, types, (k - 1) as nat).insert(args[k - 1].name@, types[k - 1])
    }
}

/// The number of type variables that inference makes for an expression.
pub open spec fn fresh_vars(expr: UntypedExpr) -> nat
    decreases expr,
{
    match expr {
        Expr::Sequence { first, then, .. } => fresh_vars(*first) + fresh_vars(*then),
        Expr::Fun { args, body, .. } => args@.len() + fresh_vars(*body),
        Expr::Nil { .. } => 1,
        Expr::Let { value, then, .. } => fresh_vars(*value) + fresh_vars(*then),
        _ => 0,
    }
}

/// How deep the bound expressions of bindings are nested in an expression.
pub open spec fn let_depth(expr: UntypedExpr) -> nat
    decreases expr,
{
    match expr {
        Expr::Sequence { first, then, .. } => if let_depth(*first) >= let_depth(*then) {
            let_depth(*first)
        } else {
            let_depth(*then)
        },
        Expr::Fun { body, .. } => let_depth(*body),
        Expr::Let { value, then, .. } => if let_depth(*value) + 1 >= let_depth(*then) {
            let_depth(*value) + 1
        } else {
            let_depth(*then)
        },
        _ => 0,
    }
}

/// The names in scope after an expression, where inference succeeds on it: those before
/// it and those that it binds outside of every function body.
pub open spec fn scope_after(expr: UntypedExpr, scope: Set<Seq<char>>) -> Set<Seq<char>>
    decreases expr,
{
    match expr {
        Expr::Sequence { first, then, .. } => scope_after(*then, scope_after(*first, scope)),
        Expr::Let { pattern: Pattern::Var { name, .. }, value, then, .. } => scope_after(
            *then,
            scope_after(*value, scope).insert(name@),
        ),
        _ => scope,
    }
}

/// The first failure that inference meets in an expression, going through it from left to
/// right, with `scope` the names that are bound before it.
pub open spec fn failure(expr: UntypedExpr, scope: Set<Seq<char>>) -> Option<Failure>
    decreases expr,
{
    match expr {
        Expr::Int { .. } => None,
        Expr::Float { .. } => None,
        Expr::Atom { .. } => None,
        Expr::String { .. } => None,
        Expr::Nil { .. } => None,
        Expr::Sequence { first, then, .. } => match failure(*first, scope) {
            Some(f) => Some(f),
            None => failure(*then, scope_after(*first, scope)),
        },
        Expr::Var { meta, name, .. } => if scope.contains(name@) {
            None
        } else {
            Some(Failure::UnknownVariable { meta, name: name@ })
        },
        Expr::Fun { args, body, .. } => failure(*body, param_scope(scope, args@, args@.len())),
        Expr::Let { meta, pattern, value, then, .. } => match pattern {
            Pattern::Var { name, .. } => match failure(*value, scope) {
                Some(f) => Some(f),
                None => failure(*then, scope_after(*value, scope).insert(name@)),
            },
            _ => Some(Failure::NotImplemented { meta, form: Form::Pattern }),
        },
        _ => match unsupported(expr) {
            Some((meta, form)) => Some(Failure::NotImplemented { meta, form }),
            None => None,
        },
    }
}

/// The bindings after a typed expression: those before it and those that it makes outside
/// of every function body, each name with the type that its binding holds.
pub open spec fn ctx_after(typed: TypedExpr, ctx: Map<Seq<char>, Term>) -> Map<Seq<char>, Term>
    decreases typed,
{
    match typed {
        Expr::Sequence { first, then, .. } => ctx_after(*then, ctx_after(*first, ctx)),
        Expr::Let { pattern: Pattern::Var { name, .. }, typ, value, then, .. } => ctx_after(
            *then,
            ctx_after(*value, ctx).insert(name@, typ@),
        ),
        _ => ctx,
    }
}

/// Each of `types` is a variable of its own whose cell holds an unsolved variable of the
/// level `level`, numbered from `uid` on in their order.
pub open spec fn fresh_params(types: Seq<Term>, uid: nat, level: nat, slots: Seq<Slot>) -> bool {
    forall|k: int|
        0 <= k < types.len() ==> (#[trigger] types[k] matches Term::Var { cell } && cell < slots.len()
            && slots[cell as int] == (Slot::Unbound { id: uid + k as nat, level }))
}

/// `typed` is `expr` with the type of every node, as inference at the level `level` finds
/// them where `ctx` holds the types of the names in scope, `uid` numbers the next new type
/// variable and `slots` are the cells afterwards.
pub open spec fn typed_as(
    expr: UntypedExpr,
    typed: TypedExpr,
    level: nat,
    ctx: Map<Seq<char>, Term>,
    uid: nat,
    slots: Seq<Slot>,
) -> bool
    decreases expr,
{
    match expr {
        Expr::Int { meta, value } => typed == (Expr::<Scope, Type>::Int { meta, value }),
        Expr::Float { meta, value } => typed == (Expr::<Scope, Type>::Float { meta, value }),
        Expr::Atom { meta, value } => typed == (Expr::<Scope, Type>::Atom { meta, value }),
        Expr::String { meta, value } => typed == (Expr::<Scope, Type>::String { meta, value }),
        Expr::Sequence { meta, first, then, .. } => {
            &&& typed matches Expr::Sequence { meta: m, typ, first: f, then: t }
            &&& m == meta
            &&& typed_as(*first, *f, level, ctx, uid, slots)
            &&& typed_as(*then, *t, level, ctx_after(*f, ctx), uid + fresh_vars(*first), slots)
            &&& typ@ == type_term(*t)
        },
        Expr::Var { meta, name, .. } => {
            &&& typed matches Expr::Var { meta: m, typ, scope, name: n }
            &&& m == meta
            &&& n == name
            &&& scope == Scope::Local
            &&& ctx.contains_key(name@)
            &&& typ@ == ctx[name@]
        },
        Expr::Fun { meta, args, body, .. } => {
            &&& typed matches Expr::Fun { meta: m, typ, args: a, body: b }
            &&& m == meta
            &&& a == args
            &&& typ@ matches Term::Fun { args: types, retrn }
            &&& types.len() == args@.len()
            &&& fresh_params(types, uid, level, slots)
            &&& typed_as(
                *body,
                *b,
                level,
                bound_params(ctx, args@, types, args@.len()),
                uid + args@.len(),
                slots,
            )
            &&& *retrn == type_term(*b)
        },
        Expr::Nil { meta, .. } => {
            &&& typed matches Expr::Nil { meta: m, typ }
            &&& m == meta
            &&& typ@ matches Term::App { args: elems, .. }
            &&& elems.len() == 1
            &&& typ@ == list_of(elems[0])
            &&& fresh_params(elems, uid, level, slots)
        },
        Expr::Let { meta, pattern: Pattern::Var { name, meta: at }, value, then, .. } => {
            &&& typed matches Expr::Let { meta: m, typ, pattern: p, value: v, then: t }
            &&& m == meta
            &&& p == (Pattern::Var { name, meta: at })
            &&& typed_as(*value, *v, level + 1, ctx, uid, slots)
            &&& in_range(type_term(*v), slots.len())
            &&& in_range(typ@, slots.len())
            &&& resolve(slots, typ@) == generalised(resolve(slots, type_term(*v)), level)
            &&& typed_as(
                *then,
                *t,
                level,
                ctx_after(*v, ctx).insert(name@, typ@),
                uid + fresh_vars(*value),
                slots,
            )
        },
        _ => false,
    }
}

/// The typing of an expression holds on in every store that extends the one it was found in.
pub proof fn lemma_typed_as_extends(
    expr: UntypedExpr,
    typed: TypedExpr,
    level: nat,
    ctx: Map<Seq<char>, Term>,
    uid: nat,
    a: Seq<Slot>,
    b: Seq<Slot>,
)
    requires
        typed_as(expr, typed, level, ctx, uid, a),
        well_formed(a),
        extends(a, b),
    ensures
        typed_as(expr, typed, level, ctx, uid, b),
    decreases expr,
{
    match expr {
        Expr::Sequence { meta, first, then, .. } => {
            match typed {
                Expr::Sequence { meta: m, typ, first: f, then: t } => {
                    lemma_typed_as_extends(*first, *f, level, ctx, uid, a, b);
                    lemma_typed_as_extends(
                        *then,
                        *t,
                        level,
                        ctx_after(*f, ctx),
                        uid + fresh_vars(*first),
                        a,
                        b,
                    );
                },
                _ => {},
            }
        },
        Expr::Fun { meta, args, body, .. } => {
            match typed {
                Expr::Fun { meta: m, typ, args: aa, body: bb } => {
                    let types = typ@->Fun_args;
                    lemma_typed_as_extends(
                        *body,
                        *bb,
                        level,
                        bound_params(ctx, args@, types, args@.len()),
                        uid + args@.len(),
                        a,
                        b,
                    );
                },
                _ => {},
            }
        },
        Expr::Let { meta, pattern: Pattern::Var { name, meta: at }, value, then, .. } => {
            match typed {
                Expr::Let { meta: m, typ, pattern: p, value: v, then: t } => {
                    lemma_typed_as_extends(*value, *v, level + 1, ctx, uid, a, b);
                    lemma_typed_as_extends(
                        *then,
                        *t,
                        level,
                        ctx_after(*v, ctx).insert(name@, typ@),
                        uid + fresh_vars(*value),
                        a,
                        b,
                    );
                    lemma_resolve_extends(a, b, typ@);
                    lemma_resolve_extends(a, b, type_term(*v));
                    lemma_in_range_more(typ@, a.len(), b.len());
                    lemma_in_range_more(type_term(*v), a.len(), b.len());
                },
                _ => {},
            }
        },
        _ => {},
    }
}

/// The names that the bindings of the parameters hold are the names in scope.
pub proof fn lemma_bound_params_dom(
    ctx: Map<Seq<char>, Term>,
    args: Seq<Arg>,
    types: Seq<Term>,
    k: nat,
)
    ensures
        bound_params(ctx, args, types, k).dom() == param_scope(ctx.dom(), args, k),
    decreases k,
{
    if k == 0 || k > args.len() {
    } else {
        lemma_bound_params_dom(ctx, args, types, (k - 1) as nat);
        assert(bound_params(ctx, args, types, k).dom() =~= param_scope(ctx.dom(), args, k));
    }
}

/// After inference has succeeded, the names bound are those that the expression leaves in
/// scope.
pub proof fn lemma_ctx_after_dom(
    expr: UntypedExpr,
    typed: TypedExpr,
    level: nat,
    ctx: Map<Seq<char>, Term>,
    uid: nat,
    slots: Seq<Slot>,
)
    requires
        typed_as(expr, typed, level, ctx, uid, slots),
    ensures
        ctx_after(typed, ctx).dom() == scope_after(expr, ctx.dom()),
    decreases expr,
{
    match expr {
        Expr::Sequence { meta, first, then, .. } => {
            match typed {
                Expr::Sequence { meta: m, typ, first: f, then: t } => {
                    lemma_ctx_after_dom(*first, *f, level, ctx, uid, slots);
                    lemma_ctx_after_dom(
                        *then,
                        *t,
                        level,
                        ctx_after(*f, ctx),
                        uid + fresh_vars(*first),
                        slots,
                    );
                },
                _ => {},
            }
        },
        Expr::Let { meta, pattern: Pattern::Var { name, meta: at }, value, then, .. } => {
            match typed {
                Expr::Let { meta: m, typ, pattern: p, value: v, then: t } => {
                    lemma_ctx_after_dom(*value, *v, level + 1, ctx, uid, slots);
                    lemma_ctx_after_dom(
                        *then,
                        *t,
                        level,
                        ctx_after(*v, ctx).insert(name@, typ@),
                        uid + fresh_vars(*value),
                        slots,
                    );
                    assert(ctx_after(*v, ctx).insert(name@, typ@).dom() =~= scope_after(
                        *value,
                        ctx.dom(),
                    ).insert(name@));
                },
                _ => {},
            }
        },
        _ => {},
    }
}

/// Crawl the AST, annotating each node with the inferred type or
/// returning an error.
///
/// Inference stops at the first failure; the environment is then left as it was at that
/// point. A function literal leaves the names in scope as it found them.
pub fn infer(expr: UntypedExpr, level: usize, env: &mut Env) -> (res: Result<TypedExpr, Error>)
    requires
        old(env).wf(),
        old(env).uid + fresh_vars(expr) <= usize::MAX,
        level + let_depth(expr) <= usize::MAX,
    ensures
        final(env).wf(),
        extends(old(env).store@, final(env).store@),
        (match res {
            Ok(typed) => {
                &&& failure(expr, bindings(old(env).variables).dom()) is None
                &&& typed_as(
                    expr,
                    typed,
                    level as nat,
                    bindings(old(env).variables),
                    old(env).uid as nat,
                    final(env).store@,
                )
                &&& bindings(final(env).variables) == ctx_after(typed, bindings(old(env).variables))
                &&& final(env).uid == old(env).uid + fresh_vars(expr)
                &&& in_range(type_term(typed), final(env).store@.len())
            },
            Err(Error::UnknownVariable { meta, name, variables }) => {
                &&& failure(expr, bindings(old(env).variables).dom()) == Some(
                    Failure::UnknownVariable { meta, name: name@ },
                )
                &&& bindings(variables) == bindings(final(env).variables)
            },
            Err(Error::NotImplemented { meta, form }) => failure(
                expr,
                bindings(old(env).variables).dom(),
            ) == Some(Failure::NotImplemented { meta, form }),
            Err(_) => false,
        }),
    decreases expr,
{
    let ghost ctx0 = bindings(env.variables);
    let ghost uid0 = env.uid as nat;
    let ghost slots0 = env.store@;
    match expr {
        Expr::Int { meta, value } => Ok(Expr::Int { meta, value }),
        Expr::Float { meta, value } => Ok(Expr::Float { meta, value }),
        Expr::Atom { meta, value } => Ok(Expr::Atom { meta, value }),
        Expr::String { meta, value } => Ok(Expr::String { meta, value }),
        Expr::Sequence { meta, typ: _, first, then } => {
            let ghost first_expr = *first;
            let ghost then_expr = *then;
            let first = match infer(*first, level, env) {
                Ok(typed) => typed,
                Err(e) => {
                    return Err(e);
                },
            };
            let ghost slots1 = env.store@;
            proof {
                lemma_ctx_after_dom(first_expr, first, level as nat, ctx0, uid0, slots1);
            }
            let then = match infer(*then, level, env) {
                Ok(typed) => typed,
                Err(e) => {
                    return Err(e);
                },
            };
            proof {
                lemma_typed_as_extends(
                    first_expr,
                    first,
                    level as nat,
                    ctx0,
                    uid0,
                    slots1,
                    env.store@,
                );
            }
            let typ = then.typ();
            Ok(Expr::Sequence { meta, typ, first: Box::new(first), then: Box::new(then) })
        },
        Expr::Var { meta, scope: _, typ: _, name } => {
            match env.get_variable(&name) {
                Some(t) => {
                    let typ = clone_type(t);
                    Ok(Expr::Var { meta, scope: Scope::Local, typ, name })
                },
                None => Err(
                    Error::UnknownVariable { meta, name, variables: snapshot(&env.variables) },
                ),
            }
        },
        Expr::Fun { meta, typ: _, args, body } => {
            let ghost body_expr = *body;
            let saved = snapshot(&env.variables);
            let ghost vars0 = env.variables;
            let mut args_types: Vec<Type> = Vec::new();
            let mut i: usize = 0;
            while i < args.len()
                invariant
                    i <= args.len(),
                    args_types@.len() == i,
                    env.wf(),
                    env.uid == uid0 + i,
                    env.variables == vars0,
                    extends(slots0, env.store@),
                    uid0 + args@.len() + fresh_vars(body_expr) <= usize::MAX,
                    forall|k: int|
                        0 <= k < i ==> (#[trigger] args_types@[k]@ matches Term::Var { cell } && cell
                            < env.store@.len() && env.store@[cell as int] == (Slot::Unbound {
                            id: uid0 + k as nat,
                            level: level as nat,
                        })),
                decreases args.len() - i,
            {
                let t = env.new_unbound_var(level);
                args_types.push(t);
                i += 1;
            }
            let ghost types = terms_of(args_types@);
            let ghost slots1 = env.store@;
            proof {
                crate::typ::lemma_terms_of(args_types@);
                assert(fresh_params(types, uid0, level as nat, slots1)) by {
                    assert forall|k: int| 0 <= k < types.len() implies (
                    #[trigger] types[k] matches Term::Var { cell } && cell < slots1.len()
                        && slots1[cell as int] == (Slot::Unbound {
                        id: uid0 + k as nat,
                        level: level as nat,
                    })) by {
                        assert(types[k] == args_types@[k]@);
                    }
                }
            }
            let mut j: usize = 0;
            while j < args.len()
                invariant
                    j <= args.len(),
                    args_types@.len() == args@.len(),
                    env.wf(),
                    env.uid == uid0 + args@.len(),
                    env.store@ == slots1,
                    types == terms_of(args_types@),
                    types.len() == args@.len(),
                    forall|k: int| 0 <= k < args@.len() ==> #[trigger] types[k] == args_types@[k]@,
                    fresh_params(types, uid0, level as nat, slots1),
                    bindings(env.variables) == bound_params(ctx0, args@, types, j as nat),
                decreases args.len() - j,
            {
                proof {
                    assert(types[j as int] == args_types@[j as int]@);
                }
                env.put_variable(args[j].name.clone(), clone_type(&args_types[j]));
                j += 1;
            }
            proof {
                lemma_bound_params_dom(ctx0, args@, types, args@.len());
            }
            let body = match infer(*body, level, env) {
                Ok(typed) => typed,
                Err(e) => {
                    return Err(e);
                },
            };
            proof {
                lemma_scope_extends(ctx0, slots0.len(), env.store@.len());
                lemma_in_range_types(args_types@, env.store@.len());
                assert(fresh_params(types, uid0, level as nat, env.store@));
            }
            env.variables = saved;
            let typ = Type::Fun { args: args_types, retrn: Box::new(body.typ()) };
            Ok(Expr::Fun { meta, typ, args, body: Box::new(body) })
        },
        Expr::Nil { meta, typ: _ } => {
            let var = env.new_unbound_var(level);
            let ghost elem = var@;
            let typ = list(var);
            proof {
                assert(seq![elem][0] == elem);
                assert forall|i: int| 0 <= i < seq![elem].len() implies in_range(
                    #[trigger] seq![elem][i],
                    env.store@.len(),
                ) by {
                    assert(seq![elem][i] == elem);
                }
            }
            Ok(Expr::Nil { meta, typ })
        },
        Expr::Let { meta, typ: _, pattern, value, then } => {
            match pattern {
                Pattern::Var { name, meta: pattern_meta } => {
                    let ghost value_expr = *value;
                    let value = match infer(*value, level + 1, env) {
                        Ok(typed) => typed,
                        Err(e) => {
                            return Err(e);
                        },
                    };
                    let ghost slots1 = env.store@;
                    let ghost ctx1 = bindings(env.variables);
                    proof {
                        lemma_ctx_after_dom(
                            value_expr,
                            value,
                            (level + 1) as nat,
                            ctx0,
                            uid0,
                            slots1,
                        );
                    }
                    let typ = generalise(&mut env.store, value.typ(), level);
                    let ghost slots2 = env.store@;
                    proof {
                        lemma_scope_extends(ctx1, slots1.len(), slots2.len());
                        lemma_more_cells_keep_ids(slots1, slots2, env.uid as nat);
                    }
                    env.put_variable(name.clone(), clone_type(&typ));
                    let then = match infer(*then, level, env) {
                        Ok(typed) => typed,
                        Err(e) => {
                            return Err(e);
                        },
                    };
                    proof {
                        let slots3 = env.store@;
                        lemma_typed_as_extends(
                            value_expr,
                            value,
                            (level + 1) as nat,
                            ctx0,
                            uid0,
                            slots1,
                            slots3,
                        );
                        lemma_resolve_extends(slots1, slots2, type_term(value));
                        lemma_resolve_extends(slots1, slots3, type_term(value));
                        lemma_resolve_extends(slots2, slots3, typ@);
                        lemma_in_range_more(type_term(value), slots1.len(), slots3.len());
                        lemma_in_range_more(typ@, slots2.len(), slots3.len());
                    }
                    Ok(
                        Expr::Let {
                            meta,
                            typ,
                            pattern: Pattern::Var { name, meta: pattern_meta },
                            value: Box::new(value),
                            then: Box::new(then),
                        },
                    )
                },
                _ => Err(Error::NotImplemented { meta, form: Form::Pattern }),
            }
        },
        Expr::Tuple { meta, .. } => Err(Error::NotImplemented { meta, form: Form::Tuple }),
        Expr::Cons { meta, .. } => Err(Error::NotImplemented { meta, form: Form::Cons }),
        Expr::Call { meta, .. } => Err(Error::NotImplemented { meta, form: Form::Call }),
        Expr::BinOp { meta, .. } => Err(Error::NotImplemented { meta, form: Form::BinOp }),
        Expr::Case { meta, .. } => Err(Error::NotImplemented { meta, form: Form::Case }),
        Expr::Constructor { meta, .. } => Err(
            Error::NotImplemented { meta, form: Form::Constructor },
        ),
        Expr::RecordNil { meta, .. } => Err(Error::NotImplemented { meta, form: Form::RecordNil }),
        Expr::RecordCons { meta, .. } => Err(
            Error::NotImplemented { meta, form: Form::RecordCons },
        ),
        Expr::RecordSelect { meta, .. } => Err(
            Error::NotImplemented { meta, form: Form::RecordSelect },
        ),
        Expr::ModuleSelect { meta, .. } => Err(
            Error::NotImplemented { meta, form: Form::ModuleSelect },
        ),
    }
}

} // verus!
