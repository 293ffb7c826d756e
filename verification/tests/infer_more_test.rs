use gleam_typ::ast::{Arg, BinOp, Expr, Meta, Pattern, Scope, UntypedExpr};
use gleam_typ::env::Env;
use gleam_typ::infer::{infer, Error, Form};
use gleam_typ::pretty::{break_, join_docs, text, Document};
use gleam_typ::printer::{new_names, next_letter};
use gleam_typ::store::Store;
use gleam_typ::typ::{atom, float, int_type, list, string, Type, TypeVar};

fn at(start: usize, end: usize) -> Meta {
    Meta { start, end }
}

fn show(typ: &Type, store: &Store) -> String {
    typ.to_gleam_doc(store, &mut im::HashMap::new(), &mut 0)
        .format(80)
}

fn number(value: i64) -> UntypedExpr {
    Expr::Int {
        meta: at(0, 1),
        value,
    }
}

fn name(name: &str) -> UntypedExpr {
    Expr::Var {
        meta: at(3, 4),
        typ: (),
        scope: (),
        name: name.to_string(),
    }
}

fn bind(name: &str, value: UntypedExpr, then: UntypedExpr) -> UntypedExpr {
    Expr::Let {
        meta: at(0, 9),
        typ: (),
        pattern: Pattern::Var {
            meta: at(0, 1),
            name: name.to_string(),
        },
        value: Box::new(value),
        then: Box::new(then),
    }
}

fn fun(args: &[&str], body: UntypedExpr) -> UntypedExpr {
    Expr::Fun {
        meta: at(0, 9),
        typ: (),
        args: args
            .iter()
            .map(|name| Arg {
                name: name.to_string(),
            })
            .collect(),
        body: Box::new(body),
    }
}

fn then(first: UntypedExpr, then: UntypedExpr) -> UntypedExpr {
    Expr::Sequence {
        meta: at(0, 9),
        typ: (),
        first: Box::new(first),
        then: Box::new(then),
    }
}

#[test]
fn literals_have_their_fixed_types() {
    let literals = vec![
        (number(1), int_type()),
        (
            Expr::Float {
                meta: at(0, 3),
                value: "1.0".to_string(),
            },
            float(),
        ),
        (
            Expr::Atom {
                meta: at(0, 7),
                value: "hello".to_string(),
            },
            atom(),
        ),
        (
            Expr::String {
                meta: at(0, 4),
                value: "ok".to_string(),
            },
            string(),
        ),
    ];
    for (literal, typ) in literals.into_iter() {
        let mut env = Env::default();
        let typed = infer(literal, 3, &mut env).expect("a literal has a type");
        assert_eq!(typ, typed.typ());
        assert_eq!(0, env.uid);
        assert_eq!(0, env.store.len());
    }
}

#[test]
fn sequence_has_the_type_of_its_last_expression() {
    let mut env = Env::default();
    let float_literal = Expr::Float {
        meta: at(3, 6),
        value: "2.0".to_string(),
    };
    let typed = infer(then(number(1), float_literal), 1, &mut env).unwrap();
    assert_eq!(float(), typed.typ());
    match typed {
        Expr::Sequence {
            typ, first, then, ..
        } => {
            assert_eq!(float(), typ);
            assert_eq!(int_type(), first.typ());
            assert_eq!(float(), then.typ());
        }
        other => panic!("{:?}", other),
    }
}

#[test]
fn unknown_variable_is_an_error() {
    let mut env = Env::default();
    env.put_variable("known".to_string(), int_type());
    match infer(name("missing"), 1, &mut env) {
        Err(Error::UnknownVariable {
            meta,
            name,
            variables,
        }) => {
            assert_eq!(at(3, 4), meta);
            assert_eq!("missing", name);
            assert_eq!(1, variables.len());
            assert_eq!(Some(&int_type()), variables.get("known"));
        }
        other => panic!("{:?}", other),
    }
}

#[test]
fn unknown_variable_stops_inference_at_once() {
    let mut env = Env::default();
    let expr = bind(
        "x",
        number(1),
        then(name("y"), bind("z", number(2), name("nothing"))),
    );
    match infer(expr, 1, &mut env) {
        Err(Error::UnknownVariable {
            name, variables, ..
        }) => {
            assert_eq!("y", name);
            assert!(variables.contains_key("x"));
            assert!(!variables.contains_key("z"));
        }
        other => panic!("{:?}", other),
    }
    assert!(env.get_variable(&"z".to_string()).is_none());
}

#[test]
fn variable_has_the_type_of_its_binding() {
    let mut env = Env::default();
    env.put_variable("x".to_string(), list(atom()));
    let typed = infer(name("x"), 1, &mut env).unwrap();
    match &typed {
        Expr::Var {
            scope, typ, name, ..
        } => {
            assert_eq!(&Scope::Local, scope);
            assert_eq!(&list(atom()), typ);
            assert_eq!("x", name);
        }
        other => panic!("{:?}", other),
    }
}

#[test]
fn function_parameters_do_not_leak() {
    let mut env = Env::default();
    env.put_variable("outer".to_string(), int_type());
    let expr = fun(&["x", "outer"], bind("inner", name("x"), name("outer")));
    let typed = infer(expr, 1, &mut env).unwrap();
    assert_eq!("fn(a, b) -> b", show(&typed.typ(), &env.store));
    assert!(env.get_variable(&"x".to_string()).is_none());
    assert!(env.get_variable(&"inner".to_string()).is_none());
    assert_eq!(Some(&int_type()), env.get_variable(&"outer".to_string()));
    assert_eq!(2, env.uid);
}

#[test]
fn function_bodies_see_the_enclosing_scope() {
    let mut env = Env::default();
    let expr = bind("x", number(1), fun(&["y"], name("x")));
    let typed = infer(expr, 1, &mut env).unwrap();
    assert_eq!("fn(a) -> Int", show(&typed.typ(), &env.store));
}

#[test]
fn fresh_variables_are_numbered_in_order() {
    let mut env = Env::default();
    let expr = then(
        fun(&["x", "y"], Expr::Nil {
            meta: at(0, 2),
            typ: (),
        }),
        fun(&["z"], name("z")),
    );
    let typed = infer(expr, 7, &mut env).unwrap();
    assert_eq!(4, env.uid);
    assert_eq!(4, env.store.len());
    for id in 0..4 {
        assert_eq!(&TypeVar::Unbound { id, level: 7 }, env.store.get(id));
    }
    assert_eq!("fn(a) -> a", show(&typed.typ(), &env.store));
}

#[test]
fn let_binding_stays_in_scope() {
    let mut env = Env::default();
    let typed = infer(bind("x", number(1), number(2)), 1, &mut env).unwrap();
    assert_eq!(int_type(), typed.typ());
    assert_eq!(Some(&int_type()), env.get_variable(&"x".to_string()));
}

#[test]
fn let_generalises_the_bound_function() {
    let mut env = Env::default();
    let expr = bind("id", fun(&["x"], name("x")), name("id"));
    let typed = infer(expr, 1, &mut env).unwrap();
    let typ = typed.typ();
    assert_eq!("fn(a) -> a", show(&typ, &env.store));
    match &typ {
        Type::Fun { args, retrn } => {
            let cell = match &args[0] {
                Type::Var { cell } => *cell,
                other => panic!("{:?}", other),
            };
            assert!(matches!(env.store.get(cell), TypeVar::Generic { id: 0 }));
            let cell = match &**retrn {
                Type::Var { cell } => *cell,
                other => panic!("{:?}", other),
            };
            assert!(matches!(env.store.get(cell), TypeVar::Generic { id: 0 }));
        }
        other => panic!("{:?}", other),
    }
    match typed {
        Expr::Let { value, .. } => {
            assert_eq!("fn(a) -> a", show(&value.typ(), &env.store));
            match value.typ() {
                Type::Fun { args, .. } => match &args[0] {
                    Type::Var { cell } => assert_eq!(
                        &TypeVar::Unbound { id: 0, level: 2 },
                        env.store.get(*cell)
                    ),
                    other => panic!("{:?}", other),
                },
                other => panic!("{:?}", other),
            }
        }
        other => panic!("{:?}", other),
    }
}

#[test]
fn let_keeps_variables_of_the_enclosing_level() {
    let mut env = Env::default();
    let expr = fun(&["x"], bind("y", name("x"), name("y")));
    let typed = infer(expr, 1, &mut env).unwrap();
    match typed.typ() {
        Type::Fun { args, retrn } => {
            assert_eq!(args[0], *retrn);
            match &args[0] {
                Type::Var { cell } => assert_eq!(
                    &TypeVar::Unbound { id: 0, level: 1 },
                    env.store.get(*cell)
                ),
                other => panic!("{:?}", other),
            }
        }
        other => panic!("{:?}", other),
    }
}

#[test]
fn unsupported_forms_are_not_implemented() {
    let meta = at(4, 8);
    let boxed = || Box::new(number(1));
    let cases: Vec<(UntypedExpr, Form)> = vec![
        (
            Expr::Tuple {
                meta,
                typ: (),
                elems: vec![number(1)],
            },
            Form::Tuple,
        ),
        (
            Expr::Cons {
                meta,
                typ: (),
                head: boxed(),
                tail: boxed(),
            },
            Form::Cons,
        ),
        (
            Expr::Call {
                meta,
                typ: (),
                fun: boxed(),
                args: vec![],
            },
            Form::Call,
        ),
        (
            Expr::BinOp {
                meta,
                typ: (),
                name: BinOp::AddInt,
                left: boxed(),
                right: boxed(),
            },
            Form::BinOp,
        ),
        (
            Expr::Case {
                meta,
                typ: (),
                subject: boxed(),
                clauses: vec![],
            },
            Form::Case,
        ),
        (
            Expr::Constructor {
                meta,
                typ: (),
                name: "Ok".to_string(),
            },
            Form::Constructor,
        ),
        (Expr::RecordNil { meta, typ: () }, Form::RecordNil),
        (
            Expr::RecordCons {
                meta,
                typ: (),
                label: "x".to_string(),
                value: boxed(),
                tail: boxed(),
            },
            Form::RecordCons,
        ),
        (
            Expr::RecordSelect {
                meta,
                typ: (),
                label: "x".to_string(),
                record: boxed(),
            },
            Form::RecordSelect,
        ),
        (
            Expr::ModuleSelect {
                meta,
                typ: (),
                module: boxed(),
                label: "x".to_string(),
            },
            Form::ModuleSelect,
        ),
        (
            Expr::Let {
                meta,
                typ: (),
                pattern: Pattern::Nil { meta: at(0, 2) },
                value: boxed(),
                then: boxed(),
            },
            Form::Pattern,
        ),
    ];
    for (expr, expected) in cases.into_iter() {
        let mut env = Env::default();
        match infer(expr, 1, &mut env) {
            Err(Error::NotImplemented { meta, form }) => {
                assert_eq!(at(4, 8), meta);
                assert_eq!(expected, form);
            }
            other => panic!("{:?}", other),
        }
    }
}

#[test]
fn unsupported_form_inside_a_function() {
    let mut env = Env::default();
    let call = Expr::Call {
        meta: at(1, 2),
        typ: (),
        fun: Box::new(name("f")),
        args: vec![],
    };
    assert!(matches!(
        infer(fun(&["f"], call), 1, &mut env),
        Err(Error::NotImplemented {
            form: Form::Call,
            ..
        })
    ));
}

#[test]
fn environment_starts_empty() {
    let mut env = Env::default();
    assert_eq!(0, env.uid);
    assert!(env.get_variable(&"x".to_string()).is_none());
    assert_eq!(0, env.variables.len());
    let a = env.new_unbound_var(3);
    let g = env.new_generic_var();
    assert_eq!(Type::Var { cell: 0 }, a);
    assert_eq!(Type::Var { cell: 1 }, g);
    assert_eq!(&TypeVar::Unbound { id: 0, level: 3 }, env.store.get(0));
    assert_eq!(&TypeVar::Generic { id: 1 }, env.store.get(1));
    env.put_variable("x".to_string(), a.clone());
    env.put_variable("x".to_string(), g.clone());
    assert_eq!(Some(&g), env.get_variable(&"x".to_string()));
    assert_eq!(2, env.uid);
}

#[test]
fn letters_go_from_a_to_z() {
    let mut i = 0;
    let mut all = String::new();
    while i < 26 {
        all.push_str(&next_letter(&mut i));
    }
    assert_eq!("abcdefghijklmnopqrstuvwxyz", all);
    assert_eq!(26, i);
}

#[test]
fn names_follow_the_order_of_first_sight() {
    let mut store = Store::new();
    let late = store.insert(TypeVar::Unbound { id: 90, level: 1 });
    let early = store.insert(TypeVar::Generic { id: 3 });
    let typ = Type::Fun {
        args: vec![late.clone(), early.clone(), late.clone()],
        retrn: Box::new(list(early.clone())),
    };
    assert_eq!("fn(a, b, a) -> List(b)", show(&typ, &store));
    assert_eq!("a", show(&early, &store));
    assert_eq!("a", show(&late, &store));
}

#[test]
fn names_are_kept_within_one_table() {
    let mut store = Store::new();
    let x = store.insert(TypeVar::Unbound { id: 10, level: 1 });
    let y = store.insert(TypeVar::Unbound { id: 11, level: 1 });
    let mut names = im::HashMap::new();
    let mut uid = 0;
    assert_eq!("a", x.to_gleam_doc(&store, &mut names, &mut uid).format(80));
    assert_eq!("b", y.to_gleam_doc(&store, &mut names, &mut uid).format(80));
    assert_eq!("a", x.to_gleam_doc(&store, &mut names, &mut uid).format(80));
    assert_eq!(2, uid);
    assert_eq!(Some(&"a".to_string()), names.get(&10));
    assert_eq!(Some(&"b".to_string()), names.get(&11));
    let cell = TypeVar::Unbound { id: 11, level: 5 };
    assert_eq!("b", cell.to_gleam_doc(&store, &mut names, &mut uid).format(80));
    let link = TypeVar::Link {
        typ: Box::new(list(x)),
    };
    assert_eq!(
        "List(a)",
        link.to_gleam_doc(&store, &mut names, &mut uid).format(80)
    );
    let generic = TypeVar::Generic { id: 12 };
    assert_eq!(
        "c",
        generic.to_gleam_doc(&store, &mut names, &mut uid).format(80)
    );
}

#[test]
fn long_types_break_after_each_comma() {
    let store = Store::new();
    let typ = Type::App {
        public: true,
        module: "".to_string(),
        name: "Pair".to_string(),
        args: vec![int_type(), atom()],
    };
    let doc = typ.to_gleam_doc(&store, &mut im::HashMap::new(), &mut 0);
    assert_eq!("Pair(Int, Atom)", doc.format(15));
    assert_eq!("Pair(Int,\n  Atom,\n)", doc.format(14));
    assert_eq!("Pair(Int,\n  Atom,\n)", doc.format(0));
}

#[test]
fn inner_groups_break_on_their_own() {
    let store = Store::new();
    let inner = Type::App {
        public: true,
        module: "".to_string(),
        name: "Pair".to_string(),
        args: vec![int_type(), atom()],
    };
    let typ = Type::Fun {
        args: vec![string(), inner],
        retrn: Box::new(float()),
    };
    let doc = typ.to_gleam_doc(&store, &mut im::HashMap::new(), &mut 0);
    assert_eq!("fn(String, Pair(Int, Atom)) -> Float", doc.format(36));
    assert_eq!("fn(String,\n  Pair(Int, Atom),\n) -> Float", doc.format(35));
    assert_eq!(
        "fn(String,\n  Pair(Int,\n    Atom,\n  ),\n) -> Float",
        doc.format(16)
    );
}

#[test]
fn documents_lay_out_as_built() {
    let doc = join_docs(vec![
        text("let"),
        break_("", " "),
        text("x"),
        Document::Nil,
    ])
    .nest(4)
    .group();
    assert_eq!("let x", doc.format(5));
    assert_eq!("let\n    x", doc.format(4));
    assert_eq!(Some(3), text("ab").fits(5));
    assert_eq!(None, text("abcdef").fits(5));
    assert_eq!(Some(0), text("é!").append(break_("xxxx", "…")).fits(3));
}

#[test]
fn types_that_cannot_be_shown_are_refused() {
    let mut store = Store::new();
    let a = store.insert(TypeVar::Unbound { id: 1, level: 1 });
    let tuple = Type::Tuple {
        elems: vec![int_type(), a.clone()],
    };
    let mut names = im::HashMap::new();
    let mut uid = 0;
    assert!(a.try_to_gleam_doc(&store, &mut names, &mut uid).is_some());
    assert_eq!(1, uid);
    let inside = Type::Fun {
        args: vec![store.insert(TypeVar::Unbound { id: 2, level: 1 }), tuple],
        retrn: Box::new(int_type()),
    };
    assert!(inside
        .try_to_gleam_doc(&store, &mut names, &mut uid)
        .is_none());
    assert_eq!(1, uid);
    assert_eq!(1, names.len());
    let link = TypeVar::Link {
        typ: Box::new(inside),
    };
    assert!(link.try_to_gleam_doc(&store, &mut names, &mut uid).is_none());
    assert_eq!(
        Some("fn(a) -> Int".to_string()),
        Type::Fun {
            args: vec![a],
            retrn: Box::new(int_type()),
        }
        .try_to_gleam_doc(&store, &mut names, &mut uid)
        .map(|doc| doc.format(80))
    );
}

#[test]
fn the_alphabet_has_twenty_six_names() {
    let mut store = Store::new();
    let mut vars = Vec::new();
    for id in 0..27 {
        vars.push(store.insert(TypeVar::Generic { id }));
    }
    let last = vars.pop().unwrap();
    let all = Type::Fun {
        args: vars,
        retrn: Box::new(int_type()),
    };
    let mut names = im::HashMap::new();
    let mut uid = 0;
    let shown = all
        .try_to_gleam_doc(&store, &mut names, &mut uid)
        .map(|doc| doc.format(200));
    assert_eq!(
        Some(
            "fn(a, b, c, d, e, f, g, h, i, j, k, l, m, n, o, p, q, r, s, t, u, v, w, x, y, z) -> Int"
                .to_string()
        ),
        shown
    );
    assert_eq!(26, uid);
    assert!(last.try_to_gleam_doc(&store, &mut names, &mut uid).is_none());
    assert_eq!(26, uid);
    assert_eq!(26, names.len());
    let known = TypeVar::Generic { id: 3 };
    assert_eq!(
        Some("d".to_string()),
        known
            .try_to_gleam_doc(&store, &mut names, &mut uid)
            .map(|doc| doc.format(80))
    );
}

#[test]
fn pretty_names_from_a_on_each_time() {
    let mut store = Store::new();
    let x = store.insert(TypeVar::Unbound { id: 40, level: 1 });
    let y = store.insert(TypeVar::Unbound { id: 41, level: 1 });
    let typ = Type::Fun {
        args: vec![y.clone(), x],
        retrn: Box::new(list(y.clone())),
    };
    assert_eq!(Some("fn(a, b) -> List(a)".to_string()), typ.pretty(&store, 80));
    assert_eq!(Some("a".to_string()), y.pretty(&store, 80));
    assert_eq!(
        Some("fn(a,\n  b,\n) -> List(a,\n)".to_string()),
        typ.pretty(&store, 10)
    );
    let tuple = Type::Tuple { elems: vec![y] };
    assert_eq!(None, tuple.pretty(&store, 80));
    let mut names = new_names();
    assert!(names.is_empty());
    let mut uid = 0;
    assert_eq!(
        "fn(a, b) -> List(a)",
        typ.to_gleam_doc(&store, &mut names, &mut uid).format(80)
    );
    assert_eq!(2, names.len());
}
