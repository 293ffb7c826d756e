use gleam_typ::ast::{Arg, Expr, Meta, Pattern, UntypedExpr};
use gleam_typ::env::Env;
use gleam_typ::infer::infer;
use gleam_typ::printer::next_letter;
use gleam_typ::store::Store;
use gleam_typ::typ::{Type, TypeVar};

fn constant(name: &str) -> Type {
    Type::Const {
        module: "whatever".to_string(),
        name: name.to_string(),
        public: true,
    }
}

fn render(typ: &Type, store: &Store) -> String {
    typ.to_gleam_doc(store, &mut im::HashMap::new(), &mut 0)
        .format(80)
}

#[test]
fn letter_test() {
    let mut i = 0;
    assert_eq!("a", next_letter(&mut i));
    assert_eq!("b", next_letter(&mut i));
    assert_eq!("c", next_letter(&mut i));
}

#[test]
fn to_gleam_doc_test() {
    let mut store = Store::new();
    let linked = store.insert(TypeVar::Link {
        typ: Box::new(constant("Int")),
    });
    let unbound_2231 = store.insert(TypeVar::Unbound { level: 1, id: 2231 });
    let unbound_78 = store.insert(TypeVar::Unbound { level: 1, id: 78 });
    let unbound_2 = store.insert(TypeVar::Unbound { level: 1, id: 2 });
    let generic_78 = store.insert(TypeVar::Generic { id: 78 });
    let generic_2 = store.insert(TypeVar::Generic { id: 2 });
    let cases = vec![
        (constant("Int"), "Int"),
        (
            Type::App {
                module: "".to_string(),
                name: "Pair".to_string(),
                public: true,
                args: vec![constant("Int"), constant("Bool")],
            },
            "Pair(Int, Bool)",
        ),
        (
            Type::Fun {
                args: vec![constant("Int"), constant("Bool")],
                retrn: Box::new(constant("Bool")),
            },
            "fn(Int, Bool) -> Bool",
        ),
        (linked, "Int"),
        (unbound_2231, "a"),
        (
            Type::Fun {
                args: vec![unbound_78],
                retrn: Box::new(unbound_2),
            },
            "fn(a) -> b",
        ),
        (
            Type::Fun {
                args: vec![generic_78],
                retrn: Box::new(generic_2),
            },
            "fn(a) -> b",
        ),
    ];

    for (typ, s) in cases.into_iter() {
        assert_eq!(s.to_string(), render(&typ, &store));
    }
}

fn meta() -> Meta {
    Meta { start: 0, end: 0 }
}

fn whole(value: i64) -> UntypedExpr {
    Expr::Int {
        meta: meta(),
        value,
    }
}

fn float(value: &str) -> UntypedExpr {
    Expr::Float {
        meta: meta(),
        value: value.to_string(),
    }
}

fn atom(value: &str) -> UntypedExpr {
    Expr::Atom {
        meta: meta(),
        value: value.to_string(),
    }
}

fn string(value: &str) -> UntypedExpr {
    Expr::String {
        meta: meta(),
        value: value.to_string(),
    }
}

fn var(name: &str) -> UntypedExpr {
    Expr::Var {
        meta: meta(),
        typ: (),
        scope: (),
        name: name.to_string(),
    }
}

fn nil() -> UntypedExpr {
    Expr::Nil {
        meta: meta(),
        typ: (),
    }
}

fn chain(first: UntypedExpr, then: UntypedExpr) -> UntypedExpr {
    Expr::Sequence {
        meta: meta(),
        typ: (),
        first: Box::new(first),
        then: Box::new(then),
    }
}

fn bind(name: &str, value: UntypedExpr, then: UntypedExpr) -> UntypedExpr {
    Expr::Let {
        meta: meta(),
        typ: (),
        pattern: Pattern::Var {
            meta: meta(),
            name: name.to_string(),
        },
        value: Box::new(value),
        then: Box::new(then),
    }
}

fn fun(args: &[&str], body: UntypedExpr) -> UntypedExpr {
    Expr::Fun {
        meta: meta(),
        typ: (),
        args: args
            .iter()
            .map(|name| Arg {
                name: name.to_string(),
            })
            .collect(),
        body: Box::new(body),
    }
}

#[test]
fn infer_test() {
    let cases = vec![
        (whole(1), "Int"),
        (whole(-2), "Int"),
        (float("1.0"), "Float"),
        (float("-8.0"), "Float"),
        (atom("hello"), "Atom"),
        (string("ok"), "String"),
        (string("ok"), "String"),
        (chain(whole(1), float("2.0")), "Float"),
        (bind("x", whole(1), whole(2)), "Int"),
        (bind("x", whole(1), var("x")), "Int"),
        (bind("x", atom("ok"), var("x")), "Atom"),
        (
            bind("x", atom("ok"), bind("y", var("x"), var("y"))),
            "Atom",
        ),
        (
            bind("x", atom("ok"), bind("y", var("x"), var("y"))),
            "Atom",
        ),
        (nil(), "List(a)"),
        (fun(&["x"], var("x")), "fn(a) -> a"),
        (fun(&["x"], var("x")), "fn(a) -> a"),
        (fun(&["x", "y"], var("x")), "fn(a, b) -> a"),
        (fun(&["x", "y"], nil()), "fn(a, b) -> List(c)"),
    ];

    for (ast, typ) in cases.into_iter() {
        let mut env = Env::default();
        let typed = infer(ast, 1, &mut env).expect("should successfully infer");
        assert_eq!(typ.to_string(), render(&typed.typ(), &env.store));
    }
}
