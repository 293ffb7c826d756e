use gleam_typ::ast::Meta;
use gleam_typ::env::Env;
use gleam_typ::generalise::{generalise, instantiate};
use gleam_typ::infer::{located, Error};
use gleam_typ::store::Store;
use gleam_typ::typ::{atom, float, int_type, list, string, Row, Type, TypeVar};
use gleam_typ::unify::{head_of, mentions, unify, unify_in, zonk_type, UnifyError};

fn show(typ: &Type, store: &Store) -> String {
    typ.to_gleam_doc(store, &mut im::HashMap::new(), &mut 0)
        .format(80)
}

fn unbound(store: &mut Store, id: usize, level: usize) -> Type {
    store.insert(TypeVar::Unbound { id, level })
}

fn cell_of(typ: &Type) -> usize {
    match typ {
        Type::Var { cell } => *cell,
        _ => panic!("not a variable"),
    }
}

fn fun(args: Vec<Type>, retrn: Type) -> Type {
    Type::Fun {
        args,
        retrn: Box::new(retrn),
    }
}

fn pair(left: Type, right: Type) -> Type {
    Type::App {
        public: true,
        module: "".to_string(),
        name: "Pair".to_string(),
        args: vec![left, right],
    }
}

#[test]
fn unify_binds_an_unbound_variable() {
    let mut store = Store::new();
    let a = unbound(&mut store, 0, 1);
    assert!(unify(&mut store, &a, &int_type()).is_ok());
    assert_eq!("Int", show(&a, &store));
    assert!(matches!(store.get(cell_of(&a)), TypeVar::Link { .. }));
}

#[test]
fn unify_binds_the_right_side_too() {
    let mut store = Store::new();
    let a = unbound(&mut store, 0, 1);
    assert!(unify(&mut store, &float(), &a).is_ok());
    assert_eq!("Float", show(&a, &store));
}

#[test]
fn unify_sees_through_links() {
    let mut store = Store::new();
    let a = unbound(&mut store, 0, 1);
    let b = unbound(&mut store, 1, 1);
    assert!(unify(&mut store, &a, &b).is_ok());
    assert!(unify(&mut store, &b, &atom()).is_ok());
    assert_eq!("Atom", show(&a, &store));
    assert_eq!("Atom", show(&b, &store));
    assert!(unify(&mut store, &a, &atom()).is_ok());
    assert!(unify(&mut store, &a, &string()).is_err());
}

#[test]
fn unify_a_variable_with_itself_changes_nothing() {
    let mut store = Store::new();
    let a = unbound(&mut store, 0, 1);
    assert!(unify(&mut store, &a, &a).is_ok());
    assert_eq!(
        &TypeVar::Unbound { id: 0, level: 1 },
        store.get(cell_of(&a))
    );
}

#[test]
fn unify_constants() {
    let mut store = Store::new();
    assert!(unify(&mut store, &int_type(), &int_type()).is_ok());
    let private_int = Type::Const {
        public: false,
        module: "".to_string(),
        name: "Int".to_string(),
    };
    assert!(unify(&mut store, &int_type(), &private_int).is_ok());
    let other_module = Type::Const {
        public: true,
        module: "other".to_string(),
        name: "Int".to_string(),
    };
    match unify(&mut store, &int_type(), &other_module) {
        Err(UnifyError::TypeMismatch { expected, found }) => {
            assert_eq!(int_type(), expected);
            assert_eq!(other_module, found);
        }
        other => panic!("{:?}", other),
    }
    assert!(unify(&mut store, &int_type(), &float()).is_err());
}

#[test]
fn unify_applications() {
    let mut store = Store::new();
    let a = unbound(&mut store, 0, 1);
    let b = unbound(&mut store, 1, 1);
    let left = pair(a.clone(), b.clone());
    let right = pair(int_type(), a.clone());
    assert!(unify(&mut store, &left, &right).is_ok());
    assert_eq!("Pair(Int, Int)", show(&left, &store));
    assert_eq!("Pair(Int, Int)", show(&right, &store));
    assert_eq!("Int", show(&b, &store));

    assert!(unify(&mut store, &list(int_type()), &list(float())).is_err());
    assert!(unify(&mut store, &list(int_type()), &pair(int_type(), int_type())).is_err());
    let one = Type::App {
        public: true,
        module: "".to_string(),
        name: "Pair".to_string(),
        args: vec![int_type()],
    };
    assert!(matches!(
        unify(&mut store, &one, &pair(int_type(), int_type())),
        Err(UnifyError::TypeMismatch { .. })
    ));
}

#[test]
fn unify_functions_and_tuples() {
    let mut store = Store::new();
    let a = unbound(&mut store, 0, 1);
    let b = unbound(&mut store, 1, 1);
    let f = fun(vec![a.clone()], b.clone());
    let g = fun(vec![int_type()], list(a.clone()));
    assert!(unify(&mut store, &f, &g).is_ok());
    assert_eq!("fn(Int) -> List(Int)", show(&f, &store));
    assert!(unify(&mut store, &f, &fun(vec![], int_type())).is_err());
    assert!(unify(&mut store, &f, &int_type()).is_err());

    let c = unbound(&mut store, 2, 1);
    let t = Type::Tuple {
        elems: vec![c.clone(), float()],
    };
    let u = Type::Tuple {
        elems: vec![atom(), float()],
    };
    assert!(unify(&mut store, &t, &u).is_ok());
    assert_eq!("Atom", show(&c, &store));
    let short = Type::Tuple {
        elems: vec![atom()],
    };
    assert!(unify(&mut store, &t, &short).is_err());
}

#[test]
fn unify_stops_at_the_first_failure() {
    let mut store = Store::new();
    let a = unbound(&mut store, 0, 1);
    let b = unbound(&mut store, 1, 1);
    let left = Type::Tuple {
        elems: vec![a.clone(), int_type(), b.clone()],
    };
    let right = Type::Tuple {
        elems: vec![atom(), float(), string()],
    };
    match unify(&mut store, &left, &right) {
        Err(UnifyError::TypeMismatch { expected, found }) => {
            assert_eq!(int_type(), expected);
            assert_eq!(float(), found);
        }
        other => panic!("{:?}", other),
    }
    assert_eq!("Atom", show(&a, &store));
    assert_eq!("a", show(&b, &store));
}

#[test]
fn unify_occurs_check() {
    let mut store = Store::new();
    let a = unbound(&mut store, 5, 1);
    let holds_a = list(a.clone());
    match unify(&mut store, &a, &holds_a) {
        Err(UnifyError::RecursiveType { id, typ }) => {
            assert_eq!(5, id);
            assert_eq!(holds_a, typ);
        }
        other => panic!("{:?}", other),
    }
    assert_eq!(
        &TypeVar::Unbound { id: 5, level: 1 },
        store.get(cell_of(&a))
    );
    assert!(matches!(
        unify(&mut store, &holds_a, &a),
        Err(UnifyError::RecursiveType { id: 5, .. })
    ));
    assert_eq!(
        &TypeVar::Unbound { id: 5, level: 1 },
        store.get(cell_of(&a))
    );
}

#[test]
fn unify_occurs_check_through_other_variables() {
    let mut store = Store::new();
    let a = unbound(&mut store, 0, 1);
    let b = unbound(&mut store, 1, 1);
    assert!(unify(&mut store, &b, &list(a.clone())).is_ok());
    assert!(matches!(
        unify(&mut store, &a, &fun(vec![b.clone()], int_type())),
        Err(UnifyError::RecursiveType { id: 0, .. })
    ));
    assert_eq!(
        &TypeVar::Unbound { id: 0, level: 1 },
        store.get(cell_of(&a))
    );
}

#[test]
fn unify_occurs_check_in_records() {
    let mut store = Store::new();
    let a = unbound(&mut store, 0, 1);
    let record = Type::Record {
        row: Row::Cons {
            label: "x".to_string(),
            head: Box::new(int_type()),
            tail: Box::new(Row::Cons {
                label: "y".to_string(),
                head: Box::new(a.clone()),
                tail: Box::new(Row::Nil),
            }),
        },
    };
    assert!(matches!(
        unify(&mut store, &a, &record),
        Err(UnifyError::RecursiveType { id: 0, .. })
    ));
    let b = unbound(&mut store, 1, 1);
    assert!(unify(&mut store, &b, &record).is_ok());
    assert!(matches!(
        unify(&mut store, &record, &record),
        Err(UnifyError::TypeMismatch { .. })
    ));
}

#[test]
fn unify_generic_variables() {
    let mut store = Store::new();
    let g = store.insert(TypeVar::Generic { id: 3 });
    let same = store.insert(TypeVar::Generic { id: 3 });
    let other = store.insert(TypeVar::Generic { id: 4 });
    assert!(unify(&mut store, &g, &same).is_ok());
    assert!(matches!(
        unify(&mut store, &g, &other),
        Err(UnifyError::TypeMismatch { .. })
    ));
    assert!(matches!(
        unify(&mut store, &g, &int_type()),
        Err(UnifyError::TypeMismatch { .. })
    ));
    assert!(matches!(
        unify(&mut store, &int_type(), &g),
        Err(UnifyError::TypeMismatch { .. })
    ));
}

#[test]
fn generalise_turns_deeper_variables_generic() {
    let mut store = Store::new();
    let deep = unbound(&mut store, 0, 2);
    let shallow = unbound(&mut store, 1, 1);
    let typ = fun(vec![deep.clone(), shallow.clone()], list(deep.clone()));
    let general = generalise(&mut store, typ, 1);
    match &general {
        Type::Fun { args, retrn } => {
            assert_eq!(
                &TypeVar::Generic { id: 0 },
                store.get(cell_of(&args[0]))
            );
            assert_eq!(
                &TypeVar::Unbound { id: 1, level: 1 },
                store.get(cell_of(&args[1]))
            );
            match &**retrn {
                Type::App { args, .. } => {
                    assert_eq!(
                        &TypeVar::Generic { id: 0 },
                        store.get(cell_of(&args[0]))
                    );
                }
                other => panic!("{:?}", other),
            }
        }
        other => panic!("{:?}", other),
    }
    assert_eq!("fn(a, b) -> List(a)", show(&general, &store));
    assert_eq!(
        &TypeVar::Unbound { id: 0, level: 2 },
        store.get(cell_of(&deep))
    );
}

#[test]
fn generalise_goes_through_links_and_keeps_the_rest() {
    let mut store = Store::new();
    let deep = unbound(&mut store, 0, 3);
    let link = store.insert(TypeVar::Link {
        typ: Box::new(list(deep)),
    });
    let general = generalise(&mut store, link, 2);
    match &general {
        Type::App { args, .. } => {
            assert_eq!(
                &TypeVar::Generic { id: 0 },
                store.get(cell_of(&args[0]))
            );
        }
        other => panic!("{:?}", other),
    }
    assert_eq!(int_type(), generalise(&mut store, int_type(), 0));
    let same_level = unbound(&mut store, 1, 2);
    let kept = generalise(&mut store, same_level.clone(), 2);
    assert_eq!(same_level, kept);
    let generic = store.insert(TypeVar::Generic { id: 9 });
    let kept = generalise(&mut store, generic.clone(), 0);
    assert_eq!(generic, kept);
}

#[test]
fn instantiate_gives_each_generic_variable_one_new_variable() {
    let mut env = Env::default();
    let g = env.new_generic_var();
    let h = env.new_generic_var();
    let typ = fun(vec![g.clone(), h.clone()], pair(g.clone(), h));
    let copy = instantiate(&mut env, &typ, 4);
    match &copy {
        Type::Fun { args, retrn } => {
            assert_eq!(
                &TypeVar::Unbound { id: 2, level: 4 },
                env.store.get(cell_of(&args[0]))
            );
            assert_eq!(
                &TypeVar::Unbound { id: 3, level: 4 },
                env.store.get(cell_of(&args[1]))
            );
            match &**retrn {
                Type::App { args: inner, .. } => {
                    assert_eq!(args[0], inner[0]);
                    assert_eq!(args[1], inner[1]);
                }
                other => panic!("{:?}", other),
            }
        }
        other => panic!("{:?}", other),
    }
    assert_eq!(4, env.uid);
    assert_eq!(
        &TypeVar::Generic { id: 0 },
        env.store.get(cell_of(&g))
    );
    assert_eq!("fn(a, b) -> Pair(a, b)", show(&copy, &env.store));
}

#[test]
fn instantiate_twice_gives_independent_copies() {
    let mut env = Env::default();
    let g = env.new_generic_var();
    let identity = fun(vec![g.clone()], g);
    let first = instantiate(&mut env, &identity, 1);
    let second = instantiate(&mut env, &identity, 1);
    assert!(unify(&mut env.store, &first, &fun(vec![int_type()], int_type())).is_ok());
    assert!(unify(&mut env.store, &second, &fun(vec![float()], float())).is_ok());
    assert_eq!("fn(Int) -> Int", show(&first, &env.store));
    assert_eq!("fn(Float) -> Float", show(&second, &env.store));
    assert_eq!("fn(a) -> a", show(&identity, &env.store));
    assert!(unify(&mut env.store, &first, &second).is_err());
}

#[test]
fn instantiate_leaves_other_types_alone() {
    let mut env = Env::default();
    let a = env.new_unbound_var(1);
    let typ = fun(vec![a.clone(), int_type()], list(a.clone()));
    let copy = instantiate(&mut env, &typ, 2);
    assert_eq!(typ, copy);
    assert_eq!(1, env.uid);
}

#[test]
fn store_knows_its_own_variables() {
    let mut store = Store::new();
    let a = unbound(&mut store, 0, 1);
    assert_eq!(1, store.len());
    assert!(store.contains(&a));
    assert!(store.contains(&fun(vec![a.clone(), int_type()], list(a.clone()))));
    assert!(!store.contains(&Type::Var { cell: 1 }));
    assert!(!store.contains(&pair(int_type(), Type::Var { cell: 7 })));
    let record = Type::Record {
        row: Row::Cons {
            label: "x".to_string(),
            head: Box::new(Type::Var { cell: 3 }),
            tail: Box::new(Row::Nil),
        },
    };
    assert!(!store.contains(&record));
    assert!(!Store::new().contains(&a));
}

#[test]
fn head_follows_the_links_at_the_root_only() {
    let mut store = Store::new();
    let a = unbound(&mut store, 0, 1);
    let b = unbound(&mut store, 1, 1);
    let c = unbound(&mut store, 2, 1);
    assert!(unify(&mut store, &a, &b).is_ok());
    assert!(unify(&mut store, &b, &list(c.clone())).is_ok());
    assert!(unify(&mut store, &c, &int_type()).is_ok());
    assert_eq!(list(c.clone()), head_of(&store, &a));
    assert_eq!(list(int_type()), zonk_type(&store, &a));
    assert_eq!(int_type(), head_of(&store, &c));
    assert_eq!(int_type(), head_of(&store, &int_type()));
}

#[test]
fn mentions_finds_unbound_ids() {
    let mut store = Store::new();
    let a = unbound(&mut store, 4, 1);
    let g = store.insert(TypeVar::Generic { id: 5 });
    let typ = fun(vec![int_type(), g], list(a));
    assert!(mentions(&store, &typ, 4));
    assert!(!mentions(&store, &typ, 5));
    assert!(!mentions(&store, &typ, 0));
}

#[test]
fn unify_in_an_environment() {
    let mut env = Env::default();
    let a = env.new_unbound_var(1);
    env.put_variable("x".to_string(), a.clone());
    assert!(unify_in(&mut env, &a, &string()).is_ok());
    assert_eq!(1, env.uid);
    let found = env.get_variable(&"x".to_string()).unwrap().clone();
    assert_eq!("String", show(&found, &env.store));
    let b = env.new_unbound_var(1);
    assert!(matches!(
        unify_in(&mut env, &b, &list(b.clone())),
        Err(UnifyError::RecursiveType { id: 1, .. })
    ));
}

#[test]
fn unification_errors_get_their_place() {
    let meta = Meta { start: 2, end: 9 };
    match located(
        UnifyError::TypeMismatch {
            expected: int_type(),
            found: float(),
        },
        meta,
    ) {
        Error::TypeMismatch {
            meta: at,
            expected,
            found,
        } => {
            assert_eq!(meta, at);
            assert_eq!(int_type(), expected);
            assert_eq!(float(), found);
        }
        other => panic!("{:?}", other),
    }
    match located(
        UnifyError::RecursiveType {
            id: 3,
            typ: list(Type::Var { cell: 0 }),
        },
        meta,
    ) {
        Error::RecursiveType { meta: at, id, typ } => {
            assert_eq!(meta, at);
            assert_eq!(3, id);
            assert_eq!(list(Type::Var { cell: 0 }), typ);
        }
        other => panic!("{:?}", other),
    }
}
