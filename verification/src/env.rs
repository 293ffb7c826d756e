use crate::store::{
    distinct_ids, ids_below, in_range, lemma_fresh_cell_keeps_ids, lemma_in_range_more,
    lemma_more_cells_keep_ids, Store,
};
use crate::typ::{Slot, Term, Type, TypeVar};
use vstd::prelude::*;

verus! {

/// The persistent hash map of the `im` crate: a copy shares its structure with the map it
/// was made from and is made in constant time.
#[verifier::external_type_specification]
#[verifier::external_body]
#[verifier::reject_recursive_types(K)]
#[verifier::reject_recursive_types(V)]
#[verifier::reject_recursive_types(S)]
pub struct ExHashMap<K, V, S>(im::HashMap<K, V, S>);

/// What a map from names to types holds: the term of the type under each name.
pub uninterp spec fn bindings(m: im::HashMap<String, Type>) -> Map<Seq<char>, Term>;

/// What a naming table holds: the name given to each variable id.
pub uninterp spec fn letters(m: im::HashMap<usize, String>) -> Map<nat, Seq<char>>;

/// A map without bindings, made by `im::HashMap::new`.
#[verifier::external_body]
pub(crate) fn no_bindings() -> (empty: im::HashMap<String, Type>)
    ensures
        bindings(empty) == (Map::<Seq<char>, Term>::empty()),
{
    im::HashMap::new()
}

/// `im::HashMap::insert` on a map from names to types: afterwards the map holds `typ`
/// under `name`, in place of what it held there, and everything else as before.
#[verifier::external_body]
pub(crate) fn bind(m: &mut im::HashMap<String, Type>, name: String, typ: Type)
    ensures
        bindings(*final(m)) == bindings(*old(m)).insert(name@, typ@),
{
    m.insert(name, typ);
}

/// `im::HashMap::get` on a map from names to types: the type held under `name`, if there is
/// one.
#[verifier::external_body]
pub(crate) fn lookup<'a>(m: &'a im::HashMap<String, Type>, name: &String) -> (found: Option<&'a Type>)
    ensures
        match found {
            Some(t) => bindings(*m).contains_key(name@) && t@ == bindings(*m)[name@],
            None => !bindings(*m).contains_key(name@),
        },
{
    m.get(name)
}

/// The `clone` of a map from names to types: a map that holds the same.
#[verifier::external_body]
pub(crate) fn snapshot(m: &im::HashMap<String, Type>) -> (copy: im::HashMap<String, Type>)
    ensures
        bindings(copy) == bindings(*m),
{
    m.clone()
}

/// `im::HashMap::get` on a naming table: the name held for `id`, if there is one.
#[verifier::external_body]
pub(crate) fn letter_of<'a>(names: &'a im::HashMap<usize, String>, id: usize) -> (found: Option<
    &'a String,
>)
    ensures
        match found {
            Some(s) => letters(*names).contains_key(id as nat) && s@ == letters(*names)[id as nat],
            None => !letters(*names).contains_key(id as nat),
        },
{
    names.get(&id)
}

/// `im::HashMap::insert` on a naming table: afterwards the table holds `letter` for `id`, in
/// place of what it held there, and everything else as before.
#[verifier::external_body]
pub(crate) fn set_letter(names: &mut im::HashMap<usize, String>, id: usize, letter: String)
    ensures
        letters(*final(names)) == letters(*old(names)).insert(id as nat, letter@),
{
    names.insert(id, letter);
}

/// A naming table without names, made by `im::HashMap::new`.
#[verifier::external_body]
pub(crate) fn no_letters() -> (empty: im::HashMap<usize, String>)
    ensures
        letters(empty) == (Map::<nat, Seq<char>>::empty()),
{
    im::HashMap::new()
}

/// The `clone` of a naming table: a table that holds the same.
#[verifier::external_body]
pub(crate) fn copy_letters(names: &im::HashMap<usize, String>) -> (copy: im::HashMap<usize, String>)
    ensures
        letters(copy) == letters(*names),
{
    names.clone()
}

/// The types of the variables in scope, the counter that numbers new type variables, and
/// the cells of the type variables made so far.
#[derive(Debug)]
pub struct Env {
    pub uid: usize,
    pub variables: im::HashMap<String, Type>,
    pub store: Store,
}

/// Every type under a name mentions only cells of a store with `n` cells.
pub open spec fn scope_in_range(scope: Map<Seq<char>, Term>, n: nat) -> bool {
    forall|name: Seq<char>| scope.contains_key(name) ==> in_range(#[trigger] scope[name], n)
}

impl Env {
    /// The store is well-formed, the types in scope mention only its cells, and the unsolved
    /// variables have ids of their own, all of them under the counter.
    pub open spec fn wf(&self) -> bool {
        &&& self.store.wf()
        &&& scope_in_range(bindings(self.variables), self.store@.len())
        &&& distinct_ids(self.store@)
        &&& ids_below(self.store@, self.uid as nat)
    }

    /// The next id, which the counter then leaves behind.
    fn next_uid(&mut self) -> (id: usize)
        requires
            old(self).uid < usize::MAX,
        ensures
            id == old(self).uid,
            final(self).uid == old(self).uid + 1,
            final(self).variables == old(self).variables,
            final(self).store == old(self).store,
    {
        let i = self.uid;
        self.uid += 1;
        i
    }

    /// Create a new unbound type that is a specific type, we just don't
    /// know which one yet.
    pub fn new_unbound_var(&mut self, level: usize) -> (t: Type)
        requires
            old(self).wf(),
            old(self).uid < usize::MAX,
        ensures
            final(self).wf(),
            final(self).uid == old(self).uid + 1,
            final(self).variables == old(self).variables,
            final(self).store@ == old(self).store@.push(
                Slot::Unbound { id: old(self).uid as nat, level: level as nat },
            ),
            t@ == (Term::Var { cell: old(self).store@.len() }),
    {
        let id = self.next_uid();
        proof {
            lemma_scope_extends(bindings(self.variables), self.store@.len(), self.store@.len() + 1);
            lemma_fresh_cell_keeps_ids(self.store@, id as nat, level as nat);
        }
        self.store.insert(TypeVar::Unbound { id, level })
    }

    /// Create a new generic type that can stand in for any type.
    pub fn new_generic_var(&mut self) -> (t: Type)
        requires
            old(self).wf(),
            old(self).uid < usize::MAX,
        ensures
            final(self).wf(),
            final(self).uid == old(self).uid + 1,
            final(self).variables == old(self).variables,
            final(self).store@ == old(self).store@.push(Slot::Generic { id: old(self).uid as nat }),
            t@ == (Term::Var { cell: old(self).store@.len() }),
    {
        let id = self.next_uid();
        proof {
            lemma_scope_extends(bindings(self.variables), self.store@.len(), self.store@.len() + 1);
            let after = self.store@.push(Slot::Generic { id: id as nat });
            lemma_more_cells_keep_ids(self.store@, after, id as nat);
            lemma_more_cells_keep_ids(self.store@, after, (id + 1) as nat);
            assert(ids_below(self.store@, (id + 1) as nat));
        }
        self.store.insert(TypeVar::Generic { id })
    }

    /// Record the type of a variable in the environment.
    pub fn put_variable(&mut self, name: String, typ: Type)
        requires
            old(self).wf(),
            in_range(typ@, old(self).store@.len()),
        ensures
            final(self).wf(),
            bindings(final(self).variables) == bindings(old(self).variables).insert(name@, typ@),
            final(self).uid == old(self).uid,
            final(self).store == old(self).store,
    {
        bind(&mut self.variables, name, typ);
    }

    /// The type of a variable in the environment, if it has one.
    pub fn get_variable(&self, name: &String) -> (found: Option<&Type>)
        ensures
            match found {
                Some(t) => bindings(self.variables).contains_key(name@) && t@ == bindings(
                    self.variables,
                )[name@],
                None => !bindings(self.variables).contains_key(name@),
            },
    {
        lookup(&self.variables, name)
    }
}

impl Default for Env {
    fn default() -> (env: Env)
        ensures
            env.uid == 0,
            bindings(env.variables) == Map::<Seq<char>, Term>::empty(),
            env.store@ == Seq::<Slot>::empty(),
            env.wf(),
    {
        Env { uid: 0, variables: no_bindings(), store: Store::new() }
    }
}

/// A scope over the first `n` cells is a scope over the first `m`, where `n <= m`.
pub proof fn lemma_scope_extends(scope: Map<Seq<char>, Term>, n: nat, m: nat)
    requires
        scope_in_range(scope, n),
        n <= m,
    ensures
        scope_in_range(scope, m),
{
    assert forall|name: Seq<char>| scope.contains_key(name) implies in_range(
        #[trigger] scope[name],
        m,
    ) by {
        lemma_in_range_more(scope[name], n, m);
    }
}

} // verus!
