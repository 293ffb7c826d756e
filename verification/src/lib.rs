/// The expressions of the source language, before and after inference.
pub mod ast;
/// The names in scope and the counter of type variables.
pub mod env;
/// Making the variables of a finished binding generic, and making new copies of a generic
/// type.
pub mod generalise;
/// Finding the type of every node of an expression.
pub mod infer;
/// What holds of the library as a whole.
pub mod laws;
/// Documents and their layout in lines of a given width.
pub mod pretty;
/// Showing a type as a document.
pub mod printer;
/// Why unification is sound: what it does to the shapes that types are seen as.
pub mod sound;
/// The cells of the type variables and what a type is seen as through them.
pub mod store;
/// Types, type variables and rows.
pub mod typ;
/// Making two types the same.
pub mod unify;
