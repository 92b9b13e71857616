//! Configurable model for RPG characters.
//!
//! A [`model::Model`] declares values, items, inventories and choices and how
//! they depend on each other. A [`Character`] holds the state of one character
//! and keeps every derived value up to date while its inputs change.
//!
//! What the functions do is stated over the mathematical content of these
//! types: the expression of a calculation ([`model::Expr`]), what a model
//! declares ([`model::ModelView`]) and the state of a character
//! ([`character::CharacterView`]). The rules by which a change travels are the
//! functions of `CharacterView`; what follows from them is proved in
//! `character::laws`, `character::consistency` and `character::order`.

pub mod error;
pub mod model;
pub mod character;

pub use character::Character;
pub use error::ErrorKind;
