//! Formal-language machinery: grammar productions in Backus-Naur, extended
//! Backus-Naur and Chomsky normal form, the rewriting of extended productions
//! into plain ones, and CYK membership testing.

pub mod backus_naur_form;
pub mod chomsky_derivation;
pub mod chomsky_normal_form;
pub mod chomsky_production;
pub mod extended_backus_naur_form;
pub mod model;
mod text;
