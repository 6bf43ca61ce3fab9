//! Analyses over configuration statements.

pub mod diagnostics;
