//! Typed input: input tables and composing text.
pub mod composing;
pub mod custom;
pub mod table;
pub mod rules;
