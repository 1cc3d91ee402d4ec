//! Subscription normalisation and Salamander packet obfuscation.

pub mod salamander;
pub mod text;
pub mod lines;
pub mod json;
pub mod xlex;
pub mod lexer;
pub mod extra;
pub mod norm;
pub mod load;
