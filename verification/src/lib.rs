//! Grammar model and transformations of the Iguana parser generator.
pub mod grammar;
pub mod iggy;
pub mod lsp;
pub mod text;
pub mod tree;
pub mod utils;
pub mod validation;
