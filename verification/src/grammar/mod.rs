pub mod def;
pub mod equality;
pub mod first;
pub mod lexical;
pub mod literals;
pub mod nullable;
pub mod phase;
pub mod pipeline;
pub mod reachability;
pub mod regex;
pub mod regex_inlining;
pub mod render;
pub mod resolve;
pub mod rule_text;
pub mod symbols;
pub mod transformations;
pub mod visit;
