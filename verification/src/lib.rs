//! Token-class compression for grammar-constrained decoding: a GBNF grammar
//! reader, grammar normalization to Greibach normal form over byte
//! preterminals, and the token traversal that groups a vocabulary into
//! classes of interchangeable tokens.
pub mod symbols;
pub mod symmap;
pub mod grammar;
pub mod text;
pub mod gbnf;
pub mod parse;
pub mod nfa;
pub mod cfg;
pub mod normalize;
pub mod table;
pub mod traverse;
pub mod adjacency;
pub mod sorting;
pub mod classes;
pub mod bucket;
pub mod output;
pub mod tokens;
pub mod pickle;
pub mod pipeline;
pub mod regex_sem;
