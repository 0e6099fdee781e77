//! Peanut: a decision procedure for first-order sentences over automatic sequences.
pub mod bits;
pub mod strs;
pub mod dfa;
pub mod product;
pub mod minimize;
pub mod nfa;
pub mod numsys;
pub mod ops;
pub mod quant;
pub mod base;
pub mod negbase;
pub mod logic;
pub mod dfao;
pub mod chain;
pub mod parser;
pub mod compiler;
pub mod paths;
pub mod finite;
pub mod codec;
pub mod text;
pub mod transducer;
pub mod antichain;
pub mod learn;
pub mod autolearn;
pub mod walnut;
pub mod ostrowski;
pub mod export;
pub mod oracle;
pub mod picture;
pub mod learner;
