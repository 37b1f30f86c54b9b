//! An interpreter core for the eight-instruction tape language: a parser
//! from source bytes to an instruction tree, a byte tape that grows on
//! demand in both directions, and a machine that runs the tree one
//! statement at a time.
pub mod machine;
pub mod options;
pub mod parser;
pub mod program;
pub mod tape;
