//! Cropping the middle gap out of two-column PDF pages: the content-stream
//! lexer, the operator tables of the ink scan and of the rewrite, the assembly
//! of rewritten operations, and the guard on nested form XObjects.
pub mod grammar;
pub mod lexer;
pub mod ops;
pub mod emit;
pub mod forms;
