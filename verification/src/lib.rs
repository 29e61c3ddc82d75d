//! A spreadsheet engine: cell addressing, a formula tokenizer, the conversion
//! of formulas to postfix order, a stack evaluator that resolves references
//! on demand and detects cycles, and a sparse sheet with its binary format.
//!
//! # Numbers
//!
//! A number is an IEEE-754 binary64 value, carried as its bit pattern
//! ([`number::Number`]). The engine reads sign, class and order off the bits
//! and computes nothing else itself. Sums, products, powers and the
//! conversions between numbers and decimal text are looked up in a table of
//! answers ([`number::Numerics`]) that the caller keeps. A function that
//! meets a question without an answer returns it
//! ([`error::Stop::Unanswered`]) and has changed nothing; the caller computes
//! the answer, records it in the table and calls the function again:
//!
//! ```text
//! loop {
//!     match sheet.set_cell_text(col, row, text, &numbers) {
//!         Ok(()) => break,
//!         Err(Stop::Unanswered(request)) => answer(&mut numbers, &request),
//!         Err(Stop::Failed(e)) => return Err(e),
//!     }
//! }
//! ```
//!
//! Every contract that speaks of numbers speaks of the table: what a
//! function returns is stated for every table, and so for every way of
//! computing.
//!
//! # Modules
//!
//! - [`ops`]: positions, tokens and values, keys of cells.
//! - [`parse`]: the tokenizer. [`stack`]: tokens of a formula and their
//!   postfix order. [`expr`]: the evaluator. [`recalc`]: the evaluation of
//!   the cells of a grid.
//! - [`sheet`]: the sheet. [`window`]: what of it is on the screen. [`mode`]:
//!   its modes. [`paste`]: copying cells. [`format`] and [`codec`]: the binary
//!   format. [`command`]: the command line.
//! - [`strs`]: texts cut to screen columns. [`text`]: strings. [`keys`]:
//!   ordered keys. [`ui`]: what the sheet tells the widgets around it.
//! - [`laws`] and [`roundtrip`]: what holds of several functions together.
pub mod text;
pub mod number;
pub mod error;
pub mod ops;
pub mod parse;
pub mod stack;
pub mod ui;
pub mod sheet;
pub mod window;
pub mod mode;
pub mod command;
pub mod keys;
pub mod expr;
pub mod recalc;
pub mod paste;
pub mod strs;
pub mod codec;
pub mod format;
pub mod laws;
pub mod roundtrip;
