//! A spreadsheet-like formula evaluator over comma-delimited text.
//!
//! Cells are read from the text, formulas (content after `=`) are parsed into
//! expression trees and evaluated against the other cells, and the sheet is written
//! back in its own shape with each formula replaced by the text of its value.
//! Numbers are exact decimals in billionths. A cell's text is a number when it reads
//! as a float: digits with an optional point and exponent, or `nan`; `inf` and numbers
//! beyond the range of numbers show as `#NUM!`. A formula whose value depends on
//! itself evaluates to `#CIRCULAR!` instead of recursing without end, and a total
//! beyond the range of numbers to `#NUM!`.
//!
//! The functions that formulas call are the closed set `operators::Operator` (SUM,
//! COUNT, AVERAGE); an engine registers any of them by name, but callers cannot add
//! functions of their own.
pub mod calc;
pub mod cell;
pub mod engine;
pub mod formula;
pub mod html;
pub mod operators;
pub mod reader;
pub mod show;
pub mod value;
