//! Word-frequency counting over batches of text lines.
//!
//! A word is a longest stretch of a line without whitespace. The table
//! holds each distinct word once, with the number of times it was seen, in
//! ascending order of the words by code point. Lines are folded into the
//! table batch by batch; the caller pauses after each batch and writes the
//! table out when all lines are counted.
//!
//! - [`whitespace`]: which characters separate words.
//! - [`words`]: the words of a line.
//! - [`order`]: the order of the words.
//! - [`table`]: the frequency table.
//! - [`counter`]: folding a batch of lines into the table.
//! - [`report`]: the lines that write a table out.
//! - [`driver`]: the run as a whole, step by step.
//! - [`laws`]: what holds of every input.
//! - [`strings`]: what is taken on trust about `String`.

pub mod counter;
pub mod driver;
pub mod laws;
pub mod order;
pub mod report;
pub mod strings;
pub mod table;
pub mod whitespace;
pub mod words;
