//! Renders a Wikipedia article summary inside a bordered text box.
//!
//! The core of the crate is the box renderer: a word-wrap algorithm, an
//! alignment-aware padding computation, and border emission, all specified
//! against a mathematical model of the produced rows. Fetching the article
//! and printing the rows are left to the surrounding program.

pub mod fetcher;
pub mod printer;
pub mod text;

pub use fetcher::Fetcher;
pub use printer::Printer;
