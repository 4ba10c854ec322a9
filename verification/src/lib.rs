//! A formatter for s-expression forms: a parser that turns text into `SExp`
//! trees while tracking source positions, and a greedy layout engine that
//! re-emits each tree within a fixed line-width margin.

pub mod error;
pub mod parser;
pub mod printer;
pub mod reader;
pub mod roundtrip;
pub mod sexp;

pub use error::Loc;
pub use error::SexpfmtError;
pub use parser::nonempty_skip;
pub use parser::parse_document;
pub use parser::parse_form;
pub use printer::format_form;
pub use printer::print_sexp;
pub use printer::render;
pub use reader::FormReader;
pub use sexp::SExp;
pub use sexp::SExpBookendStyle;
