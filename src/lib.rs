//! Renders Markdown documents to ESC/POS receipt printers.

pub mod command;
pub mod config;
pub mod error;
pub mod instruction;
pub mod markdown;
pub mod node_set;
pub mod printer;
pub mod rule;
pub mod split_words;
pub mod style;
pub mod style_tag;

pub use error::Error;

pub use config::PrinterConfig;
pub use markdown::{MarkdownRenderOptions, MdEvent, MdTag};
pub use printer::{Printer, PrinterDevice};
