//! WebMD: a Markdown parser and HTML renderer with two inline extensions,
//! `#grad[from, to](text)` (gradient text) and `#font[family](text)`.

pub mod ast;
pub mod block_parser;
pub mod html_renderer;
pub mod inline_parser;
pub mod laws;
pub mod text;
pub mod webmd;

pub use ast::{Alignment, Block, Inline, ListItem};
pub use block_parser::parse_blocks;
pub use html_renderer::render_html;
pub use inline_parser::parse_inlines;
pub use webmd::WebMD;
