//! A verified core for the treehouse site generator: the `.tree` outline format, its
//! parser and HTML rendering, and the small self-contained pieces of logic around them.

pub mod error;
pub mod text;
pub mod pull;
pub mod ast;
pub mod tree_html;
pub mod seasons;
pub mod maze;
pub mod hamster;
pub mod incubator;
pub mod wc;
pub mod progress;
pub mod config;
pub mod escape;
pub mod mini_template;
pub mod highlight;
pub mod name_map;
pub mod sema;
pub mod navmap;
pub mod breadcrumbs;
pub mod code_block;
pub mod serve;
pub mod fix;
pub mod fix_order;
pub mod markdown;
pub mod djot;
pub mod branch_html;
pub mod generate;
pub mod import_map;
pub mod static_urls;
pub mod branch_markup;
