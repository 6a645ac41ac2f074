//! Text, HTML and image handling for a clipboard manager.

pub mod cf_html;
pub mod chars;
pub mod cleanup;
pub mod codecs;
pub mod detect;
pub mod entry_laws;
pub mod image_laws;
pub mod image_links;
pub mod image_search;
pub mod images;
pub mod layout;
pub mod markers;
pub mod office;
pub mod plain_text;
pub mod policies;
pub mod preview;
pub mod regexes;
pub mod render;
pub mod render_laws;
pub mod rich_text;
pub mod text;
pub mod text_laws;
