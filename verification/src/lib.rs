//! Extraction of the "quote of the week" from the pages of a weekly blog,
//! its reduction to one line of plain text, and the flat store of such lines.
//!
//! A page goes through five steps: [`locate`] finds the section of the
//! quote, [`select`] the container that holds it, [`normalize`] rewrites its
//! markup as plain text, [`decode`] replaces escaped characters and
//! entities, and [`encode_line`] puts the text on one line. [`get_qotw`]
//! does all five. [`get_new_twir_urls`] reads the archive page,
//! [`fetch_missing_quotes`] lists the issues that the store lacks, and
//! [`next_record`] gives the line to add for each. [`get_quotes`] reads the
//! store, [`lookup`] and [`pick`] choose a record, [`decode_line`] gives its
//! quote back with its line breaks.
//!
//! Each function says what it gives by a function of the same bytes in the
//! mathematical sense, defined beside it. The proof functions named `law_…`
//! state what holds of these functions together; those named `lemma_…` are
//! the steps on the way.
//!
//! Texts come in and go out as `&str` and `String`. What the library says of
//! them it says of their UTF-8 form, a sequence of bytes: places in a text
//! are counted in bytes. The library reads no file, fetches no page and
//! prints nothing; it does not fail on any text.
pub mod entity;
pub mod error;
pub mod fetch;
pub mod index;
pub mod line;
pub mod normalize;
pub mod quote;
pub mod rewrite;
pub mod search;
pub mod section;
pub mod select;
pub mod space;
pub mod store;
pub mod text;

pub use entity::decode;
pub use error::MalformedMarkup;
pub use fetch::{fetch_missing_quotes, next_record};
pub use index::{get_new_twir_urls, MalformedIndex, TwirUrl};
pub use line::{decode_line, encode_line, NEWLINE_REPLACEMENT};
pub use normalize::{normalize, Attributed};
pub use quote::{get_qotw, quote_markup};
pub use section::{locate, Span};
pub use select::{has_container, select, Container};
pub use space::{is_blank, trim};
pub use store::{get_quotes, lookup, pick, record_line, Lookup, MalformedRecord, Quote, NO_QUOTE};
