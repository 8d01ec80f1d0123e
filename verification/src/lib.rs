//! Wubi-2008 code lookup: the code table, the history of looked-up words
//! and the replies that a front end shows for each request.

pub mod dict;
pub mod history;
pub mod reply;
pub mod table;
pub mod text;
pub mod wubima;

pub use dict::{LineOutcome, WordTable};
pub use history::Wubihist;
pub use reply::{compare_next, lookup_reply, query_word};
pub use text::push_decimal;
pub use wubima::Wubima;
