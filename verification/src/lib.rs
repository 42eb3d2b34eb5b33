//! Translation of EPUB books, as verified decisions around an unverified shell.
//!
//! The library decides; whoever calls it performs what it decides and hands back
//! what came of it. A book is read (`epub`, `pipeline`), its chapters are sent
//! in a certain order and pace (`schedule`), each in blocks (`blocks`) or node
//! by node (`page`, `content`, `sentences`) of its markup (`html`). A text is
//! sent to a provider (`provider`, `options`) until it is translated or given up
//! (`retry`, `errors`); answers are read (`json`, `response`, `stream`) and
//! judged (`quality`). The pages are written in reading order (`writer`).

pub mod blocks;
pub mod content;
pub mod epub;
pub mod errors;
pub mod html;
pub mod json;
pub mod options;
pub mod page;
pub mod pipeline;
pub mod provider;
pub mod quality;
pub mod response;
pub mod retry;
pub mod schedule;
pub mod sentences;
pub mod stream;
pub mod text;
pub mod writer;
