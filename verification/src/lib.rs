//! In-memory accumulation of per-term posting lists for one index segment.
//!
//! Documents are scanned in order; every token occurrence is fed to a
//! [`table::PostingsWriter`] as a `(doc, position, term)` event.  The table
//! routes each event to the term's [`writer::TermPostingsWriter`], which
//! closes a document's record when a new document id arrives.  Once all
//! occurrences are in, `close` flushes the still-open records and `serialize`
//! hands every term's posting list, in lexicographic term order, to a
//! [`sink::PostingsSerializer`].

pub mod laws;
pub mod recorder;
pub mod sink;
pub mod table;
pub mod term;
pub mod writer;
