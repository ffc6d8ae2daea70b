//! The serialization sink and two in-memory implementations.
//!
//! A sink receives, term by term, the accumulated posting lists: one
//! `new_term` call per term, followed by one `write_doc` call per closed
//! document of that term.  Its abstract state is the sequence of events it
//! has accepted; either call may fail, and a failed call accepts nothing.

use vstd::prelude::*;

use crate::term::Term;

verus! {

/// A document identifier, as the surrounding pipeline assigns it: a plain
/// 32-bit number, increasing in document processing order.
pub type DocId = u32;

/// One event accepted by a sink, at the specification level.
pub enum PostingEvent {
    /// The start of one term's posting block.
    TermHeader { term: Seq<u8>, doc_freq: u32 },
    /// One closed document record of the currently open term.
    DocRecord { doc: DocId, term_freq: u32, deltas: Seq<u32> },
}

/// A serialization sink for accumulated posting lists.
///
/// `events()` is the sequence of events the sink has accepted so far.  A
/// call that returns `Ok` accepts exactly its event; a call that returns
/// `Err` accepts nothing.
pub trait PostingsSerializer<E>: Sized {
    /// Every event accepted so far, in order.
    spec fn events(&self) -> Seq<PostingEvent>;

    /// Announces the start of a new term's posting block.
    fn new_term(&mut self, term: &Term, doc_freq: u32) -> (r: Result<(), E>)
        ensures
            r is Ok ==> final(self).events() == old(self).events().push(
                (PostingEvent::TermHeader { term: term@, doc_freq }),
            ),
            r is Err ==> final(self).events() == old(self).events(),
    ;

    /// Announces one document's posting entry for the currently open term;
    /// `positions` holds the document's position deltas.
    fn write_doc(&mut self, doc: DocId, term_freq: u32, positions: &Vec<u32>) -> (r: Result<
        (),
        E,
    >)
        ensures
            r is Ok ==> final(self).events() == old(self).events().push(
                (PostingEvent::DocRecord { doc, term_freq, deltas: positions@ }),
            ),
            r is Err ==> final(self).events() == old(self).events(),
    ;
}

/// One accepted event, as a sink that stores its input keeps it.
#[derive(Debug, PartialEq, Eq)]
pub enum LoggedEvent {
    /// The start of one term's posting block.
    TermHeader { term: Vec<u8>, doc_freq: u32 },
    /// One closed document record of the currently open term.
    DocRecord { doc: DocId, term_freq: u32, deltas: Vec<u32> },
}

impl View for LoggedEvent {
    type V = PostingEvent;

    open spec fn view(&self) -> PostingEvent {
        match self {
            LoggedEvent::TermHeader { term, doc_freq } => PostingEvent::TermHeader {
                term: term@,
                doc_freq: *doc_freq,
            },
            LoggedEvent::DocRecord { doc, term_freq, deltas } => PostingEvent::DocRecord {
                doc: *doc,
                term_freq: *term_freq,
                deltas: deltas@,
            },
        }
    }
}

/// A sink that stores every event and never fails.
pub struct BufferSerializer {
    /// The accepted events, in order.
    pub log: Vec<LoggedEvent>,
}

impl BufferSerializer {
    /// An empty sink.
    pub fn new() -> (r: BufferSerializer)
        ensures
            PostingsSerializer::<()>::events(&r) == Seq::<PostingEvent>::empty(),
    {
        BufferSerializer { log: Vec::new() }
    }
}

impl PostingsSerializer<()> for BufferSerializer {
    closed spec fn events(&self) -> Seq<PostingEvent> {
        self.log@.map_values(|e: LoggedEvent| e@)
    }

    fn new_term(&mut self, term: &Term, doc_freq: u32) -> (r: Result<(), ()>) {
        let bytes = copy_u8s(term.bytes());
        let ghost pre = self.log@;
        self.log.push(LoggedEvent::TermHeader { term: bytes, doc_freq });
        proof {
            assert(self.log@.map_values(|e: LoggedEvent| e@) =~= pre.map_values(
                |e: LoggedEvent| e@,
            ).push((PostingEvent::TermHeader { term: term@, doc_freq })));
        }
        Ok(())
    }

    fn write_doc(&mut self, doc: DocId, term_freq: u32, positions: &Vec<u32>) -> (r: Result<
        (),
        (),
    >) {
        let deltas = copy_u32s(positions);
        let ghost pre = self.log@;
        self.log.push(LoggedEvent::DocRecord { doc, term_freq, deltas });
        proof {
            assert(self.log@.map_values(|e: LoggedEvent| e@) =~= pre.map_values(
                |e: LoggedEvent| e@,
            ).push((PostingEvent::DocRecord { doc, term_freq, deltas: positions@ })));
        }
        Ok(())
    }
}

/// The error of a sink that has run out of room.
#[derive(Debug, PartialEq, Eq)]
pub struct SinkError;

/// A sink that accepts a fixed number of events and then fails every call:
/// it stores nothing, keeping the accepted events as ghost history only.
pub struct FailingSerializer {
    budget: u32,
    accepted: Ghost<Seq<PostingEvent>>,
}

impl FailingSerializer {
    /// A sink that will accept exactly `budget` events.
    pub fn new(budget: u32) -> (r: FailingSerializer)
        ensures
            PostingsSerializer::<SinkError>::events(&r) == Seq::<PostingEvent>::empty(),
            r.remaining_spec() == budget,
    {
        FailingSerializer { budget, accepted: Ghost(Seq::empty()) }
    }

    /// How many more events the sink will accept.
    pub closed spec fn remaining_spec(&self) -> u32 {
        self.budget
    }

    /// How many more events the sink will accept.
    pub fn remaining(&self) -> (r: u32)
        ensures
            r == self.remaining_spec(),
    {
        self.budget
    }
}

impl PostingsSerializer<SinkError> for FailingSerializer {
    closed spec fn events(&self) -> Seq<PostingEvent> {
        self.accepted@
    }

    fn new_term(&mut self, term: &Term, doc_freq: u32) -> (r: Result<(), SinkError>) {
        if self.budget == 0 {
            return Err(SinkError);
        }
        self.budget = self.budget - 1;
        proof {
            self.accepted@ = self.accepted@.push(
                (PostingEvent::TermHeader { term: term@, doc_freq }),
            );
        }
        Ok(())
    }

    fn write_doc(&mut self, doc: DocId, term_freq: u32, positions: &Vec<u32>) -> (r: Result<
        (),
        SinkError,
    >) {
        if self.budget == 0 {
            return Err(SinkError);
        }
        self.budget = self.budget - 1;
        proof {
            self.accepted@ = self.accepted@.push(
                (PostingEvent::DocRecord { doc, term_freq, deltas: positions@ }),
            );
        }
        Ok(())
    }
}

/// Copies a byte vector.
fn copy_u8s(v: &Vec<u8>) -> (r: Vec<u8>)
    ensures
        r@ == v@,
{
    let mut out: Vec<u8> = Vec::new();
    let mut i: usize = 0;
    while i < v.len()
        invariant
            i <= v@.len(),
            out@ == v@.subrange(0, i as int),
        decreases v@.len() - i,
    {
        out.push(v[i]);
        proof {
            assert(v@.subrange(0, i + 1) =~= v@.subrange(0, i as int).push(v@[i as int]));
        }
        i += 1;
    }
    proof {
        assert(v@.subrange(0, v@.len() as int) =~= v@);
    }
    out
}

/// Copies a vector of 32-bit values.
fn copy_u32s(v: &Vec<u32>) -> (r: Vec<u32>)
    ensures
        r@ == v@,
{
    let mut out: Vec<u32> = Vec::new();
    let mut i: usize = 0;
    while i < v.len()
        invariant
            i <= v@.len(),
            out@ == v@.subrange(0, i as int),
        decreases v@.len() - i,
    {
        out.push(v[i]);
        proof {
            assert(v@.subrange(0, i + 1) =~= v@.subrange(0, i as int).push(v@[i as int]));
        }
        i += 1;
    }
    proof {
        assert(v@.subrange(0, v@.len() as int) =~= v@);
    }
    out
}

} // verus!
