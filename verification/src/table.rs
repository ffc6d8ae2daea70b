//! The segment-wide posting table.
//!
//! A [`PostingsWriter`] owns every term seen in the segment.  Each newly
//! seen term is assigned the next slot of an arena of accumulators, a slot
//! that never moves; a separately kept association list, sorted by the
//! term's lexicographic order, maps each term to its slot.  Serialization
//! walks that sorted list, never the arena, so the emitted term dictionary
//! is sorted however the terms arrived.

use vstd::prelude::*;
use vstd::seq_lib::*;

use crate::recorder::U32sRecorder;
use crate::sink::DocId;
use crate::sink::PostingEvent;
use crate::sink::PostingsSerializer;
use crate::term::lemma_lex_connected;
use crate::term::lemma_lex_irreflexive;
use crate::term::lemma_lex_transitive;
use crate::term::lex_lt;
use crate::term::term_eq;
use crate::term::term_lt;
use crate::term::Term;
use crate::writer::TermPostingsWriter;

verus! {

/// The posting table of one segment.
pub struct PostingsWriter<TF: U32sRecorder, PR: U32sRecorder> {
    postings: Vec<TermPostingsWriter<TF, PR>>,
    term_index: Vec<(Term, usize)>,
}

impl<TF: U32sRecorder, PR: U32sRecorder> PostingsWriter<TF, PR> {
    /// The term-to-slot association list, sorted by term.
    pub closed spec fn spec_index(self) -> Seq<(Term, usize)> {
        self.term_index@
    }

    /// The arena of accumulators, in slot (arrival) order.
    pub closed spec fn spec_postings(self) -> Seq<TermPostingsWriter<TF, PR>> {
        self.postings@
    }

    /// The number of distinct terms seen.
    pub open spec fn num_terms(self) -> int {
        self.spec_index().len() as int
    }

    /// The key of the `j`-th term in sorted order.
    pub open spec fn key_at(self, j: int) -> Seq<u8> {
        self.spec_index()[j].0@
    }

    /// The accumulator of the `j`-th term in sorted order.
    pub open spec fn writer_at(self, j: int) -> TermPostingsWriter<TF, PR> {
        self.spec_postings()[self.spec_index()[j].1 as int]
    }

    /// All term keys, in sorted order.
    pub open spec fn keys(self) -> Seq<Seq<u8>> {
        Seq::new(self.spec_index().len(), |j: int| self.key_at(j))
    }

    /// Whether `t` has been seen as a term key.
    pub open spec fn has_key(self, t: Seq<u8>) -> bool {
        exists|j: int| 0 <= j < self.num_terms() && self.key_at(j) == t
    }

    /// The table's invariant: the association list and the arena have the
    /// same length, every slot is valid and held by exactly one term, the
    /// list is strictly sorted by term key, and every accumulator is well
    /// formed.
    pub open spec fn wf(self) -> bool {
        &&& self.spec_index().len() == self.spec_postings().len()
        &&& (forall|j: int|
            0 <= j < self.num_terms() ==> (#[trigger] self.spec_index()[j].1)
                < self.spec_postings().len())
        &&& (forall|j1: int, j2: int|
            0 <= j1 < j2 < self.num_terms() ==> self.spec_index()[j1].1 != self.spec_index()[j2].1)
        &&& (forall|j1: int, j2: int|
            0 <= j1 < j2 < self.num_terms() ==> lex_lt(self.key_at(j1), self.key_at(j2)))
        &&& (forall|i: int|
            0 <= i < self.spec_postings().len() ==> (#[trigger] self.spec_postings()[i]).wf())
    }

    /// An empty posting table.
    pub fn new() -> (r: Self)
        ensures
            r.wf(),
            r.num_terms() == 0,
            r.spec_postings().len() == 0,
    {
        PostingsWriter { postings: Vec::new(), term_index: Vec::new() }
    }

    /// Finds `term` in the sorted association list: the position where it
    /// stands, or where it would be inserted, and whether it was found.
    fn locate(&self, term: &Term) -> (r: (usize, bool))
        requires
            self.wf(),
        ensures
            (r.0 as int) <= self.num_terms(),
            forall|k: int| 0 <= k < r.0 ==> lex_lt(self.key_at(k), term@),
            r.1 == ((r.0 as int) < self.num_terms() && self.key_at(r.0 as int) == term@),
            !r.1 ==> forall|k: int| r.0 <= k < self.num_terms() ==> lex_lt(term@, self.key_at(k)),
    {
        let mut j: usize = 0;
        while j < self.term_index.len()
            invariant
                self.wf(),
                j <= self.term_index@.len(),
                forall|k: int| 0 <= k < j ==> lex_lt(self.key_at(k), term@),
            decreases self.term_index@.len() - j,
        {
            if term_eq(&self.term_index[j].0, term) {
                return (j, true);
            }
            if term_lt(term, &self.term_index[j].0) {
                proof {
                    assert forall|k: int|
                        j <= k < self.num_terms() implies lex_lt(term@, self.key_at(k)) by {
                        if k > j {
                            lemma_lex_transitive(term@, self.key_at(j as int), self.key_at(k));
                        }
                    }
                    lemma_lex_irreflexive(term@);
                }
                return (j, false);
            }
            proof {
                lemma_lex_connected(self.key_at(j as int), term@);
            }
            j += 1;
        }
        (j, false)
    }

    /// Returns the slot of `term`'s accumulator, creating an empty one, on
    /// the next free slot of the arena, on first sight of the term.
    fn get_term_postings(&mut self, term: Term) -> (slot: usize)
        requires
            old(self).wf(),
        ensures
            final(self).wf(),
            (slot as int) < final(self).spec_postings().len(),
            final(self).has_key(term@),
            old(self).has_key(term@) ==> ({
                &&& final(self).spec_index() == old(self).spec_index()
                &&& final(self).spec_postings() == old(self).spec_postings()
                &&& exists|p: int|
                    0 <= p < old(self).num_terms() && old(self).key_at(p) == term@ && (
                    #[trigger] old(self).spec_index()[p]).1 == slot
            }),
            !old(self).has_key(term@) ==> ({
                &&& slot == old(self).spec_postings().len()
                &&& final(self).spec_postings().len() == old(self).spec_postings().len() + 1
                &&& final(self).spec_postings().subrange(0, slot as int) == old(
                    self,
                ).spec_postings()
                &&& final(self).spec_postings()[slot as int].is_fresh()
                &&& exists|p: int|
                    0 <= p <= old(self).num_terms() && final(self).spec_index() == old(
                        self,
                    ).spec_index().insert(p, (term, slot)) && (forall|k: int|
                        0 <= k < p ==> lex_lt(#[trigger] old(self).key_at(k), term@)) && (
                    forall|k: int|
                        p <= k < old(self).num_terms() ==> lex_lt(
                            term@,
                            #[trigger] old(self).key_at(k),
                        ))
            }),
    {
        let (pos, found) = self.locate(&term);
        if found {
            let slot = self.term_index[pos].1;
            proof {
                assert(old(self).key_at(pos as int) == term@);
            }
            return slot;
        }
        proof {
            assert forall|j: int|
                0 <= j < old(self).num_terms() implies old(self).key_at(j) != term@ by {
                if old(self).key_at(j) == term@ {
                    lemma_lex_irreflexive(term@);
                }
            }
        }
        let slot = self.postings.len();
        self.postings.push(TermPostingsWriter::new());
        let ghost mid = *self;
        self.term_index.insert(pos, (term, slot));
        proof {
            let p = pos as int;
            let oldidx = old(self).spec_index();
            assert(self.term_index@ =~= oldidx.insert(p, (term, slot)));
            assert(oldidx.insert(p, (term, slot)) == oldidx.subrange(0, p).push((term, slot))
                + oldidx.subrange(p, oldidx.len() as int));
            assert forall|j: int| 0 <= j < p implies self.term_index@[j] == oldidx[j] by {
                assert(oldidx.subrange(0, p)[j] == oldidx[j]);
            }
            assert(self.term_index@[p] == (term, slot));
            assert forall|j: int|
                p < j < self.term_index@.len() implies self.term_index@[j] == oldidx[j - 1] by {}
            assert(self.spec_postings().subrange(0, slot as int) =~= old(self).spec_postings());
            // the invariant, clause by clause
            assert forall|j1: int, j2: int|
                0 <= j1 < j2 < self.num_terms() implies lex_lt(
                self.key_at(j1),
                self.key_at(j2),
            ) by {
                if j2 < p {
                    assert(self.key_at(j1) == old(self).key_at(j1));
                    assert(self.key_at(j2) == old(self).key_at(j2));
                    assert(lex_lt(old(self).key_at(j1), old(self).key_at(j2)));
                } else if j1 == p {
                    assert(self.key_at(j1) == term@);
                    assert(self.key_at(j2) == old(self).key_at(j2 - 1));
                    assert(lex_lt(term@, old(self).key_at(j2 - 1)));
                } else if j2 == p {
                    assert(self.key_at(j1) == old(self).key_at(j1));
                    assert(self.key_at(j2) == term@);
                    assert(lex_lt(old(self).key_at(j1), term@));
                } else if j1 < p && j2 > p {
                    assert(self.key_at(j1) == old(self).key_at(j1));
                    assert(self.key_at(j2) == old(self).key_at(j2 - 1));
                    assert(lex_lt(old(self).key_at(j1), old(self).key_at(j2 - 1)));
                } else {
                    assert(self.key_at(j1) == old(self).key_at(j1 - 1));
                    assert(self.key_at(j2) == old(self).key_at(j2 - 1));
                    assert(lex_lt(old(self).key_at(j1 - 1), old(self).key_at(j2 - 1)));
                }
            }
            assert forall|j1: int, j2: int|
                0 <= j1 < j2 < self.num_terms() implies self.spec_index()[j1].1
                != self.spec_index()[j2].1 by {}
            assert forall|j: int|
                0 <= j < self.num_terms() implies (#[trigger] self.spec_index()[j].1)
                < self.spec_postings().len() by {}
            assert forall|i: int|
                0 <= i < self.spec_postings().len() implies (
            #[trigger] self.spec_postings()[i]).wf() by {
                if i < slot {
                    assert(self.spec_postings()[i] == old(self).spec_postings()[i]);
                }
            }
            assert(self.key_at(p) == term@);
        }
        slot
    }

    /// Records one occurrence of `term` at `pos` within `doc`, creating the
    /// term's accumulator on first sight of the term.
    pub fn suscribe(&mut self, doc: DocId, pos: u32, term: Term)
        requires
            old(self).wf(),
            forall|j: int|
                0 <= j < old(self).num_terms() && old(self).key_at(j) == term@ ==> old(
                    self,
                ).writer_at(j).can_subscribe(doc, pos),
        ensures
            final(self).wf(),
            final(self).has_key(term@),
            old(self).has_key(term@) ==> ({
                &&& final(self).keys() == old(self).keys()
                &&& exists|p: int|
                    0 <= p < old(self).num_terms() && old(self).key_at(p) == term@ && old(
                        self,
                    ).writer_at(p).subscribe_step(
                        #[trigger] final(self).writer_at(p),
                        doc,
                        pos,
                    ) && (forall|j: int|
                        0 <= j < old(self).num_terms() && j != p ==> final(self).writer_at(j)
                            == old(self).writer_at(j))
            }),
            !old(self).has_key(term@) ==> ({
                exists|p: int|
                    0 <= p <= old(self).num_terms() && final(self).keys() == old(
                        self,
                    ).keys().insert(p, term@) && (#[trigger] final(self).writer_at(
                        p,
                    )).subscribed_first(doc, pos) && (forall|j: int|
                        0 <= j < p ==> final(self).writer_at(j) == old(self).writer_at(j)) && (
                    forall|j: int|
                        p < j < final(self).num_terms() ==> final(self).writer_at(j) == old(
                            self,
                        ).writer_at(j - 1))
            }),
    {
        let ghost w0 = *old(self);
        let slot = self.get_term_postings(term);
        let ghost mid = *self;
        let w = &mut self.postings[slot];
        proof {
            assert(mid.spec_postings()[slot as int].wf());
        }
        w.suscribe(doc, pos);
        proof {
            assert(self.spec_postings() =~= mid.spec_postings().update(
                slot as int,
                self.spec_postings()[slot as int],
            ));
            assert(self.spec_index() == mid.spec_index());
            assert forall|i: int|
                0 <= i < self.spec_postings().len() implies (
            #[trigger] self.spec_postings()[i]).wf() by {
                if i != slot as int {
                    assert(self.spec_postings()[i] == mid.spec_postings()[i]);
                    assert(mid.spec_postings()[i].wf());
                }
            }
            assert(self.spec_postings()[slot as int].wf());
            assert(self.spec_index().len() == self.spec_postings().len());
            assert(forall|j: int|
                0 <= j < self.num_terms() ==> (#[trigger] self.spec_index()[j].1)
                    < self.spec_postings().len());
            assert(forall|j1: int, j2: int|
                0 <= j1 < j2 < self.num_terms() ==> self.spec_index()[j1].1 != self.spec_index()[j2].1);
            assert forall|j1: int, j2: int|
                0 <= j1 < j2 < self.num_terms() implies lex_lt(
                self.key_at(j1),
                self.key_at(j2),
            ) by {
                assert(self.key_at(j1) == mid.key_at(j1));
                assert(self.key_at(j2) == mid.key_at(j2));
                assert(lex_lt(mid.key_at(j1), mid.key_at(j2)));
            }
            assert(self.wf());
            let q = choose|q: int| 0 <= q < mid.num_terms() && mid.key_at(q) == term@;
            assert(self.key_at(q) == term@);
            assert(self.has_key(term@));
            if w0.has_key(term@) {
                let p = choose|p: int|
                    0 <= p < w0.num_terms() && w0.key_at(p) == term@ && (
                    #[trigger] w0.spec_index()[p]).1 == slot;
                assert(self.keys() =~= w0.keys());
                assert(w0.writer_at(p).subscribe_step(self.writer_at(p), doc, pos));
                assert forall|j: int|
                    0 <= j < w0.num_terms() && j != p implies self.writer_at(j) == w0.writer_at(
                    j,
                ) by {
                    if j < p {
                        assert(w0.spec_index()[j].1 != w0.spec_index()[p].1);
                    } else {
                        assert(w0.spec_index()[p].1 != w0.spec_index()[j].1);
                    }
                }
            } else {
                let p = choose|p: int|
                    0 <= p <= w0.num_terms() && mid.spec_index() == w0.spec_index().insert(
                        p,
                        (term, slot),
                    ) && (forall|k: int|
                        0 <= k < p ==> lex_lt(#[trigger] w0.key_at(k), term@)) && (forall|k: int|
                        p <= k < w0.num_terms() ==> lex_lt(term@, #[trigger] w0.key_at(k)));
                assert(w0.spec_index().insert(p, (term, slot)) == w0.spec_index().subrange(
                    0,
                    p,
                ).push((term, slot)) + w0.spec_index().subrange(p, w0.num_terms()));
                assert forall|j: int| 0 <= j < p implies self.spec_index()[j] == w0.spec_index()[j] by {
                    assert(w0.spec_index().subrange(0, p)[j] == w0.spec_index()[j]);
                }
                assert(self.spec_index()[p] == (term, slot));
                assert forall|j: int|
                    p < j < self.num_terms() implies self.spec_index()[j] == w0.spec_index()[j - 1] by {}
                assert(self.keys() =~= w0.keys().insert(p, term@)) by {
                    assert(w0.keys().insert(p, term@) == w0.keys().subrange(0, p).push(term@)
                        + w0.keys().subrange(p, w0.num_terms()));
                    assert forall|j: int|
                        0 <= j < self.num_terms() implies self.keys()[j] == w0.keys().insert(
                        p,
                        term@,
                    )[j] by {
                        if j < p {
                            assert(w0.keys().subrange(0, p)[j] == w0.key_at(j));
                        } else if j > p {
                            assert(w0.keys().subrange(p, w0.num_terms())[j - p - 1]
                                == w0.key_at(j - 1));
                        }
                    }
                }
                assert(self.writer_at(p).subscribed_first(doc, pos));
                assert forall|j: int|
                    0 <= j < p implies self.writer_at(j) == w0.writer_at(j) by {
                    assert(w0.spec_index()[j].1 < slot);
                }
                assert forall|j: int|
                    p < j < self.num_terms() implies self.writer_at(j) == w0.writer_at(
                    j - 1,
                ) by {
                    assert(w0.spec_index()[j - 1].1 < slot);
                }
            }
        }
    }

    /// Closes every accumulator's open document record.
    pub fn close(&mut self)
        requires
            old(self).wf(),
        ensures
            final(self).wf(),
            final(self).spec_index() == old(self).spec_index(),
            final(self).keys() == old(self).keys(),
            final(self).spec_postings().len() == old(self).spec_postings().len(),
            forall|i: int|
                0 <= i < old(self).spec_postings().len() ==> old(self).spec_postings()[i].close_step(#[trigger] final(self).spec_postings()[i]),
            forall|j: int|
                0 <= j < final(self).num_terms() ==> old(self).writer_at(j).close_step(
                    #[trigger] final(self).writer_at(j),
                ) && final(self).writer_at(j).spec_current_freq() == 0,
    {
        let mut i: usize = 0;
        while i < self.postings.len()
            invariant
                old(self).wf(),
                i <= self.postings@.len(),
                self.postings@.len() == old(self).spec_postings().len(),
                self.term_index@ == old(self).spec_index(),
                forall|k: int|
                    0 <= k < i ==> old(self).spec_postings()[k].close_step(
                        #[trigger] self.postings@[k],
                    ) && self.postings@[k].wf(),
                forall|k: int|
                    i <= k < self.postings@.len() ==> self.postings@[k] == old(
                        self,
                    ).spec_postings()[k],
            decreases self.postings@.len() - i,
        {
            let w = &mut self.postings[i];
            proof {
                assert(old(self).spec_postings()[i as int].wf());
            }
            w.close();
            i += 1;
        }
        proof {
            assert forall|k: int|
                0 <= k < self.spec_postings().len() implies (
            #[trigger] self.spec_postings()[k]).wf() by {
                assert(self.postings@[k].wf());
            }
            assert(self.spec_index().len() == self.spec_postings().len());
            assert(forall|j: int|
                0 <= j < self.num_terms() ==> (#[trigger] self.spec_index()[j].1)
                    < self.spec_postings().len());
            assert(forall|j1: int, j2: int|
                0 <= j1 < j2 < self.num_terms() ==> self.spec_index()[j1].1 != self.spec_index()[j2].1);
            assert forall|j1: int, j2: int|
                0 <= j1 < j2 < self.num_terms() implies lex_lt(
                self.key_at(j1),
                self.key_at(j2),
            ) by {
                assert(self.key_at(j1) == old(self).key_at(j1));
                assert(self.key_at(j2) == old(self).key_at(j2));
                assert(lex_lt(old(self).key_at(j1), old(self).key_at(j2)));
            }
            assert(self.wf());
            assert(self.keys() =~= old(self).keys());
            assert forall|j: int|
                0 <= j < self.num_terms() implies old(self).writer_at(j).close_step(
                #[trigger] self.writer_at(j),
            ) && self.writer_at(j).spec_current_freq() == 0 by {
                let s = self.spec_index()[j].1 as int;
                assert(old(self).spec_postings()[s].close_step(self.spec_postings()[s]));
            }
        }
    }

    /// The header-plus-records block that `serialize` emits for the `j`-th
    /// term in sorted order.
    pub open spec fn term_block(self, j: int) -> Seq<PostingEvent> {
        seq![
            (PostingEvent::TermHeader {
                term: self.key_at(j),
                doc_freq: self.writer_at(j).spec_doc_ids().len() as u32,
            }),
        ] + self.writer_at(j).doc_events()
    }

    /// The events of the first `j` terms' blocks, in sorted term order.
    pub open spec fn events_prefix(self, j: int) -> Seq<PostingEvent>
        decreases j,
    {
        if j <= 0 {
            Seq::empty()
        } else {
            self.events_prefix(j - 1) + self.term_block(j - 1)
        }
    }

    /// Everything a complete serialization pass emits.
    pub open spec fn table_events(self) -> Seq<PostingEvent> {
        self.events_prefix(self.num_terms())
    }

    /// A shorter block prefix is a prefix of a longer one.
    proof fn lemma_events_prefix_mono(self, j1: int, j2: int)
        requires
            0 <= j1 <= j2,
        ensures
            self.events_prefix(j1).is_prefix_of(self.events_prefix(j2)),
        decreases j2 - j1,
    {
        if j1 == j2 {
            assert(self.events_prefix(j1) =~= self.events_prefix(j2).subrange(
                0,
                self.events_prefix(j1).len() as int,
            ));
        } else {
            self.lemma_events_prefix_mono(j1, j2 - 1);
            let a = self.events_prefix(j1);
            let b = self.events_prefix(j2 - 1);
            let c = self.events_prefix(j2);
            assert(c == b + self.term_block(j2 - 1));
            assert(a =~= c.subrange(0, a.len() as int)) by {
                assert(a =~= b.subrange(0, a.len() as int));
            }
        }
    }

    /// Walks the terms in sorted order and, for each, announces the term
    /// with its document count and forwards its closed document records,
    /// stopping at the sink's first failure.  On failure the sink has
    /// accepted some prefix of the full serialization.
    pub fn serialize<S: PostingsSerializer<E>, E>(&self, serializer: &mut S) -> (r: Result<
        (),
        E,
    >)
        requires
            self.wf(),
            forall|j: int|
                0 <= j < self.num_terms() ==> (#[trigger] self.writer_at(j)).spec_current_freq()
                    == 0,
            forall|j: int|
                0 <= j < self.num_terms() ==> (#[trigger] self.writer_at(j)).spec_deltas().len()
                    <= usize::MAX as int,
        ensures
            r is Ok ==> final(serializer).events() == old(serializer).events()
                + self.table_events(),
            r is Err ==> ({
                &&& old(serializer).events().is_prefix_of(final(serializer).events())
                &&& final(serializer).events().skip(
                    old(serializer).events().len() as int,
                ).is_prefix_of(self.table_events())
            }),
    {
        let mut j: usize = 0;
        proof {
            assert(serializer.events() =~= old(serializer).events() + self.events_prefix(0));
        }
        while j < self.term_index.len()
            invariant
                self.wf(),
                forall|j: int|
                    0 <= j < self.num_terms() ==> (
                    #[trigger] self.writer_at(j)).spec_current_freq() == 0,
                forall|j: int|
                    0 <= j < self.num_terms() ==> (
                    #[trigger] self.writer_at(j)).spec_deltas().len() <= usize::MAX as int,
                j <= self.term_index@.len(),
                serializer.events() == old(serializer).events() + self.events_prefix(j as int),
            decreases self.term_index@.len() - j,
        {
            let ghost pre = serializer.events();
            let slot = self.term_index[j].1;
            let w = &self.postings[slot];
            proof {
                assert(w == self.writer_at(j as int));
            }
            let term_docfreq = w.doc_freq();
            match serializer.new_term(&self.term_index[j].0, term_docfreq) {
                Ok(_) => {},
                Err(e) => {
                    proof {
                        self.lemma_events_prefix_mono(j as int, self.num_terms());
                        assert(serializer.events().skip(old(serializer).events().len() as int)
                            =~= self.events_prefix(j as int));
                        assert(old(serializer).events().is_prefix_of(serializer.events())) by {
                            assert(old(serializer).events() =~= serializer.events().subrange(
                                0,
                                old(serializer).events().len() as int,
                            ));
                        }
                    }
                    return Err(e);
                },
            }
            proof {
                assert(serializer.events() =~= pre + seq![
                    (PostingEvent::TermHeader {
                        term: self.key_at(j as int),
                        doc_freq: self.writer_at(j as int).spec_doc_ids().len() as u32,
                    }),
                ]);
            }
            let ghost mid = serializer.events();
            match w.serialize(serializer) {
                Ok(_) => {},
                Err(e) => {
                    proof {
                        let delivered = serializer.events().skip(
                            old(serializer).events().len() as int,
                        );
                        let k = serializer.events().len() - mid.len();
                        assert(serializer.events() == mid + self.writer_at(
                            j as int,
                        ).doc_events().subrange(0, k as int));
                        assert(delivered =~= self.events_prefix(j as int) + self.term_block(
                            j as int,
                        ).subrange(0, k + 1));
                        assert(delivered =~= self.events_prefix(j + 1).subrange(
                            0,
                            delivered.len() as int,
                        )) by {
                            assert(self.events_prefix(j + 1) == self.events_prefix(j as int)
                                + self.term_block(j as int));
                        }
                        self.lemma_events_prefix_mono(j + 1, self.num_terms());
                        assert(delivered.is_prefix_of(self.events_prefix(j + 1)));
                        assert(delivered.is_prefix_of(self.table_events())) by {
                            assert(delivered =~= self.table_events().subrange(
                                0,
                                delivered.len() as int,
                            ));
                        }
                        assert(old(serializer).events().is_prefix_of(serializer.events())) by {
                            assert(old(serializer).events() =~= serializer.events().subrange(
                                0,
                                old(serializer).events().len() as int,
                            ));
                        }
                    }
                    return Err(e);
                },
            }
            proof {
                assert(serializer.events() =~= old(serializer).events() + self.events_prefix(
                    j + 1,
                )) by {
                    assert(self.events_prefix(j + 1) == self.events_prefix(j as int)
                        + self.term_block(j as int));
                }
            }
            j += 1;
        }
        proof {
            assert(self.events_prefix(self.num_terms()) == self.table_events());
        }
        Ok(())
    }
}

} // verus!
