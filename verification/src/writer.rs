//! The per-term posting accumulator.
//!
//! A [`TermPostingsWriter`] owns one term's posting list: the document ids
//! that contain the term, one closed frequency per closed document, and the
//! flat sequence of position deltas.  A document's record stays open while
//! its occurrences arrive and is closed when a different document id arrives
//! or when `close` is called.

use vstd::prelude::*;

use crate::recorder::U32sRecorder;
use crate::sink::DocId;
use crate::sink::PostingEvent;
use crate::sink::PostingsSerializer;

verus! {

/// The sum of a sequence of 32-bit values, as an unbounded integer.
pub open spec fn sum_u32(s: Seq<u32>) -> int
    decreases s.len(),
{
    if s.len() == 0 {
        0
    } else {
        sum_u32(s.drop_last()) + s.last()
    }
}

/// Whether the sequence is strictly increasing.
pub open spec fn strictly_increasing(s: Seq<u32>) -> bool {
    forall|i: int, j: int| 0 <= i < j < s.len() ==> s[i] < s[j]
}

/// The sequence with runs of equal adjacent values collapsed to one value.
pub open spec fn dedup_adjacent(s: Seq<u32>) -> Seq<u32>
    decreases s.len(),
{
    if s.len() == 0 {
        Seq::empty()
    } else if s.len() == 1 {
        s
    } else if s[s.len() - 2] == s[s.len() - 1] {
        dedup_adjacent(s.drop_last())
    } else {
        dedup_adjacent(s.drop_last()).push(s.last())
    }
}

proof fn lemma_sum_push(s: Seq<u32>, x: u32)
    ensures
        sum_u32(s.push(x)) == sum_u32(s) + x,
{
    assert(s.push(x).drop_last() =~= s);
    assert(s.push(x).last() == x);
}

proof fn lemma_sum_nonneg(s: Seq<u32>)
    ensures
        0 <= sum_u32(s),
    decreases s.len(),
{
    if s.len() > 0 {
        lemma_sum_nonneg(s.drop_last());
    }
}

proof fn lemma_sum_prefix_le(s: Seq<u32>, i: int)
    requires
        0 <= i <= s.len(),
    ensures
        sum_u32(s.subrange(0, i)) <= sum_u32(s),
    decreases s.len() - i,
{
    if i == s.len() {
        assert(s.subrange(0, i) =~= s);
    } else {
        assert(s.subrange(0, i + 1) =~= s.subrange(0, i).push(s[i]));
        lemma_sum_push(s.subrange(0, i), s[i]);
        lemma_sum_prefix_le(s, i + 1);
    }
}

/// A nonempty sequence and its deduplication end in the same value.
proof fn lemma_dedup_last(s: Seq<u32>)
    requires
        s.len() > 0,
    ensures
        dedup_adjacent(s).len() > 0,
        dedup_adjacent(s).last() == s.last(),
    decreases s.len(),
{
    if s.len() >= 2 {
        lemma_dedup_last(s.drop_last());
    }
}

/// How deduplication grows when one value is appended.
proof fn lemma_dedup_push(s: Seq<u32>, x: u32)
    ensures
        dedup_adjacent(s.push(x)) == (if s.len() > 0 && s.last() == x {
            dedup_adjacent(s)
        } else {
            dedup_adjacent(s).push(x)
        }),
{
    let t = s.push(x);
    assert(t.drop_last() =~= s);
    if s.len() == 0 {
        assert(t.len() == 1);
        assert(dedup_adjacent(t) == t);
        assert(t =~= dedup_adjacent(s).push(x));
    } else {
        assert(t[t.len() - 2] == s.last());
        assert(t.last() == x);
    }
}

/// Deduplication keeps exactly the values of the original sequence.
pub proof fn lemma_dedup_contains(s: Seq<u32>)
    ensures
        forall|a: u32| dedup_adjacent(s).contains(a) <==> s.contains(a),
    decreases s.len(),
{
    if s.len() >= 2 {
        let dl = s.drop_last();
        let d = dedup_adjacent(s);
        let dd = dedup_adjacent(dl);
        lemma_dedup_contains(dl);
        assert forall|a: u32| s.contains(a) implies (dedup_adjacent(s).contains(a)) by {
            let i = choose|i: int| 0 <= i < s.len() && s[i] == a;
            if i < s.len() - 1 {
                assert(dl[i] == a);
                assert(dl.contains(a));
                assert(dd.contains(a));
                let k = choose|k: int| 0 <= k < dd.len() && dd[k] == a;
                assert(d[k] == a);
            } else {
                if s[s.len() - 2] == s[s.len() - 1] {
                    assert(dl[s.len() - 2] == a);
                    assert(dl.contains(a));
                    assert(dd.contains(a));
                    let k = choose|k: int| 0 <= k < dd.len() && dd[k] == a;
                    assert(d[k] == a);
                } else {
                    assert(d[d.len() - 1] == a);
                }
            }
        }
        assert forall|a: u32| dedup_adjacent(s).contains(a) implies s.contains(a) by {
            if s[s.len() - 2] == s[s.len() - 1] {
                assert(dd.contains(a));
                assert(dl.contains(a));
                let i = choose|i: int| 0 <= i < dl.len() && dl[i] == a;
                assert(s[i] == a);
            } else {
                let i = choose|i: int| 0 <= i < d.len() && d[i] == a;
                if i < d.len() - 1 {
                    assert(dd[i] == a);
                    assert(dd.contains(a));
                    assert(dl.contains(a));
                    let j = choose|j: int| 0 <= j < dl.len() && dl[j] == a;
                    assert(s[j] == a);
                } else {
                    assert(s[s.len() - 1] == a);
                }
            }
        }
    }
}

/// One term's posting accumulator.
///
/// `TF` records the closed per-document frequencies, `PR` the position
/// deltas; either may be the full or the oblivious strategy.
pub struct TermPostingsWriter<TF: U32sRecorder, PR: U32sRecorder> {
    doc_ids: Vec<DocId>,
    term_freqs: TF,
    positions: PR,
    current_position: u32,
    current_freq: u32,
    docs: Ghost<Seq<DocId>>,
}

impl<TF: U32sRecorder, PR: U32sRecorder> TermPostingsWriter<TF, PR> {
    /// The ids of the documents appended so far (the last one may still be
    /// open), in arrival order.
    pub closed spec fn spec_doc_ids(self) -> Seq<u32> {
        self.doc_ids@
    }

    /// The recorded history of closed per-document frequencies.
    pub closed spec fn spec_freqs(self) -> Seq<u32> {
        self.term_freqs.recorded()
    }

    /// The recorded history of position deltas, all documents concatenated.
    pub closed spec fn spec_deltas(self) -> Seq<u32> {
        self.positions.recorded()
    }

    /// The open document's running frequency; zero when no document is open.
    pub closed spec fn spec_current_freq(self) -> u32 {
        self.current_freq
    }

    /// The last position recorded for the open document.
    pub closed spec fn spec_current_position(self) -> u32 {
        self.current_position
    }

    /// The document id of every `suscribe` call, in order.
    pub closed spec fn subscribed_docs(self) -> Seq<u32> {
        self.docs@
    }

    /// The accumulator's invariant.
    pub open spec fn wf(self) -> bool {
        &&& strictly_increasing(self.spec_doc_ids())
        &&& self.spec_doc_ids().len() <= u32::MAX as int
        &&& self.spec_doc_ids().len() == self.spec_freqs().len() + (if self.spec_current_freq()
            > 0 {
            1int
        } else {
            0int
        })
        &&& self.spec_deltas().len() == sum_u32(self.spec_freqs()) + self.spec_current_freq()
        &&& (self.spec_current_freq() == 0 ==> self.spec_current_position() == 0)
        &&& self.spec_doc_ids() == dedup_adjacent(self.subscribed_docs())
    }

    /// Whether `doc` opens a new document record.
    pub open spec fn spec_is_new_doc(self, doc: DocId) -> bool {
        self.spec_doc_ids().len() == 0 || self.spec_doc_ids().last() != doc
    }

    /// The caller discipline for one more `(doc, pos)` occurrence: document
    /// ids arrive in non-decreasing order, never reopening a closed
    /// document, positions in non-decreasing order within a document, and
    /// the machine limits of the counters are kept.
    pub open spec fn can_subscribe(self, doc: DocId, pos: u32) -> bool {
        if self.spec_doc_ids().len() == 0 {
            true
        } else if self.spec_current_freq() > 0 && doc == self.spec_doc_ids().last() {
            pos >= self.spec_current_position() && self.spec_current_freq() < u32::MAX
        } else {
            doc > self.spec_doc_ids().last() && self.spec_doc_ids().len() < u32::MAX as int
        }
    }

    /// Whether nothing has been recorded yet.
    pub open spec fn is_fresh(self) -> bool {
        &&& self.spec_doc_ids() == Seq::<u32>::empty()
        &&& self.spec_freqs() == Seq::<u32>::empty()
        &&& self.spec_deltas() == Seq::<u32>::empty()
        &&& self.spec_current_freq() == 0
        &&& self.spec_current_position() == 0
        &&& self.subscribed_docs() == Seq::<u32>::empty()
    }

    /// The state after a fresh accumulator received its first occurrence.
    pub open spec fn subscribed_first(self, doc: DocId, pos: u32) -> bool {
        &&& self.spec_doc_ids() == seq![doc]
        &&& self.spec_freqs() == Seq::<u32>::empty()
        &&& self.spec_deltas() == seq![pos]
        &&& self.spec_current_freq() == 1
        &&& self.spec_current_position() == pos
        &&& self.subscribed_docs() == seq![doc]
    }

    /// How one `suscribe(doc, pos)` call takes the accumulator from `self`
    /// to `w2`.
    pub open spec fn subscribe_step(self, w2: Self, doc: DocId, pos: u32) -> bool {
        &&& w2.subscribed_docs() == self.subscribed_docs().push(doc)
        &&& w2.spec_current_position() == pos
        &&& if self.spec_is_new_doc(doc) {
            &&& w2.spec_doc_ids() == self.spec_doc_ids().push(doc)
            &&& w2.spec_freqs() == (if self.spec_current_freq() > 0 {
                self.spec_freqs().push(self.spec_current_freq())
            } else {
                self.spec_freqs()
            })
            &&& w2.spec_deltas() == self.spec_deltas().push(pos)
            &&& w2.spec_current_freq() == 1
        } else {
            &&& w2.spec_doc_ids() == self.spec_doc_ids()
            &&& w2.spec_freqs() == self.spec_freqs()
            &&& w2.spec_deltas() == self.spec_deltas().push(
                (pos - self.spec_current_position()) as u32,
            )
            &&& w2.spec_current_freq() == self.spec_current_freq() + 1
        }
    }

    /// How one `close()` call takes the accumulator from `self` to `w2`:
    /// an open record is frozen, a closed state is left untouched.
    pub open spec fn close_step(self, w2: Self) -> bool {
        &&& w2.spec_doc_ids() == self.spec_doc_ids()
        &&& w2.subscribed_docs() == self.subscribed_docs()
        &&& w2.spec_deltas() == self.spec_deltas()
        &&& w2.spec_current_freq() == 0
        &&& w2.spec_current_position() == 0
        &&& w2.spec_freqs() == (if self.spec_current_freq() > 0 {
            self.spec_freqs().push(self.spec_current_freq())
        } else {
            self.spec_freqs()
        })
    }

    /// An empty accumulator.
    pub fn new() -> (r: Self)
        ensures
            r.wf(),
            r.is_fresh(),
    {
        let r = TermPostingsWriter {
            doc_ids: Vec::new(),
            term_freqs: TF::new(),
            positions: PR::new(),
            current_position: 0u32,
            current_freq: 0u32,
            docs: Ghost(Seq::empty()),
        };
        proof {
            assert(r.spec_doc_ids() =~= dedup_adjacent(r.subscribed_docs()));
        }
        r
    }

    /// Freezes the open document: its frequency joins `term_freqs` and the
    /// scratch state is reset.
    fn close_doc(&mut self)
        requires
            old(self).wf(),
            old(self).spec_current_freq() > 0,
        ensures
            final(self).wf(),
            old(self).close_step(*final(self)),
    {
        self.term_freqs.record(self.current_freq);
        self.current_freq = 0;
        self.current_position = 0;
        proof {
            lemma_sum_push(old(self).spec_freqs(), old(self).spec_current_freq());
        }
    }

    /// Closes the open document, if any; a no-op otherwise.
    pub fn close(&mut self)
        requires
            old(self).wf(),
        ensures
            final(self).wf(),
            old(self).close_step(*final(self)),
    {
        if self.current_freq > 0 {
            self.close_doc();
        }
    }

    /// Whether `doc` differs from the most recently seen document id.
    fn is_new_doc(&self, doc: &DocId) -> (r: bool)
        ensures
            r == self.spec_is_new_doc(*doc),
    {
        if self.doc_ids.len() == 0 {
            true
        } else {
            self.doc_ids[self.doc_ids.len() - 1] != *doc
        }
    }

    /// The number of documents recorded so far.
    pub fn doc_freq(&self) -> (r: u32)
        requires
            self.wf(),
        ensures
            r as int == self.spec_doc_ids().len() as int,
    {
        self.doc_ids.len() as u32
    }

    /// The frequency that `serialize` reads for document `i`: the recorded
    /// one under the full strategy, zero under the oblivious one.
    pub open spec fn tf_val(self, i: int) -> u32 {
        if TF::retains() {
            self.spec_freqs()[i]
        } else {
            0u32
        }
    }

    /// Where document `i`'s position deltas start in the flat sequence, as
    /// `serialize` computes it.
    pub open spec fn spec_offset(self, i: int) -> int
        decreases i,
    {
        if i <= 0 {
            0
        } else {
            self.spec_offset(i - 1) + self.tf_val(i - 1)
        }
    }

    /// The record that `serialize` forwards for document `i`.
    pub open spec fn doc_event(self, i: int) -> PostingEvent {
        PostingEvent::DocRecord {
            doc: self.spec_doc_ids()[i],
            term_freq: self.tf_val(i),
            deltas: if PR::retains() {
                self.spec_deltas().subrange(
                    self.spec_offset(i),
                    self.spec_offset(i) + self.tf_val(i),
                )
            } else {
                Seq::empty()
            },
        }
    }

    /// Every record that `serialize` forwards, in document order.
    pub open spec fn doc_events(self) -> Seq<PostingEvent> {
        Seq::new(self.spec_doc_ids().len(), |i: int| self.doc_event(i))
    }

    proof fn lemma_offset_oblivious(self, i: int)
        requires
            !TF::retains(),
            0 <= i,
        ensures
            self.spec_offset(i) == 0,
        decreases i,
    {
        if i > 0 {
            self.lemma_offset_oblivious(i - 1);
        }
    }

    proof fn lemma_offset_is_prefix_sum(self, i: int)
        requires
            TF::retains(),
            0 <= i <= self.spec_freqs().len(),
        ensures
            self.spec_offset(i) == sum_u32(self.spec_freqs().subrange(0, i)),
        decreases i,
    {
        if i == 0 {
            assert(self.spec_freqs().subrange(0, 0) =~= Seq::<u32>::empty());
        } else {
            self.lemma_offset_is_prefix_sum(i - 1);
            assert(self.spec_freqs().subrange(0, i) =~= self.spec_freqs().subrange(
                0,
                i - 1,
            ).push(self.spec_freqs()[i - 1]));
            lemma_sum_push(self.spec_freqs().subrange(0, i - 1), self.spec_freqs()[i - 1]);
        }
    }

    /// The offsets that `serialize` walks stay within the recorded deltas.
    proof fn lemma_offsets_in_bounds(self, i: int)
        requires
            self.wf(),
            self.spec_current_freq() == 0,
            0 <= i <= self.spec_doc_ids().len(),
        ensures
            0 <= self.spec_offset(i),
            self.spec_offset(i) + (if i < self.spec_doc_ids().len() {
                self.tf_val(i) as int
            } else {
                0int
            }) <= sum_u32(self.spec_freqs()),
            sum_u32(self.spec_freqs()) == self.spec_deltas().len(),
    {
        if TF::retains() {
            self.lemma_offset_is_prefix_sum(i);
            lemma_sum_nonneg(self.spec_freqs().subrange(0, i));
            if i < self.spec_doc_ids().len() {
                self.lemma_offset_is_prefix_sum(i + 1);
                lemma_sum_prefix_le(self.spec_freqs(), i + 1);
            } else {
                lemma_sum_prefix_le(self.spec_freqs(), i);
            }
        } else {
            self.lemma_offset_oblivious(i);
            lemma_sum_nonneg(self.spec_freqs());
        }
    }

    /// Forwards each closed document's record — document id, frequency, and
    /// position-delta range — to the sink, in document order, stopping at
    /// the sink's first failure.
    pub fn serialize<S: PostingsSerializer<E>, E>(&self, serializer: &mut S) -> (r: Result<
        (),
        E,
    >)
        requires
            self.wf(),
            self.spec_current_freq() == 0,
            self.spec_deltas().len() <= usize::MAX as int,
        ensures
            r is Ok ==> final(serializer).events() == old(serializer).events()
                + self.doc_events(),
            r is Err ==> ({
                let k = final(serializer).events().len() - old(serializer).events().len();
                0 <= k < self.doc_events().len() && final(serializer).events() == old(
                    serializer,
                ).events() + self.doc_events().subrange(0, k as int)
            }),
    {
        let mut positions_idx: usize = 0;
        let mut i: usize = 0;
        proof {
            assert(serializer.events() =~= old(serializer).events() + self.doc_events().subrange(
                0,
                0,
            ));
        }
        while i < self.doc_ids.len()
            invariant
                self.wf(),
                self.spec_current_freq() == 0,
                self.spec_deltas().len() <= usize::MAX as int,
                i <= self.doc_ids@.len(),
                positions_idx as int == self.spec_offset(i as int),
                serializer.events() == old(serializer).events() + self.doc_events().subrange(
                    0,
                    i as int,
                ),
            decreases self.doc_ids@.len() - i,
        {
            proof {
                self.lemma_offsets_in_bounds(i as int);
            }
            let doc = self.doc_ids[i];
            let term_freq: u32 = self.term_freqs.get(i);
            let stop = positions_idx + term_freq as usize;
            let positions = self.positions.slice(positions_idx, stop);
            match serializer.write_doc(doc, term_freq, &positions) {
                Ok(_) => {},
                Err(e) => {
                    proof {
                        let k = i as int;
                        assert(0 <= k < self.doc_events().len());
                        assert(serializer.events() == old(serializer).events()
                            + self.doc_events().subrange(0, k));
                    }
                    return Err(e);
                },
            }
            proof {
                assert(self.doc_event(i as int) == (PostingEvent::DocRecord {
                    doc,
                    term_freq,
                    deltas: positions@,
                }));
                assert(self.doc_events().subrange(0, i + 1) =~= self.doc_events().subrange(
                    0,
                    i as int,
                ).push(self.doc_event(i as int)));
                assert(serializer.events() =~= old(serializer).events()
                    + self.doc_events().subrange(0, i + 1));
            }
            positions_idx = stop;
            i += 1;
        }
        proof {
            assert(self.doc_events().subrange(0, self.doc_events().len() as int)
                =~= self.doc_events());
        }
        Ok(())
    }

    /// Records one occurrence of the term at `pos` within `doc`.  A new
    /// document id closes the previously open record first; the position
    /// recorder receives the delta against the previous position of the
    /// same document, or the raw position for a document's first occurrence.
    pub fn suscribe(&mut self, doc: DocId, pos: u32)
        requires
            old(self).wf(),
            old(self).can_subscribe(doc, pos),
        ensures
            final(self).wf(),
            old(self).subscribe_step(*final(self), doc, pos),
    {
        let ghost w0 = *old(self);
        if self.is_new_doc(&doc) {
            self.close();
            self.doc_ids.push(doc);
            proof {
                if w0.spec_doc_ids().len() > 0 {
                    assert forall|i: int, j: int|
                        0 <= i < j < self.doc_ids@.len() implies self.doc_ids@[i]
                        < self.doc_ids@[j] by {
                        if j < self.doc_ids@.len() - 1 {
                            assert(w0.spec_doc_ids()[i] < w0.spec_doc_ids()[j]);
                        } else {
                            if i < w0.spec_doc_ids().len() - 1 {
                                assert(w0.spec_doc_ids()[i] < w0.spec_doc_ids().last());
                            }
                        }
                    }
                }
            }
        }
        self.current_freq = self.current_freq + 1;
        self.positions.record(pos - self.current_position);
        self.current_position = pos;
        proof {
            self.docs@ = self.docs@.push(doc);
            lemma_sum_push(w0.spec_freqs(), w0.spec_current_freq());
            lemma_dedup_push(w0.subscribed_docs(), doc);
            if w0.subscribed_docs().len() > 0 {
                lemma_dedup_last(w0.subscribed_docs());
            }
        }
    }
}

} // verus!
