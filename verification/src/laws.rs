//! The laws the library guarantees, each proved from the contracts of the
//! recording and serialization operations.

use vstd::prelude::*;
use vstd::seq_lib::*;

use crate::recorder::ObliviousRecorder;
use crate::recorder::U32sRecorder;
use crate::sink::PostingEvent;
use crate::table::PostingsWriter;
use crate::term::lex_lt;
use crate::writer::dedup_adjacent;
use crate::writer::lemma_dedup_contains;
use crate::writer::strictly_increasing;
use crate::writer::TermPostingsWriter;

verus! {

/// The terms of the header events, in the order the events stand.
pub open spec fn header_terms(events: Seq<PostingEvent>) -> Seq<Seq<u8>>
    decreases events.len(),
{
    if events.len() == 0 {
        Seq::empty()
    } else {
        let rest = header_terms(events.drop_last());
        match events.last() {
            PostingEvent::TermHeader { term, .. } => rest.push(term),
            PostingEvent::DocRecord { .. } => rest,
        }
    }
}

/// Header terms distribute over concatenation of event sequences.
pub proof fn lemma_header_terms_concat(a: Seq<PostingEvent>, b: Seq<PostingEvent>)
    ensures
        header_terms(a + b) == header_terms(a) + header_terms(b),
    decreases b.len(),
{
    if b.len() == 0 {
        assert(a + b =~= a);
        assert(header_terms(a) + header_terms(b) =~= header_terms(a));
    } else {
        lemma_header_terms_concat(a, b.drop_last());
        assert((a + b).drop_last() =~= a + b.drop_last());
        assert((a + b).last() == b.last());
        match b.last() {
            PostingEvent::TermHeader { term, .. } => {
                assert(header_terms(a) + header_terms(b) =~= (header_terms(a) + header_terms(
                    b.drop_last(),
                )).push(term));
            },
            PostingEvent::DocRecord { .. } => {
                assert(header_terms(b) == header_terms(b.drop_last()));
            },
        }
    }
}

/// A sequence of document records alone has no header terms.
pub proof fn lemma_header_terms_empty(events: Seq<PostingEvent>)
    requires
        forall|i: int| 0 <= i < events.len() ==> (#[trigger] events[i]) is DocRecord,
    ensures
        header_terms(events) == Seq::<Seq<u8>>::empty(),
    decreases events.len(),
{
    if events.len() > 0 {
        lemma_header_terms_empty(events.drop_last());
        assert(events.last() is DocRecord);
    }
}

/// Law: for any sequence of in-order occurrences, the number of recorded
/// documents equals the number of distinct documents the term appeared in.
pub proof fn lemma_doc_freq_counts_distinct_docs<TF: U32sRecorder, PR: U32sRecorder>(
    w: TermPostingsWriter<TF, PR>,
)
    requires
        w.wf(),
    ensures
        w.spec_doc_ids().len() == w.subscribed_docs().to_set().len(),
        w.spec_doc_ids().to_set() == w.subscribed_docs().to_set(),
{
    let ids = w.spec_doc_ids();
    assert(ids.no_duplicates()) by {
        assert forall|i: int, j: int|
            0 <= i < ids.len() && 0 <= j < ids.len() && i != j implies ids[i] != ids[j] by {
            if i < j {
                assert(ids[i] < ids[j]);
            } else {
                assert(ids[j] < ids[i]);
            }
        }
    }
    ids.unique_seq_to_set();
    lemma_dedup_contains(w.subscribed_docs());
    assert(ids.to_set() =~= w.subscribed_docs().to_set());
}

/// Law: under the oblivious strategy the same documents are reported, but
/// every serialized record carries frequency zero and no positions.
pub proof fn lemma_oblivious_membership_only(
    w: TermPostingsWriter<ObliviousRecorder, ObliviousRecorder>,
)
    requires
        w.wf(),
    ensures
        w.doc_events().len() == w.spec_doc_ids().len(),
        forall|i: int|
            0 <= i < w.doc_events().len() ==> w.doc_events()[i] == (PostingEvent::DocRecord {
                doc: w.spec_doc_ids()[i],
                term_freq: 0u32,
                deltas: Seq::<u32>::empty(),
            }),
        w.spec_doc_ids().len() == w.subscribed_docs().to_set().len(),
{
    lemma_doc_freq_counts_distinct_docs(w);
}

/// Law: a second `close` changes nothing: the first one leaves no open
/// document, so no duplicate record can be produced.
pub proof fn lemma_close_idempotent<TF: U32sRecorder, PR: U32sRecorder>(
    w0: TermPostingsWriter<TF, PR>,
    w1: TermPostingsWriter<TF, PR>,
    w2: TermPostingsWriter<TF, PR>,
)
    requires
        w0.close_step(w1),
        w1.close_step(w2),
    ensures
        w2.spec_doc_ids() == w1.spec_doc_ids(),
        w2.spec_freqs() == w1.spec_freqs(),
        w2.spec_deltas() == w1.spec_deltas(),
        w2.spec_current_freq() == 0,
        w2.spec_current_position() == 0,
        w2.subscribed_docs() == w1.subscribed_docs(),
{
}

/// Law: serialization emits exactly one header per distinct term, in
/// strictly increasing lexicographic order, whatever the subscription order
/// was.
pub proof fn lemma_terms_serialized_sorted<TF: U32sRecorder, PR: U32sRecorder>(
    t: PostingsWriter<TF, PR>,
)
    requires
        t.wf(),
    ensures
        header_terms(t.table_events()) == t.keys(),
        forall|a: int, b: int|
            0 <= a < b < t.keys().len() ==> lex_lt(t.keys()[a], t.keys()[b]),
{
    lemma_header_terms_of_prefix(t, t.num_terms());
    assert(header_terms(t.table_events()) =~= t.keys());
}

proof fn lemma_header_terms_of_prefix<TF: U32sRecorder, PR: U32sRecorder>(
    t: PostingsWriter<TF, PR>,
    j: int,
)
    requires
        t.wf(),
        0 <= j <= t.num_terms(),
    ensures
        header_terms(t.events_prefix(j)) == t.keys().subrange(0, j),
    decreases j,
{
    if j == 0 {
        assert(header_terms(t.events_prefix(0)) =~= t.keys().subrange(0, 0));
    } else {
        lemma_header_terms_of_prefix(t, j - 1);
        let block = t.term_block(j - 1);
        let header = (PostingEvent::TermHeader {
            term: t.key_at(j - 1),
            doc_freq: t.writer_at(j - 1).spec_doc_ids().len() as u32,
        });
        lemma_header_terms_concat(t.events_prefix(j - 1), block);
        lemma_header_terms_concat(seq![header], t.writer_at(j - 1).doc_events());
        assert(header_terms(seq![header]) =~= seq![t.key_at(j - 1)]) by {
            let h1 = seq![header];
            assert(h1.len() == 1);
            assert(h1.drop_last() =~= Seq::<PostingEvent>::empty());
            assert(header_terms(h1.drop_last()) == Seq::<Seq<u8>>::empty());
            assert(h1.last() == header);
            assert(header_terms(h1) == header_terms(h1.drop_last()).push(t.key_at(j - 1)));
        }
        lemma_header_terms_empty(t.writer_at(j - 1).doc_events());
        assert(header_terms(block) =~= seq![t.key_at(j - 1)]) by {
            assert(header_terms(block) == header_terms(seq![header]) + header_terms(
                t.writer_at(j - 1).doc_events(),
            ));
        }
        assert(header_terms(t.events_prefix(j)) =~= t.keys().subrange(0, j)) by {
            assert(t.keys().subrange(0, j) =~= t.keys().subrange(0, j - 1).push(
                t.key_at(j - 1),
            ));
        }
    }
}

/// Law: every term that was ever subscribed appears, after the closing
/// pass, in the serialized output.
pub proof fn lemma_subscribed_term_is_serialized<TF: U32sRecorder, PR: U32sRecorder>(
    t: PostingsWriter<TF, PR>,
    term: Seq<u8>,
)
    requires
        t.wf(),
        t.has_key(term),
    ensures
        header_terms(t.table_events()).contains(term),
{
    lemma_terms_serialized_sorted(t);
    let j = choose|j: int| 0 <= j < t.num_terms() && t.key_at(j) == term;
    assert(t.keys()[j] == term);
    assert(header_terms(t.table_events())[j] == term);
}

} // verus!
