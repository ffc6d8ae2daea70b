use postings::recorder::ObliviousRecorder;
use postings::recorder::U32sRecorder;
use postings::recorder::VecRecorder;
use postings::sink::BufferSerializer;
use postings::sink::FailingSerializer;
use postings::sink::LoggedEvent;
use postings::table::PostingsWriter;
use postings::term::term_eq;
use postings::term::term_lt;
use postings::term::Term;
use postings::writer::TermPostingsWriter;

fn term(bytes: &[u8]) -> Term {
    Term::new(bytes.to_vec())
}

#[test]
fn round_trip_single_term_full() {
    let mut table: PostingsWriter<VecRecorder, VecRecorder> = PostingsWriter::new();
    table.suscribe(1, 3, term(b"cat"));
    table.suscribe(1, 5, term(b"cat"));
    table.suscribe(2, 1, term(b"cat"));
    table.close();
    let mut sink = BufferSerializer::new();
    let r: Result<(), ()> = table.serialize(&mut sink);
    assert!(r.is_ok());
    assert_eq!(
        sink.log,
        vec![
            LoggedEvent::TermHeader { term: b"cat".to_vec(), doc_freq: 2 },
            LoggedEvent::DocRecord { doc: 1, term_freq: 2, deltas: vec![3, 2] },
            LoggedEvent::DocRecord { doc: 2, term_freq: 1, deltas: vec![1] },
        ]
    );
}

#[test]
fn oblivious_reports_membership_only() {
    let mut table: PostingsWriter<ObliviousRecorder, ObliviousRecorder> = PostingsWriter::new();
    table.suscribe(1, 3, term(b"cat"));
    table.suscribe(1, 5, term(b"cat"));
    table.suscribe(2, 1, term(b"cat"));
    table.close();
    let mut sink = BufferSerializer::new();
    let r: Result<(), ()> = table.serialize(&mut sink);
    assert!(r.is_ok());
    assert_eq!(
        sink.log,
        vec![
            LoggedEvent::TermHeader { term: b"cat".to_vec(), doc_freq: 2 },
            LoggedEvent::DocRecord { doc: 1, term_freq: 0, deltas: vec![] },
            LoggedEvent::DocRecord { doc: 2, term_freq: 0, deltas: vec![] },
        ]
    );
}

#[test]
fn terms_serialized_in_lexicographic_order() {
    let mut table: PostingsWriter<VecRecorder, VecRecorder> = PostingsWriter::new();
    table.suscribe(1, 0, term(b"zebra"));
    table.suscribe(1, 1, term(b"apple"));
    table.suscribe(2, 0, term(b"mango"));
    table.close();
    let mut sink = BufferSerializer::new();
    let r: Result<(), ()> = table.serialize(&mut sink);
    assert!(r.is_ok());
    let headers: Vec<Vec<u8>> = sink
        .log
        .iter()
        .filter_map(|e| match e {
            LoggedEvent::TermHeader { term, .. } => Some(term.clone()),
            LoggedEvent::DocRecord { .. } => None,
        })
        .collect();
    assert_eq!(headers, vec![b"apple".to_vec(), b"mango".to_vec(), b"zebra".to_vec()]);
}

#[test]
fn close_twice_produces_no_duplicate_record() {
    let mut writer: TermPostingsWriter<VecRecorder, VecRecorder> = TermPostingsWriter::new();
    writer.suscribe(7, 2);
    writer.close();
    writer.close();
    assert_eq!(writer.doc_freq(), 1);
    let mut sink = BufferSerializer::new();
    let r: Result<(), ()> = writer.serialize(&mut sink);
    assert!(r.is_ok());
    assert_eq!(sink.log, vec![LoggedEvent::DocRecord { doc: 7, term_freq: 1, deltas: vec![2] }]);
}

#[test]
fn unclosed_term_still_serialized_after_table_close() {
    let mut table: PostingsWriter<VecRecorder, VecRecorder> = PostingsWriter::new();
    table.suscribe(4, 9, term(b"lone"));
    // no per-term close here: the table-level close must flush it
    table.close();
    let mut sink = BufferSerializer::new();
    let r: Result<(), ()> = table.serialize(&mut sink);
    assert!(r.is_ok());
    assert_eq!(
        sink.log,
        vec![
            LoggedEvent::TermHeader { term: b"lone".to_vec(), doc_freq: 1 },
            LoggedEvent::DocRecord { doc: 4, term_freq: 1, deltas: vec![9] },
        ]
    );
}

#[test]
fn same_document_occurrences_merge() {
    let mut table: PostingsWriter<VecRecorder, VecRecorder> = PostingsWriter::new();
    table.suscribe(5, 1, term(b"cat"));
    table.suscribe(5, 4, term(b"cat"));
    table.close();
    let mut sink = BufferSerializer::new();
    let r: Result<(), ()> = table.serialize(&mut sink);
    assert!(r.is_ok());
    assert_eq!(
        sink.log,
        vec![
            LoggedEvent::TermHeader { term: b"cat".to_vec(), doc_freq: 1 },
            LoggedEvent::DocRecord { doc: 5, term_freq: 2, deltas: vec![1, 3] },
        ]
    );
}

#[test]
fn doc_freq_counts_distinct_documents() {
    let mut writer: TermPostingsWriter<ObliviousRecorder, ObliviousRecorder> =
        TermPostingsWriter::new();
    writer.suscribe(1, 0);
    writer.suscribe(1, 2);
    writer.suscribe(2, 1);
    writer.suscribe(4, 0);
    writer.suscribe(4, 7);
    writer.close();
    assert_eq!(writer.doc_freq(), 3);
}

#[test]
fn failing_sink_aborts_serialization() {
    let mut table: PostingsWriter<VecRecorder, VecRecorder> = PostingsWriter::new();
    table.suscribe(1, 0, term(b"alpha"));
    table.suscribe(2, 0, term(b"beta"));
    table.close();
    let mut sink = FailingSerializer::new(1);
    let r = table.serialize(&mut sink);
    assert!(r.is_err());
    // exactly one event (alpha's header) was accepted before the failure
    assert_eq!(sink.remaining(), 0);
}

#[test]
fn empty_table_serializes_nothing() {
    let table: PostingsWriter<VecRecorder, VecRecorder> = PostingsWriter::new();
    let mut sink = BufferSerializer::new();
    let r: Result<(), ()> = table.serialize(&mut sink);
    assert!(r.is_ok());
    assert!(sink.log.is_empty());
}

#[test]
fn vec_recorder_keeps_values() {
    let mut rec = VecRecorder::new();
    rec.record(10);
    rec.record(20);
    rec.record(30);
    assert_eq!(rec.get(0), 10);
    assert_eq!(rec.get(2), 30);
    assert_eq!(rec.slice(1, 3), vec![20, 30]);
    assert_eq!(rec.slice(1, 1), Vec::<u32>::new());
}

#[test]
fn oblivious_recorder_answers_zero_and_empty() {
    let mut rec = ObliviousRecorder::new();
    rec.record(10);
    rec.record(20);
    assert_eq!(rec.get(0), 0);
    assert_eq!(rec.get(1), 0);
    assert_eq!(rec.slice(0, 2), Vec::<u32>::new());
}

#[test]
fn term_order_is_lexicographic() {
    assert!(term_lt(&term(b"apple"), &term(b"zebra")));
    assert!(!term_lt(&term(b"zebra"), &term(b"apple")));
    assert!(term_lt(&term(b"app"), &term(b"apple")));
    assert!(!term_lt(&term(b"apple"), &term(b"app")));
    assert!(!term_lt(&term(b"apple"), &term(b"apple")));
    assert!(term_lt(&term(b""), &term(b"a")));
    assert!(!term_lt(&term(b""), &term(b"")));
    assert!(term_eq(&term(b"cat"), &term(b"cat")));
    assert!(!term_eq(&term(b"cat"), &term(b"cab")));
}

#[test]
fn first_position_of_new_document_is_raw() {
    // positions 8 then 9 in doc 1, then position 2 in doc 3: doc 3's first
    // delta is 2 itself, not measured against doc 1's last position
    let mut writer: TermPostingsWriter<VecRecorder, VecRecorder> = TermPostingsWriter::new();
    writer.suscribe(1, 8);
    writer.suscribe(1, 9);
    writer.suscribe(3, 2);
    writer.close();
    let mut sink = BufferSerializer::new();
    let r: Result<(), ()> = writer.serialize(&mut sink);
    assert!(r.is_ok());
    assert_eq!(
        sink.log,
        vec![
            LoggedEvent::DocRecord { doc: 1, term_freq: 2, deltas: vec![8, 1] },
            LoggedEvent::DocRecord { doc: 3, term_freq: 1, deltas: vec![2] },
        ]
    );
}
