//! Properties of the stream as a whole, over the model in `stream`.

use crate::decoder::{split_docs, DocView};
use crate::stream::{
    chunk_step, end_step, initial_state, lemma_run_events_append, lemma_run_one, run_events, stream_items, take_docs, ChunkView,
    ItemView, StreamState,
};
use crate::watch::{watch_parse, ParseKind};
use vstd::prelude::*;

verus! {

/// Once the stream has ended, for whatever reason, nothing more comes out of
/// it: no chunk, read error or end of body yields an element or changes the
/// state.
pub proof fn lemma_exhaustion_is_idempotent(s: StreamState, es: Seq<ChunkView>)
    requires
        s.terminated,
    ensures
        run_events(s, es) == (Seq::<ItemView>::empty(), s),
        end_step(s) == (Seq::<ItemView>::empty(), s),
    decreases es.len(),
{
    if es.len() > 0 {
        lemma_exhaustion_is_idempotent(s, es.drop_first());
        assert(Seq::<ItemView>::empty() + Seq::<ItemView>::empty() == Seq::<ItemView>::empty());
    }
}

/// A read error ends the stream: after the elements of the chunks before it
/// comes exactly one reading error, and nothing after that.
pub proof fn lemma_read_error_ends_stream(pre: Seq<ChunkView>, post: Seq<ChunkView>)
    requires
        !run_events(initial_state(), pre).1.terminated,
    ensures
        stream_items(pre + seq![None::<Seq<u8>>] + post) == run_events(initial_state(), pre).0 + seq![ItemView::Reading],
{
    let r = run_events(initial_state(), pre);
    let failed = StreamState { pending: r.1.pending, terminated: true };
    lemma_run_events_append(initial_state(), pre, seq![None::<Seq<u8>>]);
    lemma_run_events_append(initial_state(), pre + seq![None::<Seq<u8>>], post);
    lemma_run_one(r.1, None);
    lemma_exhaustion_is_idempotent(failed, post);
    assert(seq![ItemView::Reading] + Seq::<ItemView>::empty() == seq![ItemView::Reading]);
    assert(r.0 + seq![ItemView::Reading] + Seq::<ItemView>::empty() + Seq::<ItemView>::empty()
        == r.0 + seq![ItemView::Reading]);
}

/// A chunk whose bytes, after those still buffered, are not valid JSON ends
/// the stream with a parsing error, and nothing comes after it.
pub proof fn lemma_parse_error_ends_stream(pre: Seq<ChunkView>, chunk: Seq<u8>, post: Seq<ChunkView>)
    requires
        !run_events(initial_state(), pre).1.terminated,
        chunk.len() > 0,
        watch_parse(run_events(initial_state(), pre).1.pending + chunk) == (ParseKind::Malformed { data: false }),
    ensures
        stream_items(pre + seq![Some(chunk)] + post) == run_events(initial_state(), pre).0 + seq![
            ItemView::Parsing(run_events(initial_state(), pre).1.pending + chunk),
        ],
{
    let r = run_events(initial_state(), pre);
    let failed = StreamState { pending: Seq::empty(), terminated: true };
    let input = r.1.pending + chunk;
    let docs = split_docs(input).0;
    assert(docs == seq![DocView::Failed(false, input)]);
    assert(take_docs(docs) == (seq![ItemView::Parsing(input)], true));
    assert(chunk_step(r.1, chunk) == (seq![ItemView::Parsing(input)], failed));
    lemma_run_events_append(initial_state(), pre, seq![Some(chunk)]);
    lemma_run_events_append(initial_state(), pre + seq![Some(chunk)], post);
    lemma_run_one(r.1, Some(chunk));
    lemma_exhaustion_is_idempotent(failed, post);
    assert(seq![ItemView::Parsing(input)] + Seq::<ItemView>::empty() == seq![ItemView::Parsing(input)]);
    assert(r.0 + seq![ItemView::Parsing(input)] + Seq::<ItemView>::empty() + Seq::<ItemView>::empty()
        == r.0 + seq![ItemView::Parsing(input)]);
}

/// A body that is only the start of a document, with nothing after it,
/// ends with one error that carries exactly those bytes.
pub proof fn lemma_truncated_body_reports_residue(chunk: Seq<u8>)
    requires
        chunk.len() > 0,
        watch_parse(chunk) == ParseKind::Incomplete,
    ensures
        stream_items(seq![Some(chunk)]) == seq![ItemView::Unparsed(chunk)],
{
    let s = initial_state();
    assert(s.pending + chunk == chunk);
    let after = StreamState { pending: chunk, terminated: false };
    assert(take_docs(Seq::<DocView>::empty()) == (Seq::<ItemView>::empty(), false));
    assert(chunk_step(s, chunk) == (Seq::<ItemView>::empty(), after));
    lemma_run_one(s, Some(chunk));
    assert(Seq::<ItemView>::empty() + seq![ItemView::Unparsed(chunk)] == seq![ItemView::Unparsed(chunk)]);
}

/// A first chunk that is well-formed JSON of the wrong shape (the bare `null`
/// that the server sends in place of closing the watch) ends the stream
/// cleanly: no element at all, whatever follows, and no check of the bytes
/// left over.
pub proof fn lemma_null_document_ends_stream_silently(chunk: Seq<u8>, post: Seq<ChunkView>)
    requires
        chunk.len() > 0,
        watch_parse(chunk) == (ParseKind::Malformed { data: true }),
    ensures
        stream_items(seq![Some(chunk)] + post) == Seq::<ItemView>::empty(),
{
    let s = initial_state();
    assert(s.pending + chunk == chunk);
    let done = StreamState { pending: Seq::empty(), terminated: true };
    assert(split_docs(chunk).0 == seq![DocView::Failed(true, chunk)]);
    assert(seq![DocView::Failed(true, chunk)][0] == DocView::Failed(true, chunk));
    assert(take_docs(seq![DocView::Failed(true, chunk)]) == (Seq::<ItemView>::empty(), true));
    assert(chunk_step(s, chunk) == (Seq::<ItemView>::empty(), done));
    lemma_run_events_append(s, seq![Some(chunk)], post);
    lemma_run_one(s, Some(chunk));
    lemma_exhaustion_is_idempotent(done, post);
    assert(Seq::<ItemView>::empty() + Seq::<ItemView>::empty() + Seq::<ItemView>::empty()
        == Seq::<ItemView>::empty());
}

/// A document split across two chunks, so that its first part alone is an
/// unfinished document, decodes as the same document sent in one chunk.
pub proof fn lemma_split_document(a: Seq<u8>, b: Seq<u8>, post: Seq<ChunkView>)
    requires
        watch_parse(a) == ParseKind::Incomplete,
    ensures
        stream_items(seq![Some(a), Some(b)] + post) == stream_items(seq![Some(a + b)] + post),
{
    let s = initial_state();
    assert(s.pending + a == a);
    assert(s.pending + (a + b) == a + b);
    let mid = StreamState { pending: a, terminated: false };
    assert(take_docs(Seq::<DocView>::empty()) == (Seq::<ItemView>::empty(), false));
    assert(chunk_step(s, a) == (Seq::<ItemView>::empty(), mid));
    assert(chunk_step(mid, b) == chunk_step(s, a + b));
    let two = seq![Some(a), Some(b)];
    let one = seq![Some(a + b)];
    lemma_run_events_append(s, two, post);
    lemma_run_events_append(s, one, post);
    assert(two.drop_first() == seq![Some(b)]);
    let c = chunk_step(s, a + b);
    lemma_run_one(mid, Some(b));
    lemma_run_one(s, Some(a + b));
    assert(two[0] == Some(a));
    assert(run_events(s, two) == (Seq::<ItemView>::empty() + c.0, c.1));
    assert(Seq::<ItemView>::empty() + c.0 == c.0);
}

/// Documents laid end to end in one buffer, each of which parses whole where
/// it starts, come out of one decoding call as one record each, in the order
/// in which they stand, before whatever the bytes after them give.
pub proof fn lemma_documents_in_order(docs: Seq<Seq<u8>>, tail: Seq<u8>)
    requires
        forall|i: int|
            0 <= i < docs.len() ==> #[trigger] docs[i].len() > 0 && watch_parse(
                docs.subrange(i, docs.len() as int).flatten() + tail,
            ) == ParseKind::Complete(docs[i].len()),
    ensures
        split_docs(docs.flatten() + tail) == (
            docs.map_values(|d: Seq<u8>| DocView::Record(d)) + split_docs(tail).0,
            split_docs(tail).1,
        ),
    decreases docs.len(),
{
    let records = docs.map_values(|d: Seq<u8>| DocView::Record(d));
    if docs.len() == 0 {
        assert(docs.flatten() + tail == tail);
        assert(records + split_docs(tail).0 == split_docs(tail).0);
    } else {
        let rest = docs.drop_first();
        let buf = docs.flatten() + tail;
        let n = docs[0].len();
        assert(docs.subrange(0, docs.len() as int) == docs);
        assert(watch_parse(buf) == ParseKind::Complete(n));
        assert(buf.subrange(0, n as int) == docs[0]);
        assert(buf.subrange(n as int, buf.len() as int) == rest.flatten() + tail);
        assert forall|i: int| 0 <= i < rest.len() implies #[trigger] rest[i].len() > 0 && watch_parse(
            rest.subrange(i, rest.len() as int).flatten() + tail,
        ) == ParseKind::Complete(rest[i].len()) by {
            assert(rest[i] == docs[i + 1]);
            assert(rest.subrange(i, rest.len() as int) == docs.subrange(i + 1, docs.len() as int));
        }
        lemma_documents_in_order(rest, tail);
        let rest_records = rest.map_values(|d: Seq<u8>| DocView::Record(d));
        assert(records == seq![DocView::Record(docs[0])] + rest_records);
        assert(seq![DocView::Record(docs[0])] + (rest_records + split_docs(tail).0)
            == records + split_docs(tail).0);
    }
}

proof fn lemma_take_records(docs: Seq<Seq<u8>>)
    ensures
        take_docs(docs.map_values(|d: Seq<u8>| DocView::Record(d))) == (
            docs.map_values(|d: Seq<u8>| ItemView::Record(d)),
            false,
        ),
    decreases docs.len(),
{
    let m = docs.map_values(|d: Seq<u8>| DocView::Record(d));
    let items = docs.map_values(|d: Seq<u8>| ItemView::Record(d));
    if docs.len() == 0 {
        assert(items == Seq::<ItemView>::empty());
    } else {
        let rest = docs.drop_first();
        assert(m[0] == DocView::Record(docs[0]));
        assert(m.drop_first() == rest.map_values(|d: Seq<u8>| DocView::Record(d)));
        lemma_take_records(rest);
        assert(items == seq![ItemView::Record(docs[0])] + rest.map_values(|d: Seq<u8>| ItemView::Record(d)));
    }
}

/// A body of one chunk made of whole documents laid end to end yields one
/// record per document, in the order in which they stand, and then ends
/// without an error.
pub proof fn lemma_whole_documents_in_one_chunk(docs: Seq<Seq<u8>>)
    requires
        forall|i: int|
            0 <= i < docs.len() ==> #[trigger] docs[i].len() > 0 && watch_parse(
                docs.subrange(i, docs.len() as int).flatten(),
            ) == ParseKind::Complete(docs[i].len()),
    ensures
        stream_items(seq![Some(docs.flatten())]) == docs.map_values(|d: Seq<u8>| ItemView::Record(d)),
{
    let none = Seq::<u8>::empty();
    assert forall|i: int| 0 <= i < docs.len() implies #[trigger] docs[i].len() > 0 && watch_parse(
        docs.subrange(i, docs.len() as int).flatten() + none,
    ) == ParseKind::Complete(docs[i].len()) by {
        assert(docs.subrange(i, docs.len() as int).flatten() + none == docs.subrange(i, docs.len() as int).flatten());
    }
    lemma_documents_in_order(docs, none);
    assert(docs.flatten() + none == docs.flatten());
    let m = docs.map_values(|d: Seq<u8>| DocView::Record(d));
    assert(m + Seq::<DocView>::empty() == m);
    lemma_take_records(docs);
    let s = initial_state();
    assert(s.pending + docs.flatten() == docs.flatten());
    let after = StreamState { pending: none, terminated: false };
    let items = docs.map_values(|d: Seq<u8>| ItemView::Record(d));
    assert(chunk_step(s, docs.flatten()) == (items, after));
    lemma_run_one(s, Some(docs.flatten()));
    assert(items + Seq::<ItemView>::empty() == items);
}

/// The bytes of the records among `items`, laid end to end.
pub open spec fn record_bytes(items: Seq<ItemView>) -> Seq<u8>
    decreases items.len(),
{
    if items.len() == 0 {
        Seq::empty()
    } else {
        match items[0] {
            ItemView::Record(b) => b + record_bytes(items.drop_first()),
            _ => record_bytes(items.drop_first()),
        }
    }
}

pub open spec fn all_records(items: Seq<ItemView>) -> bool {
    forall|i: int| 0 <= i < items.len() ==> #[trigger] items[i] is Record
}

proof fn lemma_record_bytes_append(a: Seq<ItemView>, b: Seq<ItemView>)
    ensures
        record_bytes(a + b) == record_bytes(a) + record_bytes(b),
    decreases a.len(),
{
    if a.len() == 0 {
        assert(a + b == b);
        assert(Seq::<u8>::empty() + record_bytes(b) == record_bytes(b));
    } else {
        assert((a + b)[0] == a[0]);
        assert((a + b).drop_first() == a.drop_first() + b);
        lemma_record_bytes_append(a.drop_first(), b);
        match a[0] {
            ItemView::Record(x) => {
                assert(x + (record_bytes(a.drop_first()) + record_bytes(b))
                    == (x + record_bytes(a.drop_first())) + record_bytes(b));
            },
            _ => {},
        }
    }
}

/// Where decoding a buffer does not end the stream, the records that come
/// out, followed by the bytes kept, are the buffer.
proof fn lemma_decoding_keeps_bytes(buf: Seq<u8>)
    ensures
        !take_docs(split_docs(buf).0).1 ==> record_bytes(take_docs(split_docs(buf).0).0) + split_docs(buf).1
            == buf && all_records(take_docs(split_docs(buf).0).0),
    decreases buf.len(),
{
    let docs = split_docs(buf).0;
    if buf.len() == 0 {
        assert(Seq::<u8>::empty() + buf == buf);
    } else {
        match watch_parse(buf) {
            ParseKind::Complete(n) => {
                if 0 < n <= buf.len() {
                    let rest = buf.subrange(n as int, buf.len() as int);
                    let b = buf.subrange(0, n as int);
                    lemma_decoding_keeps_bytes(rest);
                    let inner = take_docs(split_docs(rest).0);
                    assert(docs[0] == DocView::Record(b));
                    assert(docs.drop_first() == split_docs(rest).0);
                    let items = take_docs(docs).0;
                    assert(items == seq![ItemView::Record(b)] + inner.0);
                    assert(items[0] == ItemView::Record(b));
                    assert(items.drop_first() == inner.0);
                    if !inner.1 {
                        assert(b + (record_bytes(inner.0) + split_docs(rest).1) == buf);
                        assert forall|i: int| 0 <= i < items.len() implies #[trigger] items[i] is Record by {
                            if i > 0 {
                                assert(items[i] == inner.0[i - 1]);
                            }
                        }
                    }
                } else {
                    assert(Seq::<u8>::empty() + buf == buf);
                }
            },
            ParseKind::Incomplete => {
                assert(Seq::<u8>::empty() + buf == buf);
            },
            ParseKind::Malformed { data } => {
                assert(docs[0] == DocView::Failed(data, buf));
            },
        }
    }
}

/// Records come out in the order of their documents in the body: as long as
/// the stream has not ended, every element is a record, and the records'
/// bytes, laid end to end and followed by the bytes still buffered, are the
/// bytes received after those buffered at the start.
pub proof fn lemma_order_preserved(s: StreamState, chunks: Seq<Seq<u8>>)
    requires
        !run_events(s, chunks.map_values(|c: Seq<u8>| Some(c))).1.terminated,
    ensures
        ({
            let run = run_events(s, chunks.map_values(|c: Seq<u8>| Some(c)));
            record_bytes(run.0) + run.1.pending == s.pending + chunks.flatten() && all_records(run.0)
        }),
    decreases chunks.len(),
{
    let es = chunks.map_values(|c: Seq<u8>| Some(c));
    if chunks.len() == 0 {
        assert(s.pending + Seq::<u8>::empty() == s.pending);
        assert(Seq::<u8>::empty() + s.pending == s.pending);
    } else {
        if s.terminated {
            lemma_exhaustion_is_idempotent(s, es);
        }
        let c = chunks[0];
        assert(es[0] == Some(c));
        let rest = chunks.drop_first();
        assert(es.drop_first() == rest.map_values(|c: Seq<u8>| Some(c)));
        let step = chunk_step(s, c);
        if step.1.terminated {
            lemma_exhaustion_is_idempotent(step.1, es.drop_first());
        }
        lemma_decoding_keeps_bytes(s.pending + c);
        lemma_order_preserved(step.1, rest);
        let tail = run_events(step.1, es.drop_first());
        lemma_record_bytes_append(step.0, tail.0);
        assert(record_bytes(step.0) + (record_bytes(tail.0) + tail.1.pending)
            == (record_bytes(step.0) + record_bytes(tail.0)) + tail.1.pending);
        assert((s.pending + c) + rest.flatten() == s.pending + (c + rest.flatten()));
        assert(record_bytes(step.0) + step.1.pending == s.pending + c);
        assert(record_bytes(step.0) + (step.1.pending + rest.flatten())
            == (record_bytes(step.0) + step.1.pending) + rest.flatten());
        let all = step.0 + tail.0;
        assert forall|i: int| 0 <= i < all.len() implies #[trigger] all[i] is Record by {
            if i < step.0.len() {
                assert(all[i] == step.0[i]);
            } else {
                assert(all[i] == tail.0[i - step.0.len()]);
            }
        }
    }
}

} // verus!
