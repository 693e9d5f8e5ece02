//! The stream adaptor: feeds body chunks to the decoder and turns what comes
//! out into a sequence of records and terminal errors.

use crate::decoder::{outcome_matches, outcomes_match, split_docs, DocView, MultiResponseDecoder, Outcome};
use crate::watch::{ParseFailure, Record};
use vstd::prelude::*;

verus! {

/// Errors that end the stream.
#[allow(inconsistent_fields)]
pub enum Error<ReadError> {
    /// Reading a chunk of the body failed.
    Reading { source: ReadError },
    /// A document of the body could not be parsed.
    Parsing { source: ParseFailure },
    /// The body ended inside a document: these bytes were never parsed.
    UnparsedDataUponCompletion { data: Vec<u8> },
}

/// One element of the stream, as a plain value.
pub enum ItemView {
    Record(Seq<u8>),
    Reading,
    Parsing(Seq<u8>),
    Unparsed(Seq<u8>),
}

pub open spec fn item_matches<E>(r: Result<Record, Error<E>>, v: ItemView) -> bool {
    match (r, v) {
        (Ok(r), ItemView::Record(b)) => r.doc() == b,
        (Err(Error::Reading { .. }), ItemView::Reading) => true,
        (Err(Error::Parsing { source }), ItemView::Parsing(b)) => source.input() == b,
        (Err(Error::UnparsedDataUponCompletion { data }), ItemView::Unparsed(d)) => data@ == d,
        _ => false,
    }
}

pub open spec fn items_match<E>(rs: Seq<Result<Record, Error<E>>>, vs: Seq<ItemView>) -> bool {
    rs.len() == vs.len() && forall|i: int| 0 <= i < rs.len() ==> item_matches(#[trigger] rs[i], vs[i])
}

/// Every element but the last is a record: an error ends the stream.
pub open spec fn errors_only_last<E>(rs: Seq<Result<Record, Error<E>>>) -> bool {
    forall|k: int| 0 <= k < rs.len() - 1 ==> #[trigger] rs[k] is Ok
}

/// The elements in an optional element.
pub open spec fn option_seq<A>(o: Option<A>) -> Seq<A> {
    match o {
        Some(a) => seq![a],
        None => Seq::empty(),
    }
}

/// The elements yielded for the parsed documents `docs`, and whether they
/// end the stream. A record is yielded as it is; the first failure ends the
/// stream, silently where it is JSON of the wrong shape (the server's way of
/// sending a bare `null` instead of closing), with a parsing error otherwise.
pub open spec fn take_docs(docs: Seq<DocView>) -> (Seq<ItemView>, bool)
    decreases docs.len(),
{
    if docs.len() == 0 {
        (Seq::empty(), false)
    } else {
        match docs[0] {
            DocView::Record(b) => {
                let rest = take_docs(docs.drop_first());
                (seq![ItemView::Record(b)] + rest.0, rest.1)
            },
            DocView::Failed(data, input) => if data {
                (Seq::empty(), true)
            } else {
                (seq![ItemView::Parsing(input)], true)
            },
        }
    }
}

/// The adaptor's state: the decoder's buffered bytes, and whether the stream
/// has ended.
pub struct StreamState {
    pub pending: Seq<u8>,
    pub terminated: bool,
}

pub open spec fn initial_state() -> StreamState {
    StreamState { pending: Seq::empty(), terminated: false }
}

/// What the body source hands over: a chunk, or `None` for a read error.
pub type ChunkView = Option<Seq<u8>>;

pub open spec fn chunk_step(s: StreamState, chunk: Seq<u8>) -> (Seq<ItemView>, StreamState) {
    if s.terminated {
        (Seq::empty(), s)
    } else {
        let (docs, rest) = split_docs(s.pending + chunk);
        let (items, stop) = take_docs(docs);
        (items, StreamState { pending: rest, terminated: stop })
    }
}

pub open spec fn read_error_step(s: StreamState) -> (Seq<ItemView>, StreamState) {
    if s.terminated {
        (Seq::empty(), s)
    } else {
        (seq![ItemView::Reading], StreamState { pending: s.pending, terminated: true })
    }
}

pub open spec fn end_step(s: StreamState) -> (Seq<ItemView>, StreamState) {
    if s.terminated {
        (Seq::empty(), s)
    } else if s.pending.len() == 0 {
        (Seq::empty(), StreamState { pending: Seq::empty(), terminated: true })
    } else {
        (seq![ItemView::Unparsed(s.pending)], StreamState { pending: Seq::empty(), terminated: true })
    }
}

pub open spec fn event_step(s: StreamState, e: ChunkView) -> (Seq<ItemView>, StreamState) {
    match e {
        Some(chunk) => chunk_step(s, chunk),
        None => read_error_step(s),
    }
}

/// The elements yielded for the events `es` from state `s`, and the state after.
pub open spec fn run_events(s: StreamState, es: Seq<ChunkView>) -> (Seq<ItemView>, StreamState)
    decreases es.len(),
{
    if es.len() == 0 {
        (Seq::empty(), s)
    } else {
        let first = event_step(s, es[0]);
        let rest = run_events(first.1, es.drop_first());
        (first.0 + rest.0, rest.1)
    }
}

/// The whole stream for a body that hands over the events `es` and then ends.
pub open spec fn stream_items(es: Seq<ChunkView>) -> Seq<ItemView> {
    let run = run_events(initial_state(), es);
    run.0 + end_step(run.1).0
}

pub open spec fn chunk_view<E>(c: Result<Vec<u8>, E>) -> ChunkView {
    match c {
        Ok(v) => Some(v@),
        Err(_) => None,
    }
}

/// Drives a decoder over the chunks of a body, one event at a time.
pub struct BodyStream {
    decoder: MultiResponseDecoder,
    terminated: bool,
}

impl View for BodyStream {
    type V = StreamState;

    closed spec fn view(&self) -> StreamState {
        StreamState { pending: self.decoder@, terminated: self.terminated }
    }
}

impl BodyStream {
    pub fn new() -> (r: Self)
        ensures
            r@ == initial_state(),
    {
        BodyStream { decoder: MultiResponseDecoder::new(), terminated: false }
    }

    pub fn is_terminated(&self) -> (r: bool)
        ensures
            r == self@.terminated,
    {
        self.terminated
    }

    /// Feeds one chunk of the body and returns the elements it yields.
    pub fn on_chunk<E>(&mut self, chunk: &[u8]) -> (out: Vec<Result<Record, Error<E>>>)
        ensures
            items_match(out@, chunk_step(old(self)@, chunk@).0),
            final(self)@ == chunk_step(old(self)@, chunk@).1,
            errors_only_last(out@),
            out@.len() > 0 && out@.last() is Err ==> final(self)@.terminated,
            forall|k: int| 0 <= k < out@.len() ==> !(#[trigger] out@[k] matches Err(Error::Reading { .. })),
    {
        let mut out: Vec<Result<Record, Error<E>>> = Vec::new();
        if self.terminated {
            return out;
        }
        let ghost docs = split_docs(old(self)@.pending + chunk@).0;
        let mut outcomes = self.decoder.process_next_chunk(chunk);
        let ghost all = outcomes@;
        let ghost mut i: int = 0;
        let ghost mut taken: Seq<ItemView> = Seq::empty();
        proof {
            assert(take_docs(docs) == (taken + take_docs(docs.subrange(i, docs.len() as int)).0,
                take_docs(docs.subrange(i, docs.len() as int)).1)) by {
                assert(docs.subrange(0, docs.len() as int) == docs);
            }
        }
        loop
            invariant_except_break
                0 <= i <= docs.len(),
                outcomes@.len() == docs.len() - i,
                outcomes@ == all.subrange(i, docs.len() as int),
                take_docs(docs) == (taken + take_docs(docs.subrange(i, docs.len() as int)).0,
                    take_docs(docs.subrange(i, docs.len() as int)).1),
                !self.terminated,
                forall|k: int| 0 <= k < out@.len() ==> #[trigger] out@[k] is Ok,
            invariant
                outcomes_match(all, docs),
                self.decoder@ == split_docs(old(self)@.pending + chunk@).1,
                items_match(out@, taken),
                forall|k: int| 0 <= k < out@.len() ==> !(#[trigger] out@[k] matches Err(Error::Reading { .. })),
            ensures
                items_match(out@, take_docs(docs).0),
                self.terminated == take_docs(docs).1,
                errors_only_last(out@),
                out@.len() > 0 && out@.last() is Err ==> self.terminated,
                forall|k: int| 0 <= k < out@.len() ==> !(#[trigger] out@[k] matches Err(Error::Reading { .. })),
            decreases outcomes@.len(),
        {
            let ghost rest = docs.subrange(i, docs.len() as int);
            let next = if outcomes.len() == 0 { None } else { Some(outcomes.remove(0)) };
            match next {
                None => {
                    proof {
                        assert(rest.len() == 0);
                        assert(taken + Seq::<ItemView>::empty() == taken);
                    }
                    break;
                },
                Some(Outcome::Record(record)) => {
                    proof {
                        assert(outcome_matches(all[i], docs[i]));
                        assert(rest.drop_first() == docs.subrange(i + 1, docs.len() as int));
                        let b = docs[i]->Record_0;
                        assert(taken + take_docs(rest).0 == (taken + seq![ItemView::Record(b)]) + take_docs(rest.drop_first()).0);
                        taken = taken + seq![ItemView::Record(b)];
                        i = i + 1;
                    }
                    out.push(Ok(record));
                },
                Some(Outcome::Failed(failure)) => {
                    proof {
                        assert(outcome_matches(all[i], docs[i]));
                    }
                    self.terminated = true;
                    if !failure.is_data() {
                        let ghost input = failure.input();
                        out.push(Err(Error::Parsing { source: failure }));
                        proof {
                            taken = taken + seq![ItemView::Parsing(input)];
                        }
                    } else {
                        proof {
                            assert(taken + Seq::<ItemView>::empty() == taken);
                        }
                    }
                    break;
                },
            }
        }
        out
    }

    /// Reports that reading the next chunk failed with `source`.
    pub fn on_read_error<E>(&mut self, source: E) -> (r: Option<Result<Record, Error<E>>>)
        ensures
            items_match(option_seq(r), read_error_step(old(self)@).0),
            final(self)@ == read_error_step(old(self)@).1,
            r matches Some(Err(Error::Reading { source: s })) ==> s == source,
    {
        if self.terminated {
            None
        } else {
            self.terminated = true;
            Some(Err(Error::Reading { source }))
        }
    }

    /// Reports that the body has no more chunks; yields the error for the
    /// bytes still buffered, if any.
    pub fn on_end<E>(&mut self) -> (r: Option<Result<Record, Error<E>>>)
        ensures
            items_match(option_seq(r), end_step(old(self)@).0),
            final(self)@ == end_step(old(self)@).1,
    {
        if self.terminated {
            return None;
        }
        self.terminated = true;
        let mut decoder = MultiResponseDecoder::new();
        std::mem::swap(&mut decoder, &mut self.decoder);
        match decoder.finish() {
            Ok(()) => None,
            Err(data) => Some(Err(Error::UnparsedDataUponCompletion { data })),
        }
    }
}

/// Running `a` and then `b` is running `a`, then `b` from where `a` left off.
pub proof fn lemma_run_events_append(s: StreamState, a: Seq<ChunkView>, b: Seq<ChunkView>)
    ensures
        run_events(s, a + b) == ({
            let ra = run_events(s, a);
            let rb = run_events(ra.1, b);
            (ra.0 + rb.0, rb.1)
        }),
    decreases a.len(),
{
    if a.len() == 0 {
        assert(a + b == b);
        assert(Seq::<ItemView>::empty() + run_events(s, b).0 == run_events(s, b).0);
    } else {
        let first = event_step(s, a[0]);
        assert((a + b)[0] == a[0]);
        assert((a + b).drop_first() == a.drop_first() + b);
        lemma_run_events_append(first.1, a.drop_first(), b);
        let ra = run_events(first.1, a.drop_first());
        let rb = run_events(ra.1, b);
        assert(first.0 + (ra.0 + rb.0) == (first.0 + ra.0) + rb.0);
    }
}

/// Running one event is taking one step.
pub proof fn lemma_run_one(s: StreamState, e: ChunkView)
    ensures
        run_events(s, seq![e]) == event_step(s, e),
{
    let f = event_step(s, e);
    assert(seq![e][0] == e);
    assert(seq![e].drop_first() == Seq::<ChunkView>::empty());
    assert(run_events(f.1, Seq::<ChunkView>::empty()) == (Seq::<ItemView>::empty(), f.1));
    assert(f.0 + Seq::<ItemView>::empty() == f.0);
}

/// The error of the first chunk that could not be read, if any.
pub open spec fn first_read_error<E>(cs: Seq<Result<Vec<u8>, E>>) -> Option<E>
    decreases cs.len(),
{
    if cs.len() == 0 {
        None
    } else {
        match cs[0] {
            Err(e) => Some(e),
            Ok(_) => first_read_error(cs.drop_first()),
        }
    }
}

proof fn lemma_first_read_error_push<E>(cs: Seq<Result<Vec<u8>, E>>, c: Result<Vec<u8>, E>)
    ensures
        first_read_error(cs.push(c)) == match first_read_error(cs) {
            Some(e) => Some(e),
            None => match c {
                Err(e) => Some(e),
                Ok(_) => None,
            },
        },
    decreases cs.len(),
{
    assert(cs.push(c)[0] == if cs.len() == 0 { c } else { cs[0] });
    if cs.len() == 0 {
        assert(cs.push(c).drop_first() == Seq::<Result<Vec<u8>, E>>::empty());
        assert(first_read_error(Seq::<Result<Vec<u8>, E>>::empty()) == None::<E>);
        assert(first_read_error(cs) == None::<E>);
    } else {
        assert(cs.push(c).drop_first() == cs.drop_first().push(c));
        lemma_first_read_error_push(cs.drop_first(), c);
    }
}

/// Decodes a whole body, given as its chunks in order (`Err` where reading a
/// chunk failed), into the elements of the stream. A reading error carries
/// the error of the first chunk that could not be read.
pub fn body<E>(chunks: Vec<Result<Vec<u8>, E>>) -> (out: Vec<Result<Record, Error<E>>>)
    ensures
        items_match(out@, stream_items(chunks@.map_values(|c: Result<Vec<u8>, E>| chunk_view(c)))),
        errors_only_last(out@),
        forall|k: int|
            0 <= k < out@.len() ==> (#[trigger] out@[k] matches Err(Error::Reading { source: s })
                ==> first_read_error(chunks@) == Some(s)),
{
    let ghost orig = chunks@;
    let ghost es = chunks@.map_values(|c: Result<Vec<u8>, E>| chunk_view(c));
    let mut chunks = chunks;
    let mut stream = BodyStream::new();
    let mut out: Vec<Result<Record, Error<E>>> = Vec::new();
    let ghost mut i: int = 0;
    proof {
        assert(es.subrange(0, 0) == Seq::<ChunkView>::empty());
        assert(orig.subrange(0, 0) == Seq::<Result<Vec<u8>, E>>::empty());
        assert(orig.subrange(0, orig.len() as int) == orig);
    }
    while chunks.len() > 0
        invariant
            0 <= i <= es.len(),
            es.len() == orig.len(),
            es == orig.map_values(|c: Result<Vec<u8>, E>| chunk_view(c)),
            chunks@ == orig.subrange(i, orig.len() as int),
            items_match(out@, run_events(initial_state(), es.subrange(0, i)).0),
            stream@ == run_events(initial_state(), es.subrange(0, i)).1,
            errors_only_last(out@),
            out@.len() > 0 && out@.last() is Err ==> stream@.terminated,
            first_read_error(orig.subrange(0, i)) is Some ==> stream@.terminated,
            forall|k: int|
                0 <= k < out@.len() ==> (#[trigger] out@[k] matches Err(Error::Reading { source: s })
                    ==> first_read_error(orig.subrange(0, i)) == Some(s)),
        decreases chunks@.len(),
    {
        proof {
            assert(chunks@[0] == orig[i]);
            lemma_run_events_append(initial_state(), es.subrange(0, i), seq![es[i]]);
            lemma_run_one(stream@, es[i]);
            assert(es.subrange(0, i) + seq![es[i]] == es.subrange(0, i + 1));
            lemma_first_read_error_push(orig.subrange(0, i), orig[i]);
            assert(orig.subrange(0, i).push(orig[i]) == orig.subrange(0, i + 1));
        }
        let ghost before = out@;
        let ghost was_terminated = stream@.terminated;
        let mut produced = match chunks.remove(0) {
            Ok(chunk) => {
                let v = stream.on_chunk(chunk.as_slice());
                proof {
                    assert forall|k: int| 0 <= k < v@.len() implies (#[trigger] v@[k] matches Err(Error::Reading { source: s })
                        ==> orig[i] == Err::<Vec<u8>, E>(s)) by {}
                }
                v
            },
            Err(source) => {
                let ghost e = source;
                let mut v: Vec<Result<Record, Error<E>>> = Vec::new();
                match stream.on_read_error(source) {
                    Some(item) => v.push(item),
                    None => {},
                }
                proof {
                    assert forall|k: int| 0 <= k < v@.len() implies (#[trigger] v@[k] matches Err(Error::Reading { source: s })
                        ==> orig[i] == Err::<Vec<u8>, E>(s)) by {
                        assert(k == 0);
                    }
                }
                v
            },
        };
        let ghost p = produced@;
        out.append(&mut produced);
        proof {
            assert(out@ == before + p);
            if was_terminated {
                assert(p.len() == 0);
            }
            assert forall|j: int| 0 <= j < out@.len() implies item_matches(#[trigger] out@[j], run_events(initial_state(), es.subrange(0, i + 1)).0[j]) by {
                if j >= before.len() {
                    assert(out@[j] == p[j - before.len()]);
                }
            }
            assert forall|k: int| 0 <= k < out@.len() - 1 implies #[trigger] out@[k] is Ok by {
                if k < before.len() {
                    assert(out@[k] == before[k]);
                    if p.len() > 0 {
                        assert(k < before.len() - 1 || !(before.last() is Err));
                    }
                } else {
                    assert(out@[k] == p[k - before.len()]);
                }
            }
            if p.len() > 0 {
                assert(out@.last() == p.last());
            }
            assert forall|k: int| 0 <= k < out@.len() implies (#[trigger] out@[k] matches Err(Error::Reading { source: s })
                ==> first_read_error(orig.subrange(0, i + 1)) == Some(s)) by {
                if k < before.len() {
                    assert(out@[k] == before[k]);
                } else {
                    assert(out@[k] == p[k - before.len()]);
                }
            }
            i = i + 1;
        }
    }
    proof {
        assert(es.subrange(0, i) == es);
        assert(orig.subrange(0, i) == orig);
    }
    let ghost before = out@;
    let ghost was_terminated = stream@.terminated;
    let last = stream.on_end();
    let ghost ls = option_seq(last);
    match last {
        Some(item) => out.push(item),
        None => {},
    }
    proof {
        assert forall|j: int| 0 <= j < out@.len() implies item_matches(#[trigger] out@[j], stream_items(es)[j]) by {
            if j < before.len() {
                assert(out@[j] == before[j]);
            } else {
                assert(out@[j] == ls[j - before.len()]);
            }
        }
        assert forall|k: int| 0 <= k < out@.len() - 1 implies #[trigger] out@[k] is Ok by {
            assert(out@[k] == before[k]);
        }
        assert forall|k: int| 0 <= k < out@.len() implies (#[trigger] out@[k] matches Err(Error::Reading { source: s })
            ==> first_read_error(orig) == Some(s)) by {
            if k < before.len() {
                assert(out@[k] == before[k]);
            }
        }
    }
    out
}

} // verus!
