//! An incremental decoder for a byte stream of concatenated JSON documents.
//! Bytes of a document that is not finished yet stay buffered until the
//! next chunk arrives.

use crate::watch::{parse_front, watch_parse, ParseFailure, ParseKind, ParseStep, Record};
use vstd::prelude::*;

verus! {

/// What the decoder makes of one document, as a plain value.
pub enum DocView {
    /// A record was parsed from these bytes.
    Record(Seq<u8>),
    /// The parser failed on these bytes; the flag as in `ParseKind::Malformed`.
    Failed(bool, Seq<u8>),
}

/// The documents parsed off the front of `buf`, in order, and the bytes left
/// buffered after them. Parsing stops at the first unfinished document, which
/// stays buffered, and at the first malformed one, which drops the buffer.
/// An empty buffer holds no document.
pub open spec fn split_docs(buf: Seq<u8>) -> (Seq<DocView>, Seq<u8>)
    decreases buf.len(),
{
    if buf.len() == 0 {
        (Seq::empty(), buf)
    } else {
        match watch_parse(buf) {
            ParseKind::Complete(n) => if 0 < n <= buf.len() {
                let rest = split_docs(buf.subrange(n as int, buf.len() as int));
                (seq![DocView::Record(buf.subrange(0, n as int))] + rest.0, rest.1)
            } else {
                (Seq::empty(), buf)
            },
            ParseKind::Incomplete => (Seq::empty(), buf),
            ParseKind::Malformed { data } => (seq![DocView::Failed(data, buf)], Seq::empty()),
        }
    }
}

/// The result for one document.
pub enum Outcome {
    Record(Record),
    Failed(ParseFailure),
}

/// Whether an outcome is the one that `d` describes.
pub open spec fn outcome_matches(o: Outcome, d: DocView) -> bool {
    match (o, d) {
        (Outcome::Record(r), DocView::Record(b)) => r.doc() == b,
        (Outcome::Failed(f), DocView::Failed(data, input)) => f.data() == data && f.input() == input,
        _ => false,
    }
}

pub open spec fn outcomes_match(os: Seq<Outcome>, ds: Seq<DocView>) -> bool {
    os.len() == ds.len() && forall|i: int| 0 <= i < os.len() ==> outcome_matches(#[trigger] os[i], ds[i])
}

/// Buffers partial documents across chunks and parses whole ones.
pub struct MultiResponseDecoder {
    pending_data: Vec<u8>,
}

impl View for MultiResponseDecoder {
    type V = Seq<u8>;

    /// The bytes received and not yet parsed.
    closed spec fn view(&self) -> Seq<u8> {
        self.pending_data@
    }
}

impl MultiResponseDecoder {
    pub fn new() -> (r: Self)
        ensures
            r@ == Seq::<u8>::empty(),
    {
        MultiResponseDecoder { pending_data: Vec::new() }
    }

    /// Appends `chunk` to the buffered bytes and parses every whole document
    /// at the front, in order.
    pub fn process_next_chunk(&mut self, chunk: &[u8]) -> (out: Vec<Outcome>)
        ensures
            outcomes_match(out@, split_docs(old(self)@ + chunk@).0),
            final(self)@ == split_docs(old(self)@ + chunk@).1,
    {
        let ghost all = old(self)@ + chunk@;
        let mut i: usize = 0;
        while i < chunk.len()
            invariant
                0 <= i <= chunk@.len(),
                self@ == old(self)@ + chunk@.subrange(0, i as int),
            decreases chunk@.len() - i,
        {
            self.pending_data.push(chunk[i]);
            i = i + 1;
        }
        assert(chunk@.subrange(0, chunk@.len() as int) == chunk@);
        let mut out: Vec<Outcome> = Vec::new();
        let ghost mut done: Seq<DocView> = Seq::empty();
        loop
            invariant_except_break
                split_docs(all) == (done + split_docs(self@).0, split_docs(self@).1),
            invariant
                outcomes_match(out@, done),
            ensures
                outcomes_match(out@, split_docs(all).0),
                self@ == split_docs(all).1,
            decreases self@.len(),
        {
            let ghost buf = self@;
            if self.pending_data.len() == 0 {
                assert(done + Seq::<DocView>::empty() == done);
                assert(outcomes_match(out@, split_docs(all).0));
                break;
            }
            match parse_front(self.pending_data.as_slice()) {
                ParseStep::Parsed(record, used) => {
                    let rest = self.pending_data.split_off(used);
                    let ghost doc = self.pending_data@;
                    self.pending_data = rest;
                    proof {
                        assert(split_docs(buf).0 == seq![DocView::Record(doc)] + split_docs(self@).0);
                        assert(done + split_docs(buf).0 == (done + seq![DocView::Record(doc)]) + split_docs(self@).0);
                        done = done + seq![DocView::Record(doc)];
                    }
                    out.push(Outcome::Record(record));
                },
                ParseStep::NeedMoreData => {
                    assert(done + Seq::<DocView>::empty() == done);
                    assert(outcomes_match(out@, split_docs(all).0));
                    break;
                },
                ParseStep::Failed(failure) => {
                    self.pending_data.clear();
                    proof {
                        done = done + seq![DocView::Failed(failure.data(), buf)];
                        assert(split_docs(all).0 == done);
                    }
                    out.push(Outcome::Failed(failure));
                    break;
                },
            }
        }
        out
    }

    /// Ends the input: `Err` with the bytes still buffered, if there are any.
    pub fn finish(self) -> (r: Result<(), Vec<u8>>)
        ensures
            r is Ok <==> self@.len() == 0,
            r matches Err(data) ==> data@ == self@,
    {
        if self.pending_data.len() == 0 {
            Ok(())
        } else {
            Err(self.pending_data)
        }
    }
}

} // verus!
