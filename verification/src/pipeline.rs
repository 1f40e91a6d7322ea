//! The decode-to-encode pipeline: CSV bytes in, JSON array chunks out.
//!
//! [`CsvToJson`] is the streaming form: feed it input chunks as they arrive,
//! transmit the output chunks it returns, and call [`CsvToJson::finish`] at
//! end of input. Its contract ties everything together: on an input that
//! decodes without error, the transmitted chunks concatenate to exactly
//! [`json_array`] of the input's records — one object per data row, in input
//! order, keyed by the header. On an input that fails mid-way, the chunks
//! already returned stand as they were sent: the error surfaces only as a
//! truncated document, never as a rewritten one, because transmitted bytes
//! cannot be recalled. The closing bracket is withheld exactly in that case.
//!
//! [`convert_csv`] is the whole-input form of the same pipeline.

use vstd::prelude::*;

use crate::decode::{
    csv_records, feed_bytes, init_model, lemma_feed_bytes_append, lemma_feed_bytes_opts,
    lemma_feed_bytes_out_prefix, lemma_finish_out_prefix, run_model, CsvDecoder, DecodeError,
    RecordView,
};
use crate::encode::{
    concat_chunks, element_chunk, element_chunks, json_array, lemma_chunks_form_array,
    lemma_concat_chunks_append, JsonArrayEncoder,
};
use crate::options::ParseOptions;

verus! {

/// A byte vector's deep view is its view.
proof fn lemma_bytes_deep_view(v: Vec<u8>)
    ensures
        v.deep_view() == v@,
{
    assert(v.deep_view() =~= v@);
}

/// A chunk list's deep view is its views, element by element.
proof fn lemma_chunk_list_deep_view(cs: Vec<Vec<u8>>)
    ensures
        cs.deep_view().len() == cs@.len(),
        forall|k: int| 0 <= k < cs@.len() ==> #[trigger] cs.deep_view()[k] == cs@[k]@,
{
    assert forall|k: int| 0 <= k < cs@.len() implies #[trigger] cs.deep_view()[k] == cs@[k]@ by {
        lemma_bytes_deep_view(cs@[k]);
    }
}

/// A streaming CSV-to-JSON transcoder for one document. It owns one decoder
/// and one encoder and keeps no other state: memory is bounded by the current
/// row and the chunk being built, never by the document.
pub struct CsvToJson {
    dec: CsvDecoder,
    enc: JsonArrayEncoder,
    fed: Ghost<Seq<u8>>,
    chunks: Ghost<Seq<Seq<u8>>>,
}

impl CsvToJson {
    /// All input bytes fed so far.
    pub closed spec fn consumed(self) -> Seq<u8> {
        self.fed@
    }

    /// All output chunks returned so far.
    pub closed spec fn emitted(self) -> Seq<Seq<u8>> {
        self.chunks@
    }

    /// The configured dialect.
    pub closed spec fn options(self) -> ParseOptions {
        self.dec@.opts
    }

    /// The pipeline's invariant: the decoder stands exactly where the bytes
    /// fed so far put it, every decoded record has been encoded, and the
    /// chunks returned so far are exactly those records' chunks.
    pub closed spec fn wf(self) -> bool {
        &&& self.dec@ == feed_bytes(init_model(self.options()), self.fed@)
        &&& self.enc@ == self.dec@.out
        &&& self.enc.wf()
        &&& self.chunks@ == element_chunks(self.dec@.out)
    }

    /// A fresh pipeline for one document.
    pub fn new(opts: ParseOptions) -> (r: CsvToJson)
        ensures
            r.wf(),
            r.options() == opts,
            r.consumed() == Seq::<u8>::empty(),
            r.emitted() == Seq::<Seq<u8>>::empty(),
    {
        let r = CsvToJson {
            dec: CsvDecoder::new(opts),
            enc: JsonArrayEncoder::new(),
            fed: Ghost(Seq::empty()),
            chunks: Ghost(Seq::empty()),
        };
        proof {
            assert(element_chunks(Seq::<RecordView>::empty()) =~= Seq::<Seq<u8>>::empty());
        }
        r
    }

    /// The error that has ended decoding, if one has. After it, feeding more
    /// input returns no further chunks, and the closing bracket never comes.
    pub fn error(&self) -> (r: Option<DecodeError>)
        requires
            self.wf(),
        ensures
            r == feed_bytes(init_model(self.options()), self.consumed()).err,
    {
        self.dec.error()
    }

    /// Feeds one chunk of input and returns the output chunks it produced:
    /// one per record that completed, each to be transmitted as it is. The
    /// records an erroneous chunk completed before its error still come out —
    /// they were owed to the wire — and nothing after the error does.
    pub fn feed(&mut self, data: &[u8]) -> (out: Vec<Vec<u8>>)
        requires
            old(self).wf(),
        ensures
            final(self).wf(),
            final(self).options() == old(self).options(),
            final(self).consumed() == old(self).consumed() + data@,
            final(self).emitted() == old(self).emitted() + out.deep_view(),
    {
        let ghost m0 = self.dec@;
        let ghost opts = self.options();
        let recs = self.dec.feed(data);
        proof {
            lemma_feed_bytes_append(init_model(opts), self.fed@, data@);
            self.fed@ = self.fed@ + data@;
        }
        let ghost m1 = self.dec@;
        let ghost base = m0.out.len() as int;
        let ghost fed1 = self.fed@;
        proof {
            lemma_feed_bytes_opts(m0, data@);
            lemma_feed_bytes_out_prefix(m0, data@);
            assert(element_chunks(m1.out).take(base) =~= element_chunks(m0.out)) by {
                assert(forall|k: int|
                    0 <= k < base ==> m1.out[k] == #[trigger] m0.out.take(base)[k]);
            }
        }
        let mut out: Vec<Vec<u8>> = Vec::new();
        let mut j: usize = 0;
        assert(self.enc@ =~= m1.out.take(base + 0));
        assert(self.chunks@ =~= element_chunks(m1.out).take(base + 0));
        assert(out.deep_view() =~= element_chunks(m1.out).subrange(base, base + 0));
        while j < recs.len()
            invariant
                0 <= base,
                j <= recs@.len(),
                base + recs@.len() == m1.out.len(),
                forall|k: int|
                    0 <= k < recs@.len() ==> #[trigger] recs@[k]@ == m1.out[base + k],
                self.dec@ == m1,
                self.fed@ == fed1,
                self.options() == opts,
                self.enc.wf(),
                self.enc@ == m1.out.take(base + j),
                self.chunks@ == element_chunks(m1.out).take(base + j),
                out@.len() == j,
                out.deep_view() == element_chunks(m1.out).subrange(base, base + j),
            decreases recs@.len() - j,
        {
            let chunk = self.enc.push(&recs[j]);
            proof {
                assert(element_chunks(m1.out)[base + j] == element_chunk(
                    m1.out[base + j],
                    base + j,
                ));
                self.chunks@ = self.chunks@.push(chunk@);
                assert(self.chunks@ =~= element_chunks(m1.out).take(base + j + 1));
                assert(self.enc@ =~= m1.out.take(base + j + 1));
            }
            let ghost prev = out.deep_view();
            out.push(chunk);
            proof {
                lemma_bytes_deep_view(chunk);
                assert(out.deep_view() =~~= prev.push(chunk@));
                assert(out.deep_view() =~= element_chunks(m1.out).subrange(base, base + j + 1));
            }
            j = j + 1;
        }
        proof {
            assert(self.enc@ =~= m1.out) by {
                assert(m1.out.take(base + recs@.len() as int) =~= m1.out);
            }
            assert(self.chunks@ =~= element_chunks(m1.out)) by {
                assert(element_chunks(m1.out).take(base + recs@.len() as int) =~= element_chunks(
                    m1.out,
                ));
            }
            assert(old(self).chunks@ + out.deep_view() =~= element_chunks(m1.out));
        }
        out
    }

    /// Ends the input and returns the final output chunks. If the whole input
    /// decoded cleanly, these are the chunk of a still-pending last row, if
    /// any, and the closing chunks, and everything transmitted — the chunks
    /// of every earlier [`feed`] and these — concatenates to exactly the JSON
    /// array of the input's records. If decoding failed, now or earlier, no
    /// closing bracket is returned: the error reaches the consumer as a
    /// truncated document.
    ///
    /// [`feed`]: CsvToJson::feed
    pub fn finish(self) -> (r: (Vec<Vec<u8>>, Option<DecodeError>))
        requires
            self.wf(),
        ensures
            ({
                let m = run_model(self.consumed(), self.options());
                match r.1 {
                    None => m.err is None && concat_chunks(self.emitted() + r.0.deep_view())
                        == json_array(m.out),
                    Some(e) => m.err == Some(e) && r.0@.len() == 0,
                }
            }),
    {
        let mut this = self;
        let ghost emitted0 = this.chunks@;
        let ghost m1 = this.dec@;
        let rec = this.dec.finish();
        let ghost m2 = this.dec@;
        proof {
            lemma_finish_out_prefix(m1);
        }
        let mut out: Vec<Vec<u8>> = Vec::new();
        if let Some(r0) = &rec {
            let chunk = this.enc.push(r0);
            let ghost prev = out.deep_view();
            out.push(chunk);
            proof {
                lemma_bytes_deep_view(chunk);
                assert(out.deep_view() =~~= prev.push(chunk@));
            }
        }
        proof {
            assert(this.enc@ == m2.out);
            assert(emitted0 =~= element_chunks(m2.out).take(m1.out.len() as int)) by {
                assert(forall|k: int|
                    0 <= k < m1.out.len() ==> m1.out[k] == #[trigger] m2.out.take(
                        m1.out.len() as int,
                    )[k]);
            }
        }
        match this.dec.error() {
            Some(e) => {
                assert(m2.err == Some(e));
                assert(out@.len() == 0);
                (out, Some(e))
            },
            None => {
                let mut closes = this.enc.close();
                let ghost prev = out.deep_view();
                let ghost closed = closes.deep_view();
                out.append(&mut closes);
                proof {
                    lemma_chunk_list_deep_view(out);
                    assert(out.deep_view() =~~= prev + closed);
                    lemma_chunks_form_array(m2.out);
                    assert(prev =~~= element_chunks(m2.out).skip(m1.out.len() as int)) by {
                        if rec is Some {
                            assert(element_chunks(m2.out)[m2.out.len() - 1] == element_chunk(
                                m2.out[m2.out.len() - 1],
                                m2.out.len() - 1,
                            ));
                        }
                    }
                    assert(emitted0 + (prev + closed) =~~= element_chunks(m2.out)
                        + crate::encode::close_chunks(m2.out.len()));
                }
                (out, None)
            },
        }
    }
}

/// Converts one whole CSV document to one whole JSON document: exactly the
/// bytes the streaming pipeline would transmit for it, gathered in one
/// buffer. Returns the array on success; on a decode failure, the error.
pub fn convert_csv(input: &[u8], opts: ParseOptions) -> (r: Result<Vec<u8>, DecodeError>)
    ensures
        match r {
            Ok(out) => csv_records(input@, opts) matches Ok(rs) && out@ == json_array(rs),
            Err(e) => (csv_records(input@, opts) matches Err(e2) && e == e2),
        },
{
    let mut pipe = CsvToJson::new(opts);
    let head = pipe.feed(input);
    proof {
        assert(Seq::<u8>::empty() + input@ =~= input@);
        assert(Seq::<Seq<u8>>::empty() + head.deep_view() =~= head.deep_view());
    }
    let ghost consumed = pipe.consumed();
    let ghost emitted = pipe.emitted();
    let (tail, err) = pipe.finish();
    proof {
        assert(consumed == input@);
        assert(emitted == head.deep_view());
    }
    match err {
        Some(e) => Err(e),
        None => {
            let mut buf: Vec<u8> = Vec::new();
            append_chunks(&mut buf, &head);
            append_chunks(&mut buf, &tail);
            proof {
                lemma_concat_chunks_append(head.deep_view(), tail.deep_view());
                assert(emitted + tail.deep_view() =~= head.deep_view() + tail.deep_view());
                assert(buf@ =~= concat_chunks(head.deep_view()) + concat_chunks(tail.deep_view()));
            }
            Ok(buf)
        },
    }
}

/// Appends every chunk's bytes to the buffer, in order.
fn append_chunks(buf: &mut Vec<u8>, chunks: &Vec<Vec<u8>>)
    ensures
        final(buf)@ == old(buf)@ + concat_chunks(chunks.deep_view()),
{
    let ghost dv = chunks.deep_view();
    proof {
        lemma_chunk_list_deep_view(*chunks);
    }
    let mut i: usize = 0;
    assert(buf@ =~= old(buf)@ + concat_chunks(dv.take(0))) by {
        assert(dv.take(0) =~= Seq::<Seq<u8>>::empty());
    }
    while i < chunks.len()
        invariant
            i <= chunks@.len(),
            dv == chunks.deep_view(),
            dv.len() == chunks@.len(),
            forall|k: int| 0 <= k < dv.len() ==> #[trigger] dv[k] == chunks@[k]@,
            buf@ == old(buf)@ + concat_chunks(dv.take(i as int)),
        decreases chunks@.len() - i,
    {
        let chunk = &chunks[i];
        let mut k: usize = 0;
        let ghost mid = buf@;
        while k < chunk.len()
            invariant
                k <= chunk@.len(),
                buf@ == mid + chunk@.take(k as int),
            decreases chunk@.len() - k,
        {
            buf.push(chunk[k]);
            assert(buf@ =~= mid + chunk@.take(k + 1));
            k = k + 1;
        }
        proof {
            assert(chunk@.take(chunk@.len() as int) =~= chunk@);
            let t = dv.take(i + 1);
            assert(t.drop_last() =~= dv.take(i as int));
            assert(t.last() == dv[i as int]);
            assert(concat_chunks(t) == concat_chunks(dv.take(i as int)) + dv[i as int]);
            assert(buf@ =~= old(buf)@ + concat_chunks(dv.take(i + 1)));
        }
        i = i + 1;
    }
    assert(dv.take(dv.len() as int) =~= dv);
}

/// Converting the same input twice — a retried request, say — yields
/// byte-identical output: `convert_csv`'s contract pins a successful result
/// to the one value `json_array` gives for the input's records, so two
/// successful conversions can return nothing else.
pub proof fn lemma_conversion_deterministic(
    input: Seq<u8>,
    opts: ParseOptions,
    out1: Seq<u8>,
    out2: Seq<u8>,
)
    requires
        out1 == json_array(run_model(input, opts).out),
        out2 == json_array(run_model(input, opts).out),
    ensures
        out1 == out2,
{
}

/// An input with no bytes at all decodes to no records, and no records encode
/// to exactly the two bytes `[]`; with `convert_csv`'s contract, an input
/// whose decode yields no records — none at all, or only a header row —
/// converts to exactly those two bytes.
pub proof fn lemma_empty_input_empty_array(opts: ParseOptions)
    ensures
        csv_records(Seq::<u8>::empty(), opts) == Ok::<Seq<RecordView>, DecodeError>(Seq::empty()),
        forall|rs: Seq<RecordView>| rs.len() == 0 ==> #[trigger] json_array(rs) == seq![0x5bu8, 0x5du8],
{
    assert(feed_bytes(init_model(opts), Seq::<u8>::empty()) == init_model(opts));
    assert(run_model(Seq::<u8>::empty(), opts) == init_model(opts));
    assert forall|rs: Seq<RecordView>| rs.len() == 0 implies #[trigger] json_array(rs) == seq![
        0x5bu8,
        0x5du8,
    ] by {
        assert(json_array(rs) =~= seq![0x5bu8, 0x5du8]);
    }
}

} // verus!
