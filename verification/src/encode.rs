//! Incremental JSON array encoder.
//!
//! The byte format is fixed by the specification functions here: a record
//! becomes one JSON object whose members keep header order ([`json_object`]),
//! and a record sequence becomes one JSON array ([`json_array`]). String
//! contents are escaped byte by byte ([`escape_byte`]): the quote and the
//! backslash get a backslash, the named control characters get their short
//! escapes, every other control byte becomes `\u00XX`, and all other bytes
//! pass through unchanged, so multi-byte UTF-8 sequences are preserved
//! exactly.
//!
//! The executable [`JsonArrayEncoder`] emits one chunk per record: the first
//! chunk carries the opening bracket, every later one starts with the comma
//! that separates it from its predecessor, and the closing bracket comes
//! alone at the end. A chunk therefore never ends in a dangling comma: if the
//! stream is cut after any whole chunk, the output is a truncated but
//! prefix-correct array. [`lemma_chunks_form_array`] proves that the chunks
//! of a full run concatenate to exactly `json_array` of the records pushed.

use vstd::prelude::*;

use crate::decode::{Record, RecordView};

verus! {

/// The ASCII digit or lowercase letter for one hex digit.
pub open spec fn hex_digit(n: u8) -> u8
    recommends
        n < 16,
{
    if n < 10 {
        (0x30 + n) as u8
    } else {
        (0x57 + n) as u8
    }
}

/// How one byte of string content is written inside a JSON string literal.
pub open spec fn escape_byte(b: u8) -> Seq<u8> {
    if b == 0x22 {  // " -> \"
        seq![0x5c, 0x22]
    } else if b == 0x5c {  // \ -> \\
        seq![0x5c, 0x5c]
    } else if b == 0x08 {
        seq![0x5c, 0x62]  // \b
    } else if b == 0x09 {
        seq![0x5c, 0x74]  // \t
    } else if b == 0x0a {
        seq![0x5c, 0x6e]  // \n
    } else if b == 0x0c {
        seq![0x5c, 0x66]  // \f
    } else if b == 0x0d {
        seq![0x5c, 0x72]  // \r
    } else if b < 0x20 {
        seq![0x5c, 0x75, 0x30, 0x30, hex_digit(b / 16), hex_digit(b % 16)]  // \u00XX
    } else {
        seq![b]
    }
}

/// A whole string content, escaped.
pub open spec fn json_escape(s: Seq<u8>) -> Seq<u8>
    decreases s.len(),
{
    if s.len() == 0 {
        Seq::empty()
    } else {
        json_escape(s.drop_last()) + escape_byte(s.last())
    }
}

/// A JSON string literal: quote, escaped content, quote.
pub open spec fn json_string(s: Seq<u8>) -> Seq<u8> {
    seq![0x22] + json_escape(s) + seq![0x22]
}

/// One object member: `"name":"value"`.
pub open spec fn json_member(p: (Seq<u8>, Seq<u8>)) -> Seq<u8> {
    json_string(p.0) + seq![0x3a] + json_string(p.1)
}

/// A record's members, comma-separated, in record (= header) order.
pub open spec fn json_members(r: RecordView) -> Seq<u8>
    decreases r.len(),
{
    if r.len() == 0 {
        Seq::empty()
    } else if r.len() == 1 {
        json_member(r[0])
    } else {
        json_members(r.drop_last()) + seq![0x2c] + json_member(r.last())
    }
}

/// One record as a JSON object.
pub open spec fn json_object(r: RecordView) -> Seq<u8> {
    seq![0x7b] + json_members(r) + seq![0x7d]
}

/// A record sequence's elements, comma-separated, in order.
pub open spec fn json_elements(rs: Seq<RecordView>) -> Seq<u8>
    decreases rs.len(),
{
    if rs.len() == 0 {
        Seq::empty()
    } else if rs.len() == 1 {
        json_object(rs[0])
    } else {
        json_elements(rs.drop_last()) + seq![0x2c] + json_object(rs.last())
    }
}

/// A record sequence as one JSON array. This is the library's whole output
/// format: the transcoder's output bytes are exactly this, applied to the
/// decoded records.
pub open spec fn json_array(rs: Seq<RecordView>) -> Seq<u8> {
    seq![0x5b] + json_elements(rs) + seq![0x5d]
}

/// The chunk emitted for record number `i` (counting from zero): the first
/// record carries the opening bracket, every later one its separating comma.
pub open spec fn element_chunk(r: RecordView, i: int) -> Seq<u8> {
    if i == 0 {
        seq![0x5b] + json_object(r)
    } else {
        seq![0x2c] + json_object(r)
    }
}

/// The chunks emitted for a whole record sequence, one per record.
pub open spec fn element_chunks(rs: Seq<RecordView>) -> Seq<Seq<u8>> {
    Seq::new(rs.len(), |i: int| element_chunk(rs[i], i))
}

/// The chunks that end the stream: the closing bracket, preceded by the
/// opening one if no record ever carried it.
pub open spec fn close_chunks(n: nat) -> Seq<Seq<u8>> {
    if n == 0 {
        seq![seq![0x5b], seq![0x5d]]
    } else {
        seq![seq![0x5d]]
    }
}

/// Chunks concatenated in emission order.
pub open spec fn concat_chunks(cs: Seq<Seq<u8>>) -> Seq<u8>
    decreases cs.len(),
{
    if cs.len() == 0 {
        Seq::empty()
    } else {
        concat_chunks(cs.drop_last()) + cs.last()
    }
}

/// Concatenation distributes over appending chunk lists.
pub proof fn lemma_concat_chunks_append(c1: Seq<Seq<u8>>, c2: Seq<Seq<u8>>)
    ensures
        concat_chunks(c1 + c2) == concat_chunks(c1) + concat_chunks(c2),
    decreases c2.len(),
{
    if c2.len() == 0 {
        assert(c1 + c2 =~= c1);
        assert(concat_chunks(c1) + concat_chunks(c2) =~= concat_chunks(c1));
    } else {
        assert((c1 + c2).drop_last() =~= c1 + c2.drop_last());
        assert((c1 + c2).last() == c2.last());
        lemma_concat_chunks_append(c1, c2.drop_last());
        assert(concat_chunks(c1) + concat_chunks(c2.drop_last()) + c2.last() =~= concat_chunks(c1)
            + concat_chunks(c2));
    }
}

/// The record chunks alone concatenate to the array text without its closing
/// bracket.
proof fn lemma_element_chunks_concat(rs: Seq<RecordView>)
    requires
        rs.len() > 0,
    ensures
        concat_chunks(element_chunks(rs)) == seq![0x5bu8] + json_elements(rs),
    decreases rs.len(),
{
    if rs.len() == 1 {
        assert(element_chunks(rs).drop_last() =~= Seq::<Seq<u8>>::empty());
        assert(element_chunks(rs).last() == element_chunk(rs[0], 0));
        assert(concat_chunks(Seq::<Seq<u8>>::empty()) == Seq::<u8>::empty());
        assert(concat_chunks(element_chunks(rs)) == concat_chunks(element_chunks(rs).drop_last())
            + element_chunks(rs).last());
        assert(concat_chunks(element_chunks(rs)) =~= element_chunk(rs[0], 0));
        assert(element_chunk(rs[0], 0) =~= seq![0x5bu8] + json_elements(rs));
    } else {
        let prefix = rs.drop_last();
        lemma_element_chunks_concat(prefix);
        assert(element_chunks(rs).drop_last() =~= element_chunks(prefix));
        assert(element_chunks(rs).last() == element_chunk(rs.last(), rs.len() - 1));
        assert(concat_chunks(element_chunks(rs)) == concat_chunks(element_chunks(prefix))
            + element_chunk(rs.last(), rs.len() - 1));
        assert(concat_chunks(element_chunks(rs)) =~= seq![0x5bu8] + json_elements(rs));
    }
}

/// The emitted chunks of a complete run — one per record, then the closing
/// chunks — concatenate to exactly the JSON array of the records, however
/// many there were. Together with the decoder's model this is the pipeline's
/// meaning: output chunk boundaries never change the document they spell.
pub proof fn lemma_chunks_form_array(rs: Seq<RecordView>)
    ensures
        concat_chunks(element_chunks(rs) + close_chunks(rs.len())) == json_array(rs),
{
    lemma_concat_chunks_append(element_chunks(rs), close_chunks(rs.len()));
    if rs.len() == 0 {
        assert(element_chunks(rs) =~= Seq::<Seq<u8>>::empty());
        assert(close_chunks(0).drop_last() =~= seq![seq![0x5bu8]]);
        assert(seq![seq![0x5bu8]].drop_last() =~= Seq::<Seq<u8>>::empty());
        assert(concat_chunks(Seq::<Seq<u8>>::empty()) == Seq::<u8>::empty());
        assert(concat_chunks(seq![seq![0x5bu8]]) =~= seq![0x5bu8]);
        assert(concat_chunks(close_chunks(0)) == concat_chunks(close_chunks(0).drop_last())
            + close_chunks(0).last());
        assert(concat_chunks(close_chunks(0)) =~= seq![0x5bu8, 0x5du8]);
        assert(json_array(rs) =~= seq![0x5bu8, 0x5du8]);
        assert(concat_chunks(element_chunks(rs)) == Seq::<u8>::empty());
        assert(concat_chunks(element_chunks(rs)) + concat_chunks(close_chunks(0)) =~= json_array(
            rs,
        ));
    } else {
        lemma_element_chunks_concat(rs);
        assert(close_chunks(rs.len()).drop_last() =~= Seq::<Seq<u8>>::empty());
        assert(close_chunks(rs.len()).last() =~= seq![0x5du8]);
        assert(concat_chunks(Seq::<Seq<u8>>::empty()) == Seq::<u8>::empty());
        assert(concat_chunks(close_chunks(rs.len())) == concat_chunks(
            close_chunks(rs.len()).drop_last(),
        ) + close_chunks(rs.len()).last());
        assert(concat_chunks(close_chunks(rs.len())) =~= seq![0x5du8]);
        assert(concat_chunks(element_chunks(rs)) + concat_chunks(close_chunks(rs.len()))
            =~= json_array(rs));
    }
}

/// Appends `hex_digit(n)` to the buffer.
fn push_hex_digit(buf: &mut Vec<u8>, n: u8)
    requires
        n < 16,
    ensures
        final(buf)@ == old(buf)@.push(hex_digit(n)),
{
    if n < 10 {
        buf.push(0x30 + n);
    } else {
        buf.push(0x57 + n);
    }
}

/// Appends the escaped form of one content byte to the buffer.
fn push_escaped_byte(buf: &mut Vec<u8>, b: u8)
    ensures
        final(buf)@ == old(buf)@ + escape_byte(b),
{
    if b == 0x22 {
        buf.push(0x5c);
        buf.push(0x22);
    } else if b == 0x5c {
        buf.push(0x5c);
        buf.push(0x5c);
    } else if b == 0x08 {
        buf.push(0x5c);
        buf.push(0x62);
    } else if b == 0x09 {
        buf.push(0x5c);
        buf.push(0x74);
    } else if b == 0x0a {
        buf.push(0x5c);
        buf.push(0x6e);
    } else if b == 0x0c {
        buf.push(0x5c);
        buf.push(0x66);
    } else if b == 0x0d {
        buf.push(0x5c);
        buf.push(0x72);
    } else if b < 0x20 {
        buf.push(0x5c);
        buf.push(0x75);
        buf.push(0x30);
        buf.push(0x30);
        push_hex_digit(buf, b / 16);
        push_hex_digit(buf, b % 16);
    } else {
        buf.push(b);
    }
    assert(final(buf)@ =~= old(buf)@ + escape_byte(b));
}

/// Appends a JSON string literal for `s` to the buffer.
fn push_json_string(buf: &mut Vec<u8>, s: &Vec<u8>)
    ensures
        final(buf)@ == old(buf)@ + json_string(s@),
{
    buf.push(0x22);
    let ghost opened = buf@;
    let mut i: usize = 0;
    assert(json_escape(s@.take(0)) =~= Seq::<u8>::empty());
    assert(buf@ =~= opened + json_escape(s@.take(0)));
    while i < s.len()
        invariant
            i <= s@.len(),
            opened == old(buf)@.push(0x22),
            buf@ == opened + json_escape(s@.take(i as int)),
        decreases s@.len() - i,
    {
        push_escaped_byte(buf, s[i]);
        proof {
            let t = s@.take(i + 1);
            assert(t.drop_last() =~= s@.take(i as int));
            assert(t.last() == s@[i as int]);
            assert(json_escape(t) == json_escape(s@.take(i as int)) + escape_byte(s@[i as int]));
            assert(buf@ =~= opened + json_escape(s@.take(i + 1)));
        }
        i = i + 1;
    }
    assert(s@.take(s@.len() as int) =~= s@);
    buf.push(0x22);
    assert(final(buf)@ =~= old(buf)@ + json_string(s@));
}

/// Appends the JSON object for one record to the buffer.
fn push_json_object(buf: &mut Vec<u8>, rec: &Record)
    ensures
        final(buf)@ == old(buf)@ + json_object(rec@),
{
    buf.push(0x7b);
    let ghost opened = buf@;
    let n = rec.len();
    let mut i: usize = 0;
    assert(json_members(rec@.take(0)) =~= Seq::<u8>::empty());
    assert(buf@ =~= opened + json_members(rec@.take(0)));
    while i < n
        invariant
            i <= n,
            n == rec@.len(),
            opened == old(buf)@.push(0x7b),
            buf@ == opened + json_members(rec@.take(i as int)),
        decreases n - i,
    {
        if i > 0 {
            buf.push(0x2c);
        }
        push_json_string(buf, rec.name(i));
        buf.push(0x3a);
        push_json_string(buf, rec.value(i));
        proof {
            let t = rec@.take(i + 1);
            assert(t.drop_last() =~= rec@.take(i as int));
            assert(t.last() == rec@[i as int]);
            if i == 0 {
                assert(json_members(t) == json_member(rec@[0]));
            } else {
                assert(json_members(t) == json_members(rec@.take(i as int)) + seq![0x2cu8]
                    + json_member(rec@[i as int]));
            }
            assert(buf@ =~= opened + json_members(rec@.take(i + 1)));
        }
        i = i + 1;
    }
    assert(rec@.take(rec@.len() as int) =~= rec@);
    buf.push(0x7d);
    assert(final(buf)@ =~= old(buf)@ + json_object(rec@));
}

/// The incremental JSON array encoder. Push records one by one; each push
/// returns the single chunk to transmit for that record, and [`close`]
/// returns the chunks that end the array. The ghost view is the sequence of
/// records pushed so far.
///
/// [`close`]: JsonArrayEncoder::close
pub struct JsonArrayEncoder {
    started: bool,
    pushed: Ghost<Seq<RecordView>>,
}

impl View for JsonArrayEncoder {
    type V = Seq<RecordView>;

    closed spec fn view(&self) -> Seq<RecordView> {
        self.pushed@
    }
}

impl JsonArrayEncoder {
    /// The opening bracket has been emitted exactly when a record has been.
    pub closed spec fn wf(self) -> bool {
        self.started <==> self.pushed@.len() > 0
    }

    /// A fresh encoder: nothing pushed, nothing emitted.
    pub fn new() -> (r: JsonArrayEncoder)
        ensures
            r@ == Seq::<RecordView>::empty(),
            r.wf(),
    {
        JsonArrayEncoder { started: false, pushed: Ghost(Seq::empty()) }
    }

    /// Encodes one record as the next array element and returns its chunk:
    /// `[` and the object for the first record, `,` and the object for every
    /// later one.
    pub fn push(&mut self, rec: &Record) -> (chunk: Vec<u8>)
        requires
            old(self).wf(),
        ensures
            final(self).wf(),
            final(self)@ == old(self)@.push(rec@),
            chunk@ == element_chunk(rec@, old(self)@.len() as int),
    {
        let mut chunk: Vec<u8> = Vec::new();
        if !self.started {
            chunk.push(0x5b);
            self.started = true;
        } else {
            chunk.push(0x2c);
        }
        push_json_object(&mut chunk, rec);
        proof {
            self.pushed@ = self.pushed@.push(rec@);
        }
        assert(chunk@ =~= element_chunk(rec@, old(self)@.len() as int));
        chunk
    }

    /// Ends the array: the closing bracket, preceded by the opening one if no
    /// record was ever pushed. Concatenated after the pushed records' chunks,
    /// the output reads exactly `json_array` of those records
    /// ([`lemma_chunks_form_array`]).
    pub fn close(&mut self) -> (chunks: Vec<Vec<u8>>)
        requires
            old(self).wf(),
        ensures
            final(self)@ == old(self)@,
            final(self).wf(),
            chunks.deep_view() == close_chunks(old(self)@.len()),
    {
        let mut chunks: Vec<Vec<u8>> = Vec::new();
        if !self.started {
            // Nothing was pushed: the opening bracket still has to go out,
            // as its own chunk, before the closing one.
            let mut open: Vec<u8> = Vec::new();
            open.push(0x5b);
            chunks.push(open);
            let mut close: Vec<u8> = Vec::new();
            close.push(0x5d);
            chunks.push(close);
            assert(chunks.deep_view() =~~= close_chunks(old(self)@.len()));
            chunks
        } else {
            let mut close: Vec<u8> = Vec::new();
            close.push(0x5d);
            chunks.push(close);
            assert(chunks.deep_view() =~~= close_chunks(old(self)@.len()));
            chunks
        }
    }
}

} // verus!
