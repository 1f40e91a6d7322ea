//! Incremental CSV record decoder.
//!
//! The decoder is a byte-at-a-time state machine. Its meaning is given by the
//! specification functions [`step`] (one input byte), [`feed_bytes`] (a run of
//! bytes) and [`finish_model`] (end of input); the executable [`CsvDecoder`]
//! is proved to follow them exactly. Because the machine advances one byte at
//! a time, how the input is cut into chunks can never change the records it
//! produces: feeding `a` then `b` is, by definition, feeding `a + b`.
//!
//! Dialect and policy, all of it stated by the model below:
//! - The first row that completes is the header; it is never emitted as a
//!   record. Each later row becomes one record pairing header names with the
//!   row's values, in header order.
//! - A field that starts with the quote byte runs to the next quote byte and
//!   may contain delimiters, carriage returns and raw newlines; a doubled
//!   quote inside it stands for one literal quote. After the closing quote
//!   only a delimiter, a row end or the end of input may follow; any other
//!   byte is malformed.
//! - A row ends at a bare `\n`; one `\r` directly before it is dropped. A
//!   lone `\r` elsewhere in an unquoted field is ordinary content. Rows with
//!   no content at all (blank lines) are skipped.
//! - A row may be shorter than the header: the missing trailing keys are
//!   simply absent from the record. A row may be longer: the values beyond
//!   the header's width are dropped.
//! - Every completed field must be valid UTF-8, or decoding fails with
//!   [`DecodeError::Encoding`]. An unterminated quote at end of input, or a
//!   stray byte after a closing quote, fails with [`DecodeError::Malformed`].
//!   The first error is final: no record follows it.

use vstd::prelude::*;
use vstd::utf8::valid_utf8;

use crate::options::ParseOptions;

verus! {

/// Why a decode failed. The first error terminates the record sequence.
#[derive(Clone, Copy, PartialEq, Eq, Structural, Debug)]
pub enum DecodeError {
    /// A completed field was not valid UTF-8.
    Encoding,
    /// Structurally invalid CSV: an unterminated quoted field at end of
    /// input, or content between a closing quote and the next separator.
    Malformed,
}

/// Where in a row the machine stands.
#[derive(Clone, Copy, PartialEq, Eq, Structural, Debug)]
pub enum Mode {
    /// At the start of a row, nothing of it seen yet.
    LineStart,
    /// At the start of a field after a delimiter.
    FieldStart,
    /// Inside an unquoted field.
    Unquoted,
    /// Inside a quoted field, after the opening quote.
    Quoted,
    /// Directly after a quote that may close a quoted field.
    QuoteDone,
    /// After a closing quote and a carriage return; only `\n` may follow.
    QuoteDoneCr,
}

/// One decoded record: field names paired with field values, in header order.
pub type RecordView = Seq<(Seq<u8>, Seq<u8>)>;

/// The full state of the decoder: configuration, the header once seen, the
/// fields of the row being parsed, the bytes of the field being parsed, the
/// position within the row, every record emitted so far, and the error if one
/// occurred.
#[verifier::ext_equal]
pub struct Model {
    pub opts: ParseOptions,
    pub header: Option<Seq<Seq<u8>>>,
    pub row: Seq<Seq<u8>>,
    pub field: Seq<u8>,
    pub mode: Mode,
    pub out: Seq<RecordView>,
    pub err: Option<DecodeError>,
}

/// The state before any input: no header, an empty row and field, no output.
pub open spec fn init_model(opts: ParseOptions) -> Model {
    Model {
        opts,
        header: None,
        row: Seq::empty(),
        field: Seq::empty(),
        mode: Mode::LineStart,
        out: Seq::empty(),
        err: None,
    }
}

/// Drops one carriage return from the end of an unquoted field, so that
/// `\r\n` terminates a row just as a bare `\n` does.
pub open spec fn strip_cr(f: Seq<u8>) -> Seq<u8> {
    if f.len() > 0 && f.last() == 0x0d {
        f.drop_last()
    } else {
        f
    }
}

/// Pairs header names with a row's values in header order. A short row gives
/// a short record (missing trailing keys are absent); values beyond the
/// header's width are dropped.
pub open spec fn zip_record(header: Seq<Seq<u8>>, row: Seq<Seq<u8>>) -> RecordView {
    Seq::new(
        if header.len() <= row.len() {
            header.len()
        } else {
            row.len()
        },
        |i: int| (header[i], row[i]),
    )
}

/// Drops one carriage return from the end of the pending field, so that
/// `\r\n` terminates a row just as a bare `\n` does.
pub open spec fn strip_model(m: Model) -> Model {
    Model { field: strip_cr(m.field), ..m }
}

/// Ends the current field: its bytes must be valid UTF-8, and the machine
/// moves to the start of the next field.
pub open spec fn complete_field(m: Model) -> Model {
    if !valid_utf8(m.field) {
        Model { err: Some(DecodeError::Encoding), ..m }
    } else {
        Model { row: m.row.push(m.field), field: Seq::empty(), mode: Mode::FieldStart, ..m }
    }
}

/// Ends the current row, whose last field is the pending one. The first row
/// to complete becomes the header; every later one is emitted as a record.
pub open spec fn complete_row(m: Model) -> Model {
    if !valid_utf8(m.field) {
        Model { err: Some(DecodeError::Encoding), ..m }
    } else {
        let row = m.row.push(m.field);
        match m.header {
            None => Model {
                header: Some(row),
                row: Seq::empty(),
                field: Seq::empty(),
                mode: Mode::LineStart,
                ..m
            },
            Some(h) => Model {
                out: m.out.push(zip_record(h, row)),
                row: Seq::empty(),
                field: Seq::empty(),
                mode: Mode::LineStart,
                ..m
            },
        }
    }
}

/// One byte of input. After an error the machine no longer moves.
pub open spec fn step(m: Model, b: u8) -> Model {
    if m.err is Some {
        m
    } else {
        match m.mode {
            Mode::LineStart | Mode::FieldStart => {
                if b == m.opts.quote {
                    Model { mode: Mode::Quoted, ..m }
                } else if b == m.opts.delimiter {
                    complete_field(m)
                } else if b == 0x0a {
                    if m.mode is LineStart {
                        // A blank line is skipped, not an empty record.
                        m
                    } else {
                        complete_row(strip_model(m))
                    }
                } else {
                    Model { mode: Mode::Unquoted, field: m.field.push(b), ..m }
                }
            },
            Mode::Unquoted => {
                if b == m.opts.delimiter {
                    complete_field(m)
                } else if b == 0x0a {
                    let m2 = strip_model(m);
                    if m2.row.len() == 0 && m2.field.len() == 0 {
                        // The row held nothing but a carriage return: a blank
                        // line, skipped.
                        Model { mode: Mode::LineStart, ..m2 }
                    } else {
                        complete_row(m2)
                    }
                } else {
                    Model { field: m.field.push(b), ..m }
                }
            },
            Mode::Quoted => {
                if b == m.opts.quote {
                    Model { mode: Mode::QuoteDone, ..m }
                } else {
                    Model { field: m.field.push(b), ..m }
                }
            },
            Mode::QuoteDone => {
                if b == m.opts.quote {
                    // A doubled quote: one literal quote, still quoted.
                    Model { mode: Mode::Quoted, field: m.field.push(b), ..m }
                } else if b == m.opts.delimiter {
                    complete_field(m)
                } else if b == 0x0a {
                    complete_row(m)
                } else if b == 0x0d {
                    Model { mode: Mode::QuoteDoneCr, ..m }
                } else {
                    Model { err: Some(DecodeError::Malformed), ..m }
                }
            },
            Mode::QuoteDoneCr => {
                if b == 0x0a {
                    complete_row(m)
                } else {
                    Model { err: Some(DecodeError::Malformed), ..m }
                }
            },
        }
    }
}

/// A run of input bytes, first byte first.
pub open spec fn feed_bytes(m: Model, s: Seq<u8>) -> Model
    decreases s.len(),
{
    if s.len() == 0 {
        m
    } else {
        feed_bytes(step(m, s[0]), s.skip(1))
    }
}

/// End of input: a pending row without a trailing newline still counts; an
/// open quoted field is malformed.
pub open spec fn finish_model(m: Model) -> Model {
    if m.err is Some {
        m
    } else {
        match m.mode {
            Mode::LineStart => m,
            Mode::FieldStart => complete_row(m),
            Mode::Unquoted => {
                let m2 = strip_model(m);
                if m2.row.len() == 0 && m2.field.len() == 0 {
                    m2
                } else {
                    complete_row(m2)
                }
            },
            Mode::Quoted => Model { err: Some(DecodeError::Malformed), ..m },
            Mode::QuoteDone => complete_row(m),
            Mode::QuoteDoneCr => complete_row(m),
        }
    }
}

/// The machine's final state on a complete input.
pub open spec fn run_model(input: Seq<u8>, opts: ParseOptions) -> Model {
    finish_model(feed_bytes(init_model(opts), input))
}

/// What a complete input decodes to: its records, or the first error.
pub open spec fn csv_records(input: Seq<u8>, opts: ParseOptions) -> Result<
    Seq<RecordView>,
    DecodeError,
> {
    let m = run_model(input, opts);
    match m.err {
        Some(e) => Err(e),
        None => Ok(m.out),
    }
}

/// The header a complete input establishes, if any row completed.
pub open spec fn csv_header(input: Seq<u8>, opts: ParseOptions) -> Option<Seq<Seq<u8>>> {
    run_model(input, opts).header
}

/// Feeding two runs of bytes one after the other is feeding their
/// concatenation: chunk boundaries cannot change what is decoded.
pub proof fn lemma_feed_bytes_append(m: Model, s1: Seq<u8>, s2: Seq<u8>)
    ensures
        feed_bytes(m, s1 + s2) == feed_bytes(feed_bytes(m, s1), s2),
    decreases s1.len(),
{
    if s1.len() == 0 {
        assert(s1 + s2 =~= s2);
    } else {
        assert((s1 + s2)[0] == s1[0]);
        assert((s1 + s2).skip(1) =~= s1.skip(1) + s2);
        lemma_feed_bytes_append(step(m, s1[0]), s1.skip(1), s2);
    }
}

/// Feeding one more byte of a run advances the machine by one step.
pub proof fn lemma_feed_bytes_snoc(m: Model, s: Seq<u8>, i: int)
    requires
        0 <= i < s.len(),
    ensures
        feed_bytes(m, s.take(i + 1)) == step(feed_bytes(m, s.take(i)), s[i]),
{
    assert(s.take(i + 1) =~= s.take(i) + seq![s[i]]);
    lemma_feed_bytes_append(m, s.take(i), seq![s[i]]);
    let m1 = feed_bytes(m, s.take(i));
    assert(seq![s[i]].skip(1) =~= Seq::<u8>::empty());
    assert(seq![s[i]][0] == s[i]);
    assert(feed_bytes(m1, seq![s[i]]) == feed_bytes(step(m1, s[i]), Seq::<u8>::empty()));
    assert(feed_bytes(step(m1, s[i]), Seq::<u8>::empty()) == step(m1, s[i]));
}

/// A step never removes or changes a record already emitted.
pub proof fn lemma_step_out_prefix(m: Model, b: u8)
    ensures
        m.out.len() <= step(m, b).out.len(),
        step(m, b).out.take(m.out.len() as int) == m.out,
{
    assert(step(m, b).out.take(m.out.len() as int) =~= m.out);
}

/// Feeding more bytes never removes or changes a record already emitted.
pub proof fn lemma_feed_bytes_out_prefix(m: Model, s: Seq<u8>)
    ensures
        m.out.len() <= feed_bytes(m, s).out.len(),
        feed_bytes(m, s).out.take(m.out.len() as int) == m.out,
    decreases s.len(),
{
    if s.len() == 0 {
        assert(feed_bytes(m, s).out.take(m.out.len() as int) =~= m.out);
    } else {
        let m1 = step(m, s[0]);
        let m2 = feed_bytes(m1, s.skip(1));
        lemma_step_out_prefix(m, s[0]);
        lemma_feed_bytes_out_prefix(m1, s.skip(1));
        assert forall|i: int| 0 <= i < m.out.len() implies m2.out[i] == m.out[i] by {
            assert(m2.out.take(m1.out.len() as int)[i] == m2.out[i]);
            assert(m1.out.take(m.out.len() as int)[i] == m1.out[i]);
        }
        assert(m2.out.take(m.out.len() as int) =~= m.out);
    }
}

/// Ending the input never removes or changes a record already emitted.
pub proof fn lemma_finish_out_prefix(m: Model)
    ensures
        m.out.len() <= finish_model(m).out.len(),
        finish_model(m).out.take(m.out.len() as int) == m.out,
{
    assert(finish_model(m).out.take(m.out.len() as int) =~= m.out);
}

/// The record's keys are the first names of the header, in header order: the
/// record is never wider than the header, and key `j` is header name `j`.
pub open spec fn record_keyed_by(r: RecordView, h: Seq<Seq<u8>>) -> bool {
    r.len() <= h.len() && forall|j: int| 0 <= j < r.len() ==> (#[trigger] r[j]).0 == h[j]
}

/// Every record the machine has emitted takes its keys from the header.
pub open spec fn model_keys_wf(m: Model) -> bool {
    &&& m.header is None ==> m.out.len() == 0
    &&& m.header matches Some(h) ==> forall|i: int|
        0 <= i < m.out.len() ==> record_keyed_by(#[trigger] m.out[i], h)
}

proof fn lemma_complete_row_keys(m: Model)
    requires
        model_keys_wf(m),
    ensures
        model_keys_wf(complete_row(m)),
{
    let m2 = complete_row(m);
    if valid_utf8(m.field) && m.header is Some {
        let h = m.header.unwrap();
        let r = zip_record(h, m.row.push(m.field));
        assert(record_keyed_by(r, h));
        assert(forall|i: int|
            0 <= i < m.out.len() ==> #[trigger] m2.out[i] == m.out[i] && record_keyed_by(
                m.out[i],
                h,
            ));
    }
}

proof fn lemma_step_keys(m: Model, b: u8)
    requires
        model_keys_wf(m),
    ensures
        model_keys_wf(step(m, b)),
{
    if m.err is None {
        match m.mode {
            Mode::LineStart | Mode::FieldStart => {
                if b != m.opts.quote && b != m.opts.delimiter && b == 0x0a && !(m.mode
                    is LineStart) {
                    lemma_complete_row_keys(strip_model(m));
                }
            },
            Mode::Unquoted => {
                if b != m.opts.delimiter && b == 0x0a {
                    lemma_complete_row_keys(strip_model(m));
                }
            },
            Mode::Quoted => {},
            Mode::QuoteDone => {
                if b != m.opts.quote && b != m.opts.delimiter && b == 0x0a {
                    lemma_complete_row_keys(m);
                }
            },
            Mode::QuoteDoneCr => {
                if b == 0x0a {
                    lemma_complete_row_keys(m);
                }
            },
        }
    }
}

proof fn lemma_feed_bytes_keys(m: Model, s: Seq<u8>)
    requires
        model_keys_wf(m),
    ensures
        model_keys_wf(feed_bytes(m, s)),
    decreases s.len(),
{
    if s.len() > 0 {
        lemma_step_keys(m, s[0]);
        lemma_feed_bytes_keys(step(m, s[0]), s.skip(1));
    }
}

proof fn lemma_finish_keys(m: Model)
    requires
        model_keys_wf(m),
    ensures
        model_keys_wf(finish_model(m)),
{
    if m.err is None {
        match m.mode {
            Mode::LineStart => {},
            Mode::FieldStart => lemma_complete_row_keys(m),
            Mode::Unquoted => {
                let m2 = strip_model(m);
                if !(m2.row.len() == 0 && m2.field.len() == 0) {
                    lemma_complete_row_keys(m2);
                }
            },
            Mode::Quoted => {},
            Mode::QuoteDone => lemma_complete_row_keys(m),
            Mode::QuoteDoneCr => lemma_complete_row_keys(m),
        }
    }
}

/// On any input that decodes without error, every record is one data row in
/// input order, keyed by the header's names in header order: a record never
/// has more fields than the header, key `j` is header name `j`, and a short
/// row simply lacks its trailing keys. If any record exists, a header does.
pub proof fn lemma_records_keyed_by_header(input: Seq<u8>, opts: ParseOptions)
    ensures
        csv_records(input, opts) matches Ok(rs) ==> {
            &&& rs.len() > 0 ==> csv_header(input, opts) is Some
            &&& csv_header(input, opts) matches Some(h) ==> forall|i: int|
                0 <= i < rs.len() ==> record_keyed_by(#[trigger] rs[i], h)
        },
{
    assert(model_keys_wf(init_model(opts)));
    lemma_feed_bytes_keys(init_model(opts), input);
    lemma_finish_keys(feed_bytes(init_model(opts), input));
}

/// Ending a row can fail only on a field that is not valid UTF-8. In
/// particular a row's width never errs: a row with fewer fields than the
/// header completes and simply lacks its trailing keys, and one with more
/// completes with the excess values dropped (`zip_record`).
pub proof fn lemma_row_width_never_errors(m: Model)
    ensures
        valid_utf8(m.field) ==> complete_row(m).err == m.err,
        !valid_utf8(m.field) ==> complete_row(m).err == Some(DecodeError::Encoding),
{
}

/// The text of a value `v` written as a quoted CSV field: every occurrence of
/// the quote byte doubled, everything else byte for byte.
pub open spec fn quote_escape(v: Seq<u8>, q: u8) -> Seq<u8>
    decreases v.len(),
{
    if v.len() == 0 {
        Seq::empty()
    } else {
        quote_escape(v.drop_last(), q) + (if v.last() == q {
            seq![q, q]
        } else {
            seq![v.last()]
        })
    }
}

proof fn lemma_feed_quoted_content(m: Model, v: Seq<u8>)
    requires
        m.err is None,
        m.mode is Quoted,
    ensures
        feed_bytes(m, quote_escape(v, m.opts.quote)) == (Model { field: m.field + v, ..m }),
    decreases v.len(),
{
    let q = m.opts.quote;
    if v.len() == 0 {
        assert(m.field + v =~= m.field);
        assert(feed_bytes(m, quote_escape(v, q)) =~= (Model { field: m.field + v, ..m }));
    } else {
        let v0 = v.drop_last();
        let b = v.last();
        lemma_feed_quoted_content(m, v0);
        let m1 = Model { field: m.field + v0, ..m };
        let tail: Seq<u8> = if b == q {
            seq![q, q]
        } else {
            seq![b]
        };
        lemma_feed_bytes_append(m, quote_escape(v0, q), tail);
        assert(feed_bytes(m, quote_escape(v, q)) == feed_bytes(m1, tail));
        if b == q {
            assert(tail =~= seq![q] + seq![q]);
            lemma_feed_bytes_append(m1, seq![q], seq![q]);
            lemma_feed_one(m1, q);
            let ma = step(m1, q);
            assert(ma == (Model { mode: Mode::QuoteDone, ..m1 }));
            lemma_feed_one(ma, q);
            let mb = step(ma, q);
            assert(mb == (Model { mode: Mode::Quoted, field: m1.field.push(q), ..m1 }));
            assert(feed_bytes(m1, tail) == mb);
            assert(m1.field.push(b) =~= m.field + v);
            assert(mb =~= (Model { field: m.field + v, ..m }));
        } else {
            lemma_feed_one(m1, b);
            let ma = step(m1, b);
            assert(ma == (Model { field: m1.field.push(b), ..m1 }));
            assert(feed_bytes(m1, tail) == ma);
            assert(m1.field.push(b) =~= m.field + v);
            assert(ma =~= (Model { field: m.field + v, ..m }));
        }
    }
}

/// Round-trip of a quoted field: whatever bytes `v` holds — the configured
/// delimiter, raw newlines, carriage returns, quotes — writing it as a quoted
/// field (quotes doubled, the whole wrapped in quotes) and feeding that text
/// to the machine at a field start recovers exactly `v` as the pending field
/// content, with the machine just past the closing quote and nothing else
/// disturbed.
pub proof fn lemma_quoted_field_roundtrip(m: Model, v: Seq<u8>)
    requires
        m.err is None,
        m.mode is LineStart || m.mode is FieldStart,
    ensures
        feed_bytes(
            m,
            seq![m.opts.quote] + quote_escape(v, m.opts.quote) + seq![m.opts.quote],
        ) == (Model { mode: Mode::QuoteDone, field: m.field + v, ..m }),
{
    let q = m.opts.quote;
    let s1 = seq![q];
    let s2 = quote_escape(v, q);
    let s3 = seq![q];
    lemma_feed_bytes_append(m, s1, s2 + s3);
    assert(s1 + (s2 + s3) =~= s1 + s2 + s3);
    lemma_feed_one(m, q);
    let m1 = step(m, q);
    assert(m1 == (Model { mode: Mode::Quoted, ..m }));
    assert(feed_bytes(m, s1) == m1);
    lemma_feed_bytes_append(m1, s2, s3);
    lemma_feed_quoted_content(m1, v);
    let m2 = Model { field: m.field + v, ..m1 };
    assert(feed_bytes(m1, s2) == m2);
    lemma_feed_one(m2, q);
    let m3 = step(m2, q);
    assert(m3 == (Model { mode: Mode::QuoteDone, ..m2 }));
    assert(m3 =~= (Model { mode: Mode::QuoteDone, field: m.field + v, ..m }));
    assert(feed_bytes(m, s1 + s2 + s3) == m3);
}

/// Feeding bytes never changes the configured dialect.
pub proof fn lemma_feed_bytes_opts(m: Model, s: Seq<u8>)
    ensures
        feed_bytes(m, s).opts == m.opts,
    decreases s.len(),
{
    if s.len() > 0 {
        lemma_feed_bytes_opts(step(m, s[0]), s.skip(1));
    }
}

/// Feeding a single byte is one step of the machine.
pub proof fn lemma_feed_one(m: Model, b: u8)
    ensures
        feed_bytes(m, seq![b]) == step(m, b),
{
    assert(seq![b][0] == b);
    assert(seq![b].skip(1) =~= Seq::<u8>::empty());
    assert(feed_bytes(step(m, b), Seq::<u8>::empty()) == step(m, b));
}

/// The checker for field contents.
///
/// Relies on `core::str::from_utf8`: it returns `Ok` exactly when the bytes
/// are valid UTF-8, the same property `vstd::utf8::valid_utf8` states.
#[verifier::external_body]
fn check_utf8(b: &[u8]) -> (r: bool)
    ensures
        r == valid_utf8(b@),
{
    core::str::from_utf8(b).is_ok()
}

/// One decoded row: field names paired with field values, in the order the
/// names appeared in the header row.
pub struct Record {
    pub fields: Vec<(Vec<u8>, Vec<u8>)>,
}

impl View for Record {
    type V = RecordView;

    open spec fn view(&self) -> RecordView {
        self.fields@.map_values(|p: (Vec<u8>, Vec<u8>)| (p.0@, p.1@))
    }
}

impl Record {
    /// How many fields the record holds.
    pub fn len(&self) -> (n: usize)
        ensures
            n == self@.len(),
    {
        self.fields.len()
    }

    /// The name of field `i`.
    pub fn name(&self, i: usize) -> (r: &Vec<u8>)
        requires
            i < self@.len(),
        ensures
            r@ == self@[i as int].0,
    {
        &self.fields[i].0
    }

    /// The value of field `i`.
    pub fn value(&self, i: usize) -> (r: &Vec<u8>)
        requires
            i < self@.len(),
        ensures
            r@ == self@[i as int].1,
    {
        &self.fields[i].1
    }
}

/// A verified copy of a byte vector.
fn copy_bytes(src: &Vec<u8>) -> (r: Vec<u8>)
    ensures
        r@ == src@,
{
    let mut r: Vec<u8> = Vec::new();
    let mut i: usize = 0;
    while i < src.len()
        invariant
            i <= src.len(),
            r@ == src@.take(i as int),
        decreases src.len() - i,
    {
        r.push(src[i]);
        assert(src@.take(i + 1) =~= src@.take(i as int).push(src@[i as int]));
        i = i + 1;
    }
    assert(src@.take(src@.len() as int) =~= src@);
    r
}

/// The incremental CSV decoder. Feed it byte chunks as they arrive and it
/// hands back the records they complete; call [`CsvDecoder::finish`] when the
/// input ends. Its whole behaviour is the model: after any sequence of calls
/// its state is exactly `feed_bytes(init_model(opts), all bytes fed)`.
pub struct CsvDecoder {
    opts: ParseOptions,
    header: Option<Vec<Vec<u8>>>,
    row: Vec<Vec<u8>>,
    field: Vec<u8>,
    mode: Mode,
    err: Option<DecodeError>,
    emitted: Ghost<Seq<RecordView>>,
}

impl View for CsvDecoder {
    type V = Model;

    closed spec fn view(&self) -> Model {
        Model {
            opts: self.opts,
            header: match self.header {
                Some(h) => Some(h@.map_values(|v: Vec<u8>| v@)),
                None => None,
            },
            row: self.row@.map_values(|v: Vec<u8>| v@),
            field: self.field@,
            mode: self.mode,
            out: self.emitted@,
            err: self.err,
        }
    }
}

impl CsvDecoder {
    /// A fresh decoder for one document.
    pub fn new(opts: ParseOptions) -> (r: CsvDecoder)
        ensures
            r@ == init_model(opts),
    {
        let r = CsvDecoder {
            opts,
            header: None,
            row: Vec::new(),
            field: Vec::new(),
            mode: Mode::LineStart,
            err: None,
            emitted: Ghost(Seq::empty()),
        };
        assert(r@ =~= init_model(opts));
        r
    }

    /// The error that ended decoding, if one did.
    pub fn error(&self) -> (r: Option<DecodeError>)
        ensures
            r == self@.err,
    {
        self.err
    }

    /// Ends the current field, as `complete_field` says.
    fn complete_field_x(&mut self)
        ensures
            final(self)@ == complete_field(old(self)@),
    {
        if !check_utf8(self.field.as_slice()) {
            self.err = Some(DecodeError::Encoding);
            assert(self@ =~= complete_field(old(self)@));
        } else {
            let mut f: Vec<u8> = Vec::new();
            core::mem::swap(&mut f, &mut self.field);
            self.row.push(f);
            self.mode = Mode::FieldStart;
            assert(self.row@.map_values(|v: Vec<u8>| v@) =~= old(self).row@.map_values(
                |v: Vec<u8>| v@,
            ).push(f@));
            assert(self@ =~= complete_field(old(self)@));
        }
    }

    /// Ends the current row, as `complete_row` says, returning the record it
    /// emits, if any.
    fn complete_row_x(&mut self) -> (rec: Option<Record>)
        ensures
            final(self)@ == complete_row(old(self)@),
            match rec {
                Some(r) => final(self)@.out == old(self)@.out.push(r@),
                None => final(self)@.out == old(self)@.out,
            },
    {
        if !check_utf8(self.field.as_slice()) {
            self.err = Some(DecodeError::Encoding);
            assert(self@ =~= complete_row(old(self)@));
            return None;
        }
        let mut f: Vec<u8> = Vec::new();
        core::mem::swap(&mut f, &mut self.field);
        self.row.push(f);
        let mut row: Vec<Vec<u8>> = Vec::new();
        core::mem::swap(&mut row, &mut self.row);
        self.mode = Mode::LineStart;
        assert(row@.map_values(|v: Vec<u8>| v@) =~= old(self).row@.map_values(
            |v: Vec<u8>| v@,
        ).push(f@));
        match &self.header {
            None => {
                self.header = Some(row);
                assert(self@ =~= complete_row(old(self)@));
                None
            },
            Some(h) => {
                let n = if h.len() <= row.len() {
                    h.len()
                } else {
                    row.len()
                };
                let mut fields: Vec<(Vec<u8>, Vec<u8>)> = Vec::new();
                let mut i: usize = 0;
                let ghost hv = h@.map_values(|v: Vec<u8>| v@);
                let ghost rv = row@.map_values(|v: Vec<u8>| v@);
                while i < n
                    invariant
                        i <= n,
                        n == if hv.len() <= rv.len() {
                            hv.len()
                        } else {
                            rv.len()
                        },
                        n <= h@.len() && n <= row@.len(),
                        hv == h@.map_values(|v: Vec<u8>| v@),
                        rv == row@.map_values(|v: Vec<u8>| v@),
                        fields@.len() == i,
                        forall|j: int|
                            0 <= j < i ==> (#[trigger] fields@[j]).0@ == hv[j] && fields@[j].1@
                                == rv[j],
                    decreases n - i,
                {
                    let key = copy_bytes(&h[i]);
                    let value = copy_bytes(&row[i]);
                    fields.push((key, value));
                    proof {
                        assert(hv[i as int] == h@[i as int]@);
                        assert(rv[i as int] == row@[i as int]@);
                    }
                    i = i + 1;
                }
                let rec = Record { fields };
                assert(rec@ =~= zip_record(hv, rv));
                proof {
                    self.emitted@ = self.emitted@.push(rec@);
                }
                assert(self@ =~= complete_row(old(self)@));
                Some(rec)
            },
        }
    }

    /// Advances the machine by one input byte, as `step` says.
    fn step_byte(&mut self, b: u8) -> (rec: Option<Record>)
        ensures
            final(self)@ == step(old(self)@, b),
            match rec {
                Some(r) => final(self)@.out == old(self)@.out.push(r@),
                None => final(self)@.out == old(self)@.out,
            },
    {
        if self.err.is_some() {
            return None;
        }
        match self.mode {
            Mode::LineStart | Mode::FieldStart => {
                if b == self.opts.quote {
                    self.mode = Mode::Quoted;
                    None
                } else if b == self.opts.delimiter {
                    self.complete_field_x();
                    None
                } else if b == 0x0a {
                    if matches!(self.mode, Mode::LineStart) {
                        None
                    } else {
                        self.strip_trailing_cr();
                        self.complete_row_x()
                    }
                } else {
                    self.mode = Mode::Unquoted;
                    self.field.push(b);
                    None
                }
            },
            Mode::Unquoted => {
                if b == self.opts.delimiter {
                    self.complete_field_x();
                    None
                } else if b == 0x0a {
                    self.strip_trailing_cr();
                    if self.row.len() == 0 && self.field.len() == 0 {
                        self.mode = Mode::LineStart;
                        None
                    } else {
                        self.complete_row_x()
                    }
                } else {
                    self.field.push(b);
                    None
                }
            },
            Mode::Quoted => {
                if b == self.opts.quote {
                    self.mode = Mode::QuoteDone;
                } else {
                    self.field.push(b);
                }
                None
            },
            Mode::QuoteDone => {
                if b == self.opts.quote {
                    self.mode = Mode::Quoted;
                    self.field.push(b);
                    None
                } else if b == self.opts.delimiter {
                    self.complete_field_x();
                    None
                } else if b == 0x0a {
                    self.complete_row_x()
                } else if b == 0x0d {
                    self.mode = Mode::QuoteDoneCr;
                    None
                } else {
                    self.err = Some(DecodeError::Malformed);
                    None
                }
            },
            Mode::QuoteDoneCr => {
                if b == 0x0a {
                    self.complete_row_x()
                } else {
                    self.err = Some(DecodeError::Malformed);
                    None
                }
            },
        }
    }

    /// Drops one carriage return from the end of the pending field.
    fn strip_trailing_cr(&mut self)
        ensures
            final(self)@ == strip_model(old(self)@),
    {
        if self.field.len() > 0 && self.field[self.field.len() - 1] == 0x0d {
            self.field.pop();
        }
        assert(self@ =~= strip_model(old(self)@));
    }

    /// Feeds one chunk of input and returns the records it completed. The
    /// machine afterwards stands exactly where feeding these bytes one at a
    /// time leaves it, so chunk boundaries never matter.
    pub fn feed(&mut self, chunk: &[u8]) -> (out: Vec<Record>)
        ensures
            final(self)@ == feed_bytes(old(self)@, chunk@),
            final(self)@.out.len() == old(self)@.out.len() + out@.len(),
            forall|j: int|
                0 <= j < out@.len() ==> #[trigger] out@[j]@ == final(self)@.out[old(self)@.out.len()
                    + j],
    {
        let mut out: Vec<Record> = Vec::new();
        let ghost m0 = self@;
        let mut i: usize = 0;
        assert(feed_bytes(m0, chunk@.take(0)) == m0) by {
            assert(chunk@.take(0) =~= Seq::<u8>::empty());
        }
        while i < chunk.len()
            invariant
                i <= chunk@.len(),
                self@ == feed_bytes(m0, chunk@.take(i as int)),
                self@.out.len() == m0.out.len() + out@.len(),
                forall|j: int|
                    0 <= j < out@.len() ==> #[trigger] out@[j]@ == self@.out[m0.out.len() + j],
            decreases chunk@.len() - i,
        {
            proof {
                lemma_feed_bytes_snoc(m0, chunk@, i as int);
            }
            let rec = self.step_byte(chunk[i]);
            if let Some(r) = rec {
                out.push(r);
            }
            i = i + 1;
        }
        assert(chunk@.take(chunk@.len() as int) =~= chunk@);
        out
    }

    /// Ends the input, as `finish_model` says: a pending row still becomes a
    /// record; an open quoted field is malformed.
    pub fn finish(&mut self) -> (rec: Option<Record>)
        ensures
            final(self)@ == finish_model(old(self)@),
            match rec {
                Some(r) => final(self)@.out == old(self)@.out.push(r@),
                None => final(self)@.out == old(self)@.out,
            },
    {
        if self.err.is_some() {
            return None;
        }
        match self.mode {
            Mode::LineStart => None,
            Mode::FieldStart => self.complete_row_x(),
            Mode::Unquoted => {
                self.strip_trailing_cr();
                if self.row.len() == 0 && self.field.len() == 0 {
                    None
                } else {
                    self.complete_row_x()
                }
            },
            Mode::Quoted => {
                self.err = Some(DecodeError::Malformed);
                None
            },
            Mode::QuoteDone => self.complete_row_x(),
            Mode::QuoteDoneCr => self.complete_row_x(),
        }
    }
}

} // verus!
