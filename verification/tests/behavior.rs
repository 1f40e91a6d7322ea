//! Edge cases: chunking, dialects, row widths, escaping, errors, file names.

use csv_to_json::{
    convert_csv, default_delimiter, default_quote, replace_file_extension, CsvDecoder, CsvToJson,
    DecodeError, ParseOptions,
};

fn opts() -> ParseOptions {
    ParseOptions::new(default_delimiter(), default_quote()).unwrap()
}

#[test]
fn defaults_are_comma_and_double_quote() {
    assert_eq!(default_delimiter(), ',');
    assert_eq!(default_quote(), '"');
    let o = opts();
    assert_eq!(o.delimiter, b',');
    assert_eq!(o.quote, b'"');
}

#[test]
fn non_ascii_options_are_rejected() {
    assert!(ParseOptions::new('é', '"').is_none());
    assert!(ParseOptions::new(',', '‟').is_none());
    assert!(ParseOptions::new(';', '\'').is_some());
}

#[test]
fn chunk_boundaries_never_change_the_output() {
    let input = b"field1,field2\n\"a,\nb\",2\nx,\"y\"\"z\"\n";
    let whole = convert_csv(input, opts()).unwrap();
    let mut pipe = CsvToJson::new(opts());
    let mut streamed: Vec<u8> = Vec::new();
    for b in input.iter() {
        for chunk in pipe.feed(std::slice::from_ref(b)) {
            streamed.extend_from_slice(&chunk);
        }
    }
    let (tail, err) = pipe.finish();
    assert!(err.is_none());
    for chunk in tail {
        streamed.extend_from_slice(&chunk);
    }
    assert_eq!(streamed, whole);
}

#[test]
fn empty_input_yields_bracket_chunks() {
    let mut pipe = CsvToJson::new(opts());
    let head = pipe.feed(b"");
    assert!(head.is_empty());
    let (tail, err) = pipe.finish();
    assert!(err.is_none());
    assert_eq!(tail, vec![b"[".to_vec(), b"]".to_vec()]);
}

#[test]
fn one_chunk_per_record_and_no_dangling_comma() {
    let mut pipe = CsvToJson::new(opts());
    let head = pipe.feed(b"a\n1\n2\n");
    assert_eq!(
        head,
        vec![br#"[{"a":"1"}"#.to_vec(), br#",{"a":"2"}"#.to_vec()]
    );
    let (tail, err) = pipe.finish();
    assert!(err.is_none());
    assert_eq!(tail, vec![b"]".to_vec()]);
}

#[test]
fn double_conversion_is_byte_identical() {
    let input = b"field1,field2\nalpha,beta\ngamma,delta";
    let first = convert_csv(input, opts()).unwrap();
    let second = convert_csv(input, opts()).unwrap();
    assert_eq!(first, second);
}

#[test]
fn short_row_omits_missing_trailing_keys() {
    let out = convert_csv(b"a,b,c\n1,2", opts()).unwrap();
    assert_eq!(
        String::from_utf8(out).unwrap(),
        r#"[{"a":"1","b":"2"}]"#
    );
}

#[test]
fn long_row_drops_values_beyond_header() {
    let out = convert_csv(b"a,b\n1,2,3", opts()).unwrap();
    assert_eq!(
        String::from_utf8(out).unwrap(),
        r#"[{"a":"1","b":"2"}]"#
    );
}

#[test]
fn crlf_terminates_rows_and_lone_cr_is_content() {
    let out = convert_csv(b"a,b\r\n1,2\r\n", opts()).unwrap();
    assert_eq!(String::from_utf8(out).unwrap(), r#"[{"a":"1","b":"2"}]"#);
    let out = convert_csv(b"a\nx\ry\n", opts()).unwrap();
    assert_eq!(String::from_utf8(out).unwrap(), "[{\"a\":\"x\\ry\"}]");
}

#[test]
fn blank_lines_are_skipped() {
    let out = convert_csv(b"\na\n\n1\n\r\n2\n", opts()).unwrap();
    assert_eq!(
        String::from_utf8(out).unwrap(),
        r#"[{"a":"1"},{"a":"2"}]"#
    );
}

#[test]
fn trailing_newline_adds_no_record() {
    let out = convert_csv(b"a\n1\n", opts()).unwrap();
    assert_eq!(String::from_utf8(out).unwrap(), r#"[{"a":"1"}]"#);
}

#[test]
fn quoted_delimiters_and_doubled_quotes_round_trip() {
    let out = convert_csv(b"a,b\n\"1,5\",\"x\"\"y\"\n", opts()).unwrap();
    assert_eq!(
        String::from_utf8(out).unwrap(),
        "[{\"a\":\"1,5\",\"b\":\"x\\\"y\"}]"
    );
}

#[test]
fn control_bytes_are_escaped_in_output() {
    let out = convert_csv(b"a\n\"x\ty\"\n", opts()).unwrap();
    assert_eq!(String::from_utf8(out).unwrap(), "[{\"a\":\"x\\ty\"}]");
    let out = convert_csv(b"a\n\"x\x01y\"\n", opts()).unwrap();
    assert_eq!(String::from_utf8(out).unwrap(), "[{\"a\":\"x\\u0001y\"}]");
    let out = convert_csv(b"a\n\"x\\y\"\n", opts()).unwrap();
    assert_eq!(String::from_utf8(out).unwrap(), "[{\"a\":\"x\\\\y\"}]");
}

#[test]
fn invalid_utf8_fails_with_encoding_error() {
    assert_eq!(
        convert_csv(b"a\n\xff\xfe\n", opts()),
        Err(DecodeError::Encoding)
    );
    assert_eq!(convert_csv(b"a\xff\n1\n", opts()), Err(DecodeError::Encoding));
}

#[test]
fn unterminated_quote_fails_with_malformed_error() {
    assert_eq!(convert_csv(b"a\n\"open", opts()), Err(DecodeError::Malformed));
}

#[test]
fn stray_byte_after_closing_quote_is_malformed() {
    assert_eq!(
        convert_csv(b"a\n\"x\"y\n", opts()),
        Err(DecodeError::Malformed)
    );
}

#[test]
fn midstream_error_truncates_after_committed_chunks() {
    let mut pipe = CsvToJson::new(opts());
    let head = pipe.feed(b"a\n1\n\xff\xfe\n2\n");
    // The record decoded before the error was already owed to the wire.
    assert_eq!(head, vec![br#"[{"a":"1"}"#.to_vec()]);
    assert_eq!(pipe.error(), Some(DecodeError::Encoding));
    let (tail, err) = pipe.finish();
    // No closing bracket: the consumer sees a truncated document.
    assert!(tail.is_empty());
    assert_eq!(err, Some(DecodeError::Encoding));
}

#[test]
fn decoder_exposes_records_in_header_order() {
    let mut dec = CsvDecoder::new(opts());
    let recs = dec.feed(b"first,second\nv1,v2\n");
    assert!(dec.error().is_none());
    assert_eq!(recs.len(), 1);
    let rec = &recs[0];
    assert_eq!(rec.len(), 2);
    assert_eq!(rec.name(0).as_slice(), b"first");
    assert_eq!(rec.value(0).as_slice(), b"v1");
    assert_eq!(rec.name(1).as_slice(), b"second");
    assert_eq!(rec.value(1).as_slice(), b"v2");
}

#[test]
fn semicolon_delimiter_parses_accordingly() {
    let o = ParseOptions::new(';', '"').unwrap();
    let out = convert_csv(b"a;b\n1;2\n", o).unwrap();
    assert_eq!(String::from_utf8(out).unwrap(), r#"[{"a":"1","b":"2"}]"#);
    // With the default options the same bytes are one single-field column.
    let out = convert_csv(b"a;b\n1;2\n", opts()).unwrap();
    assert_eq!(String::from_utf8(out).unwrap(), r#"[{"a;b":"1;2"}]"#);
}

#[test]
fn space_delimiter_parses_accordingly() {
    let o = ParseOptions::new(' ', '"').unwrap();
    let out = convert_csv(b"a b\n1 2\n", o).unwrap();
    assert_eq!(String::from_utf8(out).unwrap(), r#"[{"a":"1","b":"2"}]"#);
}

#[test]
fn quote_option_is_independent_of_delimiter() {
    let o = ParseOptions::new(',', '#').unwrap();
    let out = convert_csv(b"a,b\n#1,5#,2\n", o).unwrap();
    assert_eq!(String::from_utf8(out).unwrap(), r#"[{"a":"1,5","b":"2"}]"#);
    // The default quote is plain content under the changed option.
    let out = convert_csv(b"a\n#\"#\n", o).unwrap();
    assert_eq!(String::from_utf8(out).unwrap(), "[{\"a\":\"\\\"\"}]");
}

#[test]
fn replace_file_extension_cases() {
    assert_eq!(replace_file_extension("example.csv", "json"), "example.json");
    assert_eq!(replace_file_extension("archive.tar.gz", "json"), "archive.tar.json");
    assert_eq!(replace_file_extension("noext", "json"), "noext.json");
    assert_eq!(replace_file_extension(".hidden", "json"), ".hidden.json");
    assert_eq!(replace_file_extension("dir/file.csv", "json"), "dir/file.json");
    assert_eq!(replace_file_extension("dir.d/file", "json"), "dir.d/file.json");
    assert_eq!(replace_file_extension("dir/", "json"), "dir/");
    assert_eq!(replace_file_extension("", "json"), "");
}

#[test]
fn error_before_first_record_emits_nothing() {
    let mut pipe = CsvToJson::new(opts());
    let head = pipe.feed(b"a\xff\n1\n");
    assert!(head.is_empty());
    assert_eq!(pipe.error(), Some(DecodeError::Encoding));
    let (tail, err) = pipe.finish();
    assert!(tail.is_empty());
    assert_eq!(err, Some(DecodeError::Encoding));
}

#[test]
fn header_only_input_still_closes_the_array() {
    let mut pipe = CsvToJson::new(opts());
    let head = pipe.feed(b"field1,field2,field3");
    assert!(head.is_empty());
    let (tail, err) = pipe.finish();
    assert!(err.is_none());
    assert_eq!(tail, vec![b"[".to_vec(), b"]".to_vec()]);
}

#[test]
fn duplicate_header_names_keep_order_and_width() {
    let out = convert_csv(b"a,a\n1,2\n", opts()).unwrap();
    assert_eq!(String::from_utf8(out).unwrap(), r#"[{"a":"1","a":"2"}]"#);
}

#[test]
fn empty_fields_are_kept_as_empty_strings() {
    let out = convert_csv(b"a,b,c\n,2,\n", opts()).unwrap();
    assert_eq!(
        String::from_utf8(out).unwrap(),
        r#"[{"a":"","b":"2","c":""}]"#
    );
}

#[test]
fn multibyte_utf8_content_passes_through_unescaped() {
    let out = convert_csv("a\nnaïve→ok\n".as_bytes(), opts()).unwrap();
    assert_eq!(String::from_utf8(out).unwrap(), "[{\"a\":\"naïve→ok\"}]");
}
