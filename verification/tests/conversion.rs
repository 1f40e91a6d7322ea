//! The conversion scenarios: whole CSV documents in, whole JSON documents out.

use csv_to_json::{convert_csv, replace_file_extension, ParseOptions};

fn default_options() -> ParseOptions {
    ParseOptions::new(csv_to_json::default_delimiter(), csv_to_json::default_quote()).unwrap()
}

fn convert_str(input: &str, opts: ParseOptions) -> String {
    let out = convert_csv(input.as_bytes(), opts).expect("conversion failed");
    String::from_utf8(out).expect("output was not UTF-8")
}

#[test]
fn empty_csv() {
    let res = convert_csv(b"", default_options());
    assert!(res.is_ok());
    assert_eq!(res.unwrap(), b"[]");
}

#[test]
fn returns_nothing_when_only_headers() {
    let res = convert_csv(b"field1,field2,field3", default_options());
    assert!(res.is_ok());
    assert_eq!(res.unwrap(), b"[]");
}

#[test]
fn returns_single_record_for_single_line() {
    let res = convert_csv(b"field1,field2,field3\n1,2,3", default_options());
    assert!(res.is_ok());
    assert_eq!(
        String::from_utf8(res.unwrap()).unwrap(),
        r#"[{"field1":"1","field2":"2","field3":"3"}]"#
    );
}

#[test]
fn returns_multiple_records_for_multiple_lines() {
    let res = convert_csv(b"field1,field2,field3\n1,2,3\n4,5,6", default_options());
    assert!(res.is_ok());
    assert_eq!(
        String::from_utf8(res.unwrap()).unwrap(),
        r#"[{"field1":"1","field2":"2","field3":"3"},{"field1":"4","field2":"5","field3":"6"}]"#
    );
}

#[test]
fn can_parse_quoted_fields() {
    let res = convert_csv(b"\"field1\",field2,field3\n1,\"2\",3", default_options());
    assert!(res.is_ok());
    assert_eq!(
        String::from_utf8(res.unwrap()).unwrap(),
        r#"[{"field1":"1","field2":"2","field3":"3"}]"#
    );
}

#[test]
fn can_parse_newslines_in_quoted_fields() {
    let res = convert_csv(b"\"field1\",field2,field3\n1,\"2 &\n 3\",4", default_options());
    assert!(res.is_ok());
    assert_eq!(
        String::from_utf8(res.unwrap()).unwrap(),
        r#"[{"field1":"1","field2":"2 &\n 3","field3":"4"}]"#
    );
}

#[test]
fn can_change_delimiter_with_query_param() {
    let opts = ParseOptions::new('\t', '"').unwrap();
    let body = convert_str("field1\tfield2\tfield3\n1\t2\t3", opts);
    assert_eq!(opts.delimiter, b'\t');
    assert_eq!(body, r#"[{"field1":"1","field2":"2","field3":"3"}]"#);
}

#[test]
fn can_change_quote_char_with_query_param() {
    let opts = ParseOptions::new(',', '\'').unwrap();
    let body = convert_str("field1,'field2','field3'\n1,'2',3", opts);
    assert_eq!(opts.quote, b'\'');
    assert_eq!(body, r#"[{"field1":"1","field2":"2","field3":"3"}]"#);
}

#[test]
fn responds_with_content_disposition_header() {
    let download_file_name = replace_file_extension("example.csv", "json");
    assert_eq!(
        format!(
            r#"attachment; filename="{0}"; filename*="{0}""#,
            download_file_name
        ),
        r#"attachment; filename="example.json"; filename*="example.json""#
    );
}
