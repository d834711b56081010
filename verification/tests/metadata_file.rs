use skytraxx_updater::metadata::{parse_lines, write_lines, Metadata};

#[test]
fn test_parse_lines() {
    let file_content = "hw=\"Skytraxx 3.0\"\nsw=\"3.0.0\"";
    let dict = parse_lines(file_content);

    assert_eq!(dict.get("hw").unwrap(), "Skytraxx 3.0");
    assert_eq!(dict.get("sw").unwrap(), "3.0.0");
}

#[test]
fn test_write_lines() {
    let mut dict = Metadata::new();
    dict.insert("hw".to_string(), "Skytraxx 3.0".to_string());
    dict.insert("sw".to_string(), "3.0.0".to_string());

    let lines = write_lines(dict);

    assert_eq!(lines, "hw=\"Skytraxx 3.0\"\nsw=\"3.0.0\"\n");
}

#[test]
fn parse_drops_lines_without_single_delimiter() {
    let dict = parse_lines("hw=\"A\"\nbad_line\nsw=\"1.0\"");
    assert_eq!(dict.len(), 2);
    assert_eq!(dict.get("hw").unwrap(), "A");
    assert_eq!(dict.get("sw").unwrap(), "1.0");
    assert!(dict.get("bad_line").is_none());
}

#[test]
fn parse_drops_lines_with_two_delimiters() {
    let dict = parse_lines("a=b=c\nk=\"v\"");
    assert_eq!(dict.len(), 1);
    assert!(dict.get("a").is_none());
    assert_eq!(dict.get("k").unwrap(), "v");
}

#[test]
fn serialize_single_entry_exactly() {
    let mut dict = Metadata::new();
    dict.insert("hw".to_string(), "Skytraxx 3.0".to_string());
    assert_eq!(write_lines(dict), "hw=\"Skytraxx 3.0\"\n");
}

#[test]
fn round_trip_preserves_mapping() {
    let mut dict = Metadata::new();
    dict.insert("hw".to_string(), "Skytraxx 3.0".to_string());
    dict.insert("sw".to_string(), "3.0.0".to_string());
    dict.insert("extra".to_string(), "value with spaces".to_string());

    let text = write_lines(dict);
    let back = parse_lines(&text);

    assert_eq!(back.len(), 3);
    assert_eq!(back.get("hw").unwrap(), "Skytraxx 3.0");
    assert_eq!(back.get("sw").unwrap(), "3.0.0");
    assert_eq!(back.get("extra").unwrap(), "value with spaces");
}

#[test]
fn parse_strips_every_quote_in_value() {
    let dict = parse_lines("k=\"a\"b\"\n");
    assert_eq!(dict.get("k").unwrap(), "ab");
}

#[test]
fn parse_handles_crlf_line_endings() {
    let dict = parse_lines("hw=\"A\"\r\nsw=\"B\"");
    assert_eq!(dict.get("hw").unwrap(), "A");
    assert_eq!(dict.get("sw").unwrap(), "B");
}

#[test]
fn parse_of_empty_text_is_empty() {
    let dict = parse_lines("");
    assert_eq!(dict.len(), 0);
    assert!(dict.get("hw").is_none());
}

#[test]
fn later_line_wins_for_same_key() {
    let dict = parse_lines("k=\"first\"\nk=\"second\"");
    assert_eq!(dict.len(), 1);
    assert_eq!(dict.get("k").unwrap(), "second");
}

#[test]
fn insert_overwrites_in_place() {
    let mut dict = Metadata::new();
    dict.insert("hw".to_string(), "A".to_string());
    dict.insert("sw".to_string(), "1".to_string());
    dict.insert("hw".to_string(), "B".to_string());
    assert_eq!(dict.len(), 2);
    assert_eq!(dict.get("hw").unwrap(), "B");
    assert_eq!(write_lines(dict), "hw=\"B\"\nsw=\"1\"\n");
}
