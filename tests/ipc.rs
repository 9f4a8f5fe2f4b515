use apiari_common::ipc::{frame_line, JsonlReader, JsonlWriter};

fn ids(lines: &[Vec<u8>]) -> Vec<u64> {
    let mut out = Vec::new();
    for line in lines {
        if let Ok(v) = serde_json::from_slice::<serde_json::Value>(line) {
            if let Some(id) = v["id"].as_u64() {
                out.push(id);
            }
        }
    }
    out
}

fn framed(json: &str) -> Vec<u8> {
    frame_line(json.as_bytes()).unwrap()
}

#[test]
fn test_write_and_read() {
    let mut file: Vec<u8> = Vec::new();
    let mut reader = JsonlReader::<()>::new("test.jsonl");

    file.extend(framed(r#"{"id":1,"text":"hello"}"#));
    file.extend(framed(r#"{"id":2,"text":"world"}"#));

    assert!(reader.needs_read(Some(file.len() as u64)));
    let at = reader.offset() as usize;
    let records = reader.consume(&file[at..]);
    assert_eq!(records.len(), 2);
    assert_eq!(ids(&records), vec![1, 2]);

    assert!(!reader.needs_read(Some(file.len() as u64)));

    file.extend(framed(r#"{"id":3,"text":"!"}"#));
    let at = reader.offset() as usize;
    let records = reader.consume(&file[at..]);
    assert_eq!(records.len(), 1);
    assert_eq!(ids(&records), vec![3]);
    assert_eq!(reader.offset(), file.len() as u64);
}

#[test]
fn test_reader_nonexistent_file() {
    let reader = JsonlReader::<()>::new("missing.jsonl");
    assert!(!reader.needs_read(None));
    assert_eq!(reader.offset(), 0);
}

#[test]
fn test_skip_to_end() {
    let mut file: Vec<u8> = framed(r#"{"id":1,"text":"old"}"#);
    let mut reader = JsonlReader::<()>::new("test.jsonl");
    assert_eq!(reader.skip_to_end(Some(file.len() as u64)), file.len() as u64);
    assert!(!reader.needs_read(Some(file.len() as u64)));

    file.extend(framed(r#"{"id":2,"text":"new"}"#));
    assert!(reader.needs_read(Some(file.len() as u64)));
    let at = reader.offset() as usize;
    let records = reader.consume(&file[at..]);
    assert_eq!(records.len(), 1);
    assert_eq!(ids(&records), vec![2]);
}

#[test]
fn skip_to_end_without_file_is_zero() {
    let mut reader = JsonlReader::<()>::with_offset("gone.jsonl", 77);
    assert_eq!(reader.skip_to_end(None), 0);
    assert_eq!(reader.offset(), 0);
}

#[test]
fn test_malformed_lines_skipped() {
    let file = b"{\"id\":1,\"text\":\"good\"}\nnot valid json\n{\"id\":2,\"text\":\"also good\"}\n";
    let mut reader = JsonlReader::<()>::new("test.jsonl");
    let records = reader.consume(file);
    assert_eq!(records.len(), 3);
    assert_eq!(ids(&records), vec![1, 2]);
    assert_eq!(reader.offset(), file.len() as u64);

    assert!(!reader.needs_read(Some(file.len() as u64)));
    let records = reader.consume(&file[file.len()..]);
    assert!(records.is_empty());
    assert_eq!(reader.offset(), file.len() as u64);
}

#[test]
fn test_with_offset() {
    let mut file: Vec<u8> = framed(r#"{"id":1,"text":"first"}"#);
    let mut reader = JsonlReader::<()>::new("test.jsonl");
    let _ = reader.consume(&file);
    let saved_offset = reader.offset();

    file.extend(framed(r#"{"id":2,"text":"second"}"#));

    let mut reader2 = JsonlReader::<()>::with_offset("test.jsonl", saved_offset);
    let records = reader2.consume(&file[saved_offset as usize..]);
    assert_eq!(records.len(), 1);
    assert_eq!(ids(&records), vec![2]);
}

#[test]
fn partial_line_is_deferred() {
    let mut file: Vec<u8> = framed(r#"{"id":1}"#);
    let mut reader = JsonlReader::<()>::new("test.jsonl");
    file.extend_from_slice(br#"{"id":2,"te"#);
    let records = reader.consume(&file);
    assert_eq!(ids(&records), vec![1]);
    assert_eq!(reader.offset(), 9);

    let records = reader.consume(&file[9..]);
    assert!(records.is_empty());
    assert_eq!(reader.offset(), 9);

    file.extend_from_slice(b"xt\":\"x\"}\n");
    let records = reader.consume(&file[9..]);
    assert_eq!(ids(&records), vec![2]);
    assert_eq!(reader.offset(), file.len() as u64);
}

#[test]
fn blank_lines_and_whitespace_are_trimmed() {
    let file = b"\n   \n\t{\"id\":5} \r\n\n";
    let mut reader = JsonlReader::<()>::new("test.jsonl");
    let records = reader.consume(file);
    assert_eq!(records, vec![b"{\"id\":5}".to_vec()]);
    assert_eq!(reader.offset(), file.len() as u64);
}

#[test]
fn truncated_file_is_not_rewound() {
    let mut reader = JsonlReader::<()>::with_offset("test.jsonl", 100);
    assert!(!reader.needs_read(Some(40)));
    assert!(!reader.needs_read(Some(100)));
    assert!(reader.needs_read(Some(101)));
    reader.set_offset(3);
    assert_eq!(reader.offset(), 3);
}

#[test]
fn consume_continues_from_a_resumed_offset() {
    let mut reader = JsonlReader::<()>::with_offset("test.jsonl", 10);
    let records = reader.consume(b"{\"id\":7}\n{\"id\"");
    assert_eq!(ids(&records), vec![7]);
    assert_eq!(reader.offset(), 19);
}

#[test]
fn frame_line_appends_newline() {
    assert_eq!(frame_line(b"{\"a\":1}"), Some(b"{\"a\":1}\n".to_vec()));
    assert_eq!(frame_line(b""), Some(b"\n".to_vec()));
}

#[test]
fn frame_line_refuses_embedded_newline() {
    assert_eq!(frame_line(b"{\"a\":\n1}"), None);
}

#[test]
fn reader_and_writer_keep_their_paths() {
    let reader = JsonlReader::<()>::new("/var/log/events.jsonl");
    assert_eq!(reader.path(), "/var/log/events.jsonl");
    let writer = JsonlWriter::<()>::new("/var/log/events.jsonl");
    assert_eq!(writer.path(), "/var/log/events.jsonl");
}

#[test]
fn unicode_whitespace_is_trimmed() {
    let file = "1\u{a0}\n\u{3000}\u{2003}{\"id\":4}\u{85}\u{2029}\n\u{1680}\u{202f}\u{205f}\n".as_bytes();
    let mut reader = JsonlReader::<()>::new("test.jsonl");
    let records = reader.consume(file);
    assert_eq!(records, vec![b"1".to_vec(), b"{\"id\":4}".to_vec()]);
    assert_eq!(ids(&records), vec![4]);
    assert_eq!(reader.offset(), file.len() as u64);
}

#[test]
fn non_whitespace_multibyte_characters_are_kept() {
    let file = "\u{e9}\u{2030}x\u{2030}\n".as_bytes();
    let mut reader = JsonlReader::<()>::new("test.jsonl");
    let records = reader.consume(file);
    assert_eq!(records, vec!["\u{e9}\u{2030}x\u{2030}".as_bytes().to_vec()]);
}

#[test]
fn completed_partial_line_surfaces_once() {
    let mut file: Vec<u8> = br#"{"id":8,"#.to_vec();
    let mut reader = JsonlReader::<()>::new("test.jsonl");
    assert!(reader.consume(&file).is_empty());
    assert_eq!(reader.offset(), 0);
    file.extend_from_slice(b"\"t\":1}\n{\"id\":9}\n");
    let records = reader.consume(&file);
    assert_eq!(ids(&records), vec![8, 9]);
    assert_eq!(reader.offset(), file.len() as u64);
    let at = reader.offset() as usize;
    assert!(reader.consume(&file[at..]).is_empty());
}
