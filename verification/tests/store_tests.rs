use zenplan::codec::encode_records;
use zenplan::records::TaskRecord;
use zenplan::store::{data_dir_name, decode_records, note_content, note_file_name, records_file_name};

fn rec(id: &str, solved: u32, correct: u32) -> TaskRecord {
    TaskRecord {
        id: id.to_string(),
        subject: "math".to_string(),
        task_type: "t1".to_string(),
        solved,
        correct,
    }
}

#[test]
fn data_dir_is_fixed() {
    assert_eq!(data_dir_name(), "ZenPlan");
    // Resolution is a pure function: every call names the same directory.
    assert_eq!(data_dir_name(), data_dir_name());
}

#[test]
fn file_names_follow_date_key() {
    assert_eq!(note_file_name("2025-10-19"), "2025-10-19.md");
    assert_eq!(records_file_name("2025-10-19"), "2025-10-19.json");
    // No normalization: distinct spellings are distinct slots.
    assert_ne!(records_file_name("2025-1-1"), records_file_name("2025-01-01"));
}

#[test]
fn absent_note_reads_as_empty_string() {
    assert_eq!(note_content(None), "");
}

#[test]
fn present_note_reads_verbatim() {
    assert_eq!(note_content(Some("# plan\n- task".to_string())), "# plan\n- task");
}

#[test]
fn absent_records_read_as_empty_sequence() {
    let loaded = decode_records(None).unwrap();
    assert!(loaded.is_empty());
}

#[test]
fn saved_records_read_back() {
    let records = vec![rec("a", 5, 4), rec("b", 2, 2)];
    let stored = encode_records(&records);
    let loaded = decode_records(Some(&stored)).unwrap();
    assert_eq!(loaded, records);
}

#[test]
fn saved_empty_records_read_back_empty() {
    let records: Vec<TaskRecord> = Vec::new();
    let stored = encode_records(&records);
    let loaded = decode_records(Some(&stored)).unwrap();
    assert!(loaded.is_empty());
}

#[test]
fn malformed_records_surface_parse_error() {
    assert!(decode_records(Some("not a record file")).is_err());
}

#[test]
fn overwrite_replaces_whole_file() {
    // Two competing saves: the stored content equals one input's encoding in
    // full, namely the later one; never a merge of the two.
    let first = vec![rec("a", 1, 1)];
    let second = vec![rec("b", 9, 9)];
    let stored = encode_records(&second);
    assert_eq!(stored, encode_records(&second));
    assert_ne!(stored, encode_records(&first));
    let loaded = decode_records(Some(&stored)).unwrap();
    assert_eq!(loaded, second);
}
