use zenplan::codec::{encode_records, parse_records};
use zenplan::records::TaskRecord;

fn rec(id: &str, subject: &str, task_type: &str, solved: u32, correct: u32) -> TaskRecord {
    TaskRecord {
        id: id.to_string(),
        subject: subject.to_string(),
        task_type: task_type.to_string(),
        solved,
        correct,
    }
}

#[test]
fn encode_empty_exact() {
    let records: Vec<TaskRecord> = Vec::new();
    assert_eq!(encode_records(&records), "[\n]\n");
}

#[test]
fn encode_one_record_exact() {
    let records = vec![rec("a1", "math", "type 1", 5, 3)];
    let expected =
        "[\n{\nid 2 a1\nsubject 4 math\ntask_type 6 type 1\nsolved 5\ncorrect 3\n}\n]\n";
    assert_eq!(encode_records(&records), expected);
}

#[test]
fn round_trip_empty() {
    let records: Vec<TaskRecord> = Vec::new();
    let text = encode_records(&records);
    let back = parse_records(&text).unwrap();
    assert!(back.is_empty());
}

#[test]
fn round_trip_one() {
    let records = vec![rec("id-7", "physics", "type 24", 12, 11)];
    let back = parse_records(&encode_records(&records)).unwrap();
    assert_eq!(back, records);
}

#[test]
fn round_trip_many_preserves_order() {
    let records = vec![
        rec("a", "math", "t1", 1, 1),
        rec("b", "math", "t2", 2, 0),
        rec("c", "cs", "t3", 3, 3),
    ];
    let back = parse_records(&encode_records(&records)).unwrap();
    assert_eq!(back, records);
}

#[test]
fn round_trip_awkward_text() {
    // Content with newlines, braces, quotes and digits survives verbatim:
    // text fields are length-framed, never escaped.
    let records = vec![rec(
        "x\ny\n",
        "with \"quotes\" and {braces}",
        "solved 3\ncorrect 9",
        0,
        0,
    )];
    let back = parse_records(&encode_records(&records)).unwrap();
    assert_eq!(back, records);
}

#[test]
fn round_trip_empty_fields_and_max_counts() {
    let records = vec![rec("", "", "", u32::MAX, u32::MAX)];
    let back = parse_records(&encode_records(&records)).unwrap();
    assert_eq!(back, records);
}

#[test]
fn round_trip_unicode_text() {
    let records = vec![rec("з-1", "Информатика", "Тип 13", 7, 6)];
    let back = parse_records(&encode_records(&records)).unwrap();
    assert_eq!(back, records);
}

#[test]
fn parse_rejects_empty_and_garbage() {
    assert!(parse_records("").is_err());
    assert!(parse_records("garbage").is_err());
    assert!(parse_records("[\n").is_err());
    assert!(parse_records("]\n").is_err());
    assert!(parse_records("[]").is_err());
}

#[test]
fn parse_rejects_trailing_text() {
    assert!(parse_records("[\n]\nextra").is_err());
    assert!(parse_records("[\n]\n\n").is_err());
}

#[test]
fn parse_rejects_malformed_record() {
    assert!(parse_records("[\n{\n}\n]\n").is_err());
    // Wrong field order.
    assert!(parse_records("[\n{\nsubject 1 m\nid 1 a\ntask_type 1 t\nsolved 1\ncorrect 1\n}\n]\n")
        .is_err());
    // Count does not fit u32.
    assert!(parse_records(
        "[\n{\nid 1 a\nsubject 1 m\ntask_type 1 t\nsolved 99999999999\ncorrect 1\n}\n]\n"
    )
    .is_err());
    // Text length larger than the remaining input.
    assert!(parse_records("[\n{\nid 900 a\nsubject 1 m\ntask_type 1 t\nsolved 1\ncorrect 1\n}\n]\n")
        .is_err());
    // Non-digit where a count is required.
    assert!(parse_records("[\n{\nid 1 a\nsubject 1 m\ntask_type 1 t\nsolved x\ncorrect 1\n}\n]\n")
        .is_err());
}

#[test]
fn parse_accepts_handwritten_canonical_text() {
    let text = "[\n{\nid 1 a\nsubject 1 m\ntask_type 1 t\nsolved 10\ncorrect 0\n}\n]\n";
    let back = parse_records(text).unwrap();
    assert_eq!(back, vec![rec("a", "m", "t", 10, 0)]);
}
