use zenplan::activity::{activity_log, total_solved, ScanEntry};
use zenplan::codec::encode_records;
use zenplan::records::TaskRecord;

fn rec(id: &str, solved: u32, correct: u32) -> TaskRecord {
    TaskRecord {
        id: id.to_string(),
        subject: "math".to_string(),
        task_type: "t1".to_string(),
        solved,
        correct,
    }
}

fn entry(name: &str, content: String) -> ScanEntry {
    ScanEntry { name: name.to_string(), content }
}

#[test]
fn total_solved_sums_exactly() {
    assert_eq!(total_solved(&Vec::new()), 0);
    assert_eq!(total_solved(&vec![rec("a", 5, 1), rec("b", 0, 0), rec("c", 3, 3)]), 8);
    assert_eq!(
        total_solved(&vec![rec("a", u32::MAX, 0), rec("b", u32::MAX, 0)]),
        2 * (u32::MAX as u128)
    );
}

#[test]
fn two_dates_two_points() {
    let entries = vec![
        entry("2025-10-19.json", encode_records(&vec![rec("a", 5, 4)])),
        entry("2025-10-20.json", encode_records(&vec![rec("b", 0, 0), rec("c", 3, 2)])),
    ];
    let log = activity_log(&entries);
    assert_eq!(log.len(), 2);
    assert_eq!(log[0].date, "2025-10-19");
    assert_eq!(log[0].count, 5);
    assert_eq!(log[1].date, "2025-10-20");
    assert_eq!(log[1].count, 3);
}

#[test]
fn zero_solved_date_excluded() {
    let entries = vec![
        entry("2025-10-19.json", encode_records(&vec![rec("a", 0, 0), rec("b", 0, 0)])),
        entry("2025-10-20.json", encode_records(&vec![rec("c", 2, 2)])),
    ];
    let log = activity_log(&entries);
    assert_eq!(log.len(), 1);
    assert_eq!(log[0].date, "2025-10-20");
}

#[test]
fn empty_records_date_excluded() {
    let entries = vec![entry("2025-10-19.json", encode_records(&Vec::new()))];
    let log = activity_log(&entries);
    assert!(log.is_empty());
}

#[test]
fn corrupt_file_skipped_siblings_kept() {
    let entries = vec![
        entry("2025-10-19.json", encode_records(&vec![rec("a", 5, 5)])),
        entry("2025-10-20.json", "{{ corrupted ]]".to_string()),
        entry("2025-10-21.json", encode_records(&vec![rec("b", 7, 1)])),
    ];
    let log = activity_log(&entries);
    assert_eq!(log.len(), 2);
    assert_eq!(log[0].date, "2025-10-19");
    assert_eq!(log[0].count, 5);
    assert_eq!(log[1].date, "2025-10-21");
    assert_eq!(log[1].count, 7);
}

#[test]
fn non_record_files_ignored() {
    let entries = vec![
        entry("2025-10-19.md", "a note, not records".to_string()),
        entry("notes.txt", "unrelated".to_string()),
        entry("json", "suffix only as whole name".to_string()),
        entry("2025-10-19.json", encode_records(&vec![rec("a", 1, 0)])),
    ];
    let log = activity_log(&entries);
    assert_eq!(log.len(), 1);
    assert_eq!(log[0].date, "2025-10-19");
    assert_eq!(log[0].count, 1);
}

#[test]
fn empty_listing_empty_log() {
    let log = activity_log(&Vec::new());
    assert!(log.is_empty());
}
