use arklib::index::{IndexEntry, ResourceIndex};
use arklib::resource::ResourceId;
use arklib::snapshot::{parse_snapshot_record, snapshot_record};
use arklib::ArklibError;

#[test]
fn record_text_and_back() {
    let entry = IndexEntry { modified: 1700000000123, id: ResourceId { data_size: 10, hash: 3817498742 } };
    let line = snapshot_record(&entry, "dir/a file.txt");
    assert_eq!(line, "1700000000123 10-3817498742 dir/a file.txt");
    assert_eq!(parse_snapshot_record(&line), Ok((entry, "dir/a file.txt".to_string())));
}

#[test]
fn malformed_records() {
    assert_eq!(parse_snapshot_record("nospaces"), Err(ArklibError::Parse));
    assert_eq!(parse_snapshot_record("12 10-5"), Err(ArklibError::Parse));
    assert_eq!(parse_snapshot_record("x 10-5 a"), Err(ArklibError::Parse));
    assert_eq!(parse_snapshot_record("12 10_5 a"), Err(ArklibError::Parse));
}

#[test]
fn records_are_ordered_by_entry() {
    let e = |m: u64, s: u64, h: u32| IndexEntry { modified: m, id: ResourceId { data_size: s, hash: h } };
    let index = ResourceIndex::build(
        "/r".to_string(),
        vec![
            ("/r/c".to_string(), e(5, 1, 1)),
            ("/r/a".to_string(), e(1, 9, 9)),
            ("/r/b".to_string(), e(5, 1, 0)),
        ],
    );
    let paths: Vec<String> = index.records().into_iter().map(|(p, _)| p).collect();
    assert_eq!(paths, vec!["/r/a".to_string(), "/r/b".to_string(), "/r/c".to_string()]);
}

#[test]
fn snapshot_lines_read_back() {
    let e = |m: u64, h: u32| IndexEntry { modified: m, id: ResourceId { data_size: 3, hash: h } };
    let index = ResourceIndex::build(
        "/r".to_string(),
        vec![("/r/x y/b".to_string(), e(7, 1)), ("/r/a".to_string(), e(7, 0))],
    );
    let lines = index.snapshot_lines().unwrap();
    assert_eq!(lines.len(), 2);
    assert_eq!(parse_snapshot_record(&lines[0]), Ok((e(7, 0), "a".to_string())));
    assert_eq!(parse_snapshot_record(&lines[1]), Ok((e(7, 1), "x y/b".to_string())));
}

#[test]
fn snapshot_lines_fail_on_a_path_outside_the_root() {
    let e = IndexEntry { modified: 1, id: ResourceId { data_size: 3, hash: 0 } };
    let index = ResourceIndex::build("/r".to_string(), vec![("relative/a".to_string(), e)]);
    assert!(matches!(index.snapshot_lines(), Err(ArklibError::Path(_))));
}
