use arklib::index::{check_candidate, is_hidden, Found, IndexEntry, ResourceIndex};
use arklib::resource::ResourceId;
use arklib::ArklibError;

const FILE_SIZE_1: u64 = 10;
const FILE_SIZE_2: u64 = 11;
const CRC32_1: u32 = 3817498742;
const CRC32_2: u32 = 1804055020;

fn zeros_entry(size: usize, modified: u64) -> IndexEntry {
    IndexEntry { modified, id: ResourceId::compute_bytes(&vec![0u8; size]).unwrap() }
}

fn found(path: &str, modified: u64) -> Found {
    Found { path: path.to_string(), modified: Some(modified) }
}

fn now_millis() -> u64 {
    std::time::SystemTime::now()
        .duration_since(std::time::UNIX_EPOCH)
        .unwrap()
        .as_millis() as u64
}

#[test]
fn index_entry_order() {
    let old1 = IndexEntry { id: ResourceId { data_size: 1, hash: 2 }, modified: 0 };
    let old2 = IndexEntry { id: ResourceId { data_size: 2, hash: 1 }, modified: 0 };
    let now = now_millis();
    let new1 = IndexEntry { id: ResourceId { data_size: 1, hash: 1 }, modified: now };
    let new2 = IndexEntry { id: ResourceId { data_size: 1, hash: 2 }, modified: now };

    assert_eq!(new1, new1);
    assert_eq!(new2, new2);
    assert_eq!(old1, old1);
    assert_eq!(old2, old2);

    assert_ne!(new1, new2);
    assert_ne!(new1, old1);

    assert!(old2 > old1);
    assert!(new1 > old1);
    assert!(new1 > old2);
    assert!(new2 > old1);
    assert!(new2 > old2);
    assert!(new2 > new1);
}

#[test]
fn should_build_resource_index_with_1_file_successfully() {
    let index = ResourceIndex::build(
        "/root".to_string(),
        vec![("/root/a".to_string(), zeros_entry(FILE_SIZE_1 as usize, 5))],
    );
    let id = ResourceId { data_size: FILE_SIZE_1, hash: CRC32_1 };
    assert_eq!(index.root(), "/root");
    assert_eq!(index.size(), 1);
    assert_eq!(index.count_resources(), 1);
    assert_eq!(index.get_path(id), Some("/root/a".to_string()));
    assert_eq!(index.collision_count(id), None);
    assert_eq!(index.count_files(), 1);
}

#[test]
fn should_index_colliding_files_correctly() {
    let index = ResourceIndex::build(
        "/root".to_string(),
        vec![
            ("/root/a".to_string(), zeros_entry(FILE_SIZE_1 as usize, 5)),
            ("/root/b".to_string(), zeros_entry(FILE_SIZE_1 as usize, 6)),
        ],
    );
    let id = ResourceId { data_size: FILE_SIZE_1, hash: CRC32_1 };
    assert_eq!(index.size(), 2);
    assert_eq!(index.count_resources(), 1);
    assert!(index.contains(id));
    assert_eq!(index.collision_count(id), Some(2));
    assert_eq!(index.count_files(), 2);
}

#[test]
fn update_one_should_error_on_new_file() {
    let mut index = ResourceIndex::build(
        "/root".to_string(),
        vec![("/root/a".to_string(), zeros_entry(FILE_SIZE_1 as usize, 5))],
    );
    let update = index.update_one(
        "/root/b".to_string(),
        ResourceId { data_size: FILE_SIZE_2, hash: CRC32_2 },
        zeros_entry(FILE_SIZE_2 as usize, 7),
    );
    assert!(update.is_err());
}

#[test]
fn update_one_should_not_update_absent_path() {
    let mut index = ResourceIndex::new("/root".to_string());
    let old_id = ResourceId { data_size: 1, hash: 2 };
    let result = index.forget_id(old_id);
    assert!(matches!(result, Err(ArklibError::Path(_))));
}

#[test]
fn update_one_should_index_new_path() {
    let mut index = ResourceIndex::new("/root".to_string());
    let old_id = ResourceId { data_size: 1, hash: 2 };
    let result = index.forget_id(old_id).map(|u| u.deleted);
    assert!(result.is_err());
    assert_eq!(index.size(), 0);
}

#[test]
fn should_update_resource_index_adding_1_additional_file_successfully() {
    let mut index = ResourceIndex::build(
        "/root".to_string(),
        vec![("/root/a".to_string(), zeros_entry(FILE_SIZE_1 as usize, 5))],
    );
    let walk = vec![found("/root/a", 5), found("/root/b", 9)];
    let to_scan = index.paths_to_scan(&walk);
    assert_eq!(to_scan, vec!["/root/b".to_string()]);
    let scanned = vec![("/root/b".to_string(), zeros_entry(FILE_SIZE_2 as usize, 9))];
    let update = index.update_all(&walk, &scanned);
    assert_eq!(index.size(), 2);
    assert_eq!(index.count_resources(), 2);
    assert!(index.contains(ResourceId { data_size: FILE_SIZE_1, hash: CRC32_1 }));
    assert!(index.contains(ResourceId { data_size: FILE_SIZE_2, hash: CRC32_2 }));
    assert_eq!(update.deleted.len(), 0);
    assert_eq!(
        update.added,
        vec![("/root/b".to_string(), ResourceId { data_size: FILE_SIZE_2, hash: CRC32_2 })]
    );
}

#[test]
fn mod_should_not_index_empty_file() {
    assert!(check_candidate(false, 0).is_err());
    let index = ResourceIndex::build("/root".to_string(), vec![]);
    assert_eq!(index.size(), 0);
    assert_eq!(index.count_resources(), 0);
}

#[test]
fn mod_should_not_index_hidden_file() {
    assert!(is_hidden(".hidden"));
    assert!(!is_hidden("visible"));
    assert!(!is_hidden(""));
}

#[test]
fn mod_should_not_index_1_empty_directory() {
    assert!(check_candidate(true, 0).is_err());
    assert!(check_candidate(true, 10).is_err());
    assert_eq!(check_candidate(false, 10), Ok(()));
}

#[test]
fn two_files_then_a_duplicate() {
    let first = zeros_entry(FILE_SIZE_1 as usize, 1);
    let second = IndexEntry { modified: 1, id: ResourceId::compute_bytes(&[7u8; 11]).unwrap() };
    let mut index = ResourceIndex::build(
        "/r".to_string(),
        vec![("/r/one".to_string(), first), ("/r/two".to_string(), second)],
    );
    assert_eq!(index.size(), 2);
    assert_eq!(index.collision_count(first.id), None);
    assert_eq!(index.collision_count(second.id), None);
    let update = index.index_new("/r/three".to_string(), zeros_entry(FILE_SIZE_1 as usize, 2)).unwrap();
    assert_eq!(update.added, vec![("/r/three".to_string(), first.id)]);
    assert_eq!(index.size(), 3);
    assert_eq!(index.collision_count(first.id), Some(2));
    assert_eq!(index.count_resources(), 2);
}

#[test]
fn removing_one_of_two_duplicates_retargets() {
    let e = zeros_entry(FILE_SIZE_1 as usize, 1);
    let mut index = ResourceIndex::build(
        "/r".to_string(),
        vec![("/r/a".to_string(), e), ("/r/b".to_string(), e)],
    );
    assert_eq!(index.get_path(e.id), Some("/r/a".to_string()));
    let walk = vec![found("/r/b", 1)];
    let update = index.update_all(&walk, &vec![]);
    assert_eq!(update.deleted.len(), 0);
    assert_eq!(update.added.len(), 0);
    assert_eq!(index.size(), 1);
    assert_eq!(index.collision_count(e.id), None);
    assert_eq!(index.get_path(e.id), Some("/r/b".to_string()));
}

#[test]
fn rename_reports_delete_and_add() {
    let a = zeros_entry(FILE_SIZE_1 as usize, 1);
    let b = zeros_entry(FILE_SIZE_2 as usize, 1);
    let mut index = ResourceIndex::build(
        "/r".to_string(),
        vec![("/r/test1.txt".to_string(), a), ("/r/test2.txt".to_string(), b)],
    );
    let walk = vec![found("/r/test1.txt", 1), found("/r/test3.txt", 1)];
    assert_eq!(index.paths_to_scan(&walk), vec!["/r/test3.txt".to_string()]);
    let scanned = vec![("/r/test3.txt".to_string(), b)];
    let update = index.update_all(&walk, &scanned);
    assert_eq!(update.deleted, vec![b.id]);
    assert_eq!(update.added, vec![("/r/test3.txt".to_string(), b.id)]);
    assert_eq!(index.size(), 2);
    assert_eq!(index.collision_count(b.id), None);
    assert_eq!(index.get_path(b.id), Some("/r/test3.txt".to_string()));
}

#[test]
fn second_update_is_empty() {
    let a = zeros_entry(FILE_SIZE_1 as usize, 1);
    let mut index = ResourceIndex::build("/r".to_string(), vec![("/r/a".to_string(), a)]);
    let walk = vec![found("/r/a", 1), found("/r/b", 4), found("/r/c", 4)];
    let scanned = vec![
        ("/r/b".to_string(), zeros_entry(FILE_SIZE_2 as usize, 4)),
        ("/r/c".to_string(), zeros_entry(FILE_SIZE_1 as usize, 4)),
    ];
    let first = index.update_all(&walk, &scanned);
    assert_eq!(first.added.len(), 1);
    let to_scan = index.paths_to_scan(&walk);
    assert_eq!(to_scan, vec!["/r/c".to_string()]);
    let rescanned = vec![("/r/c".to_string(), zeros_entry(FILE_SIZE_1 as usize, 4))];
    let second = index.update_all(&walk, &rescanned);
    assert_eq!(second.deleted.len(), 0);
    assert_eq!(second.added.len(), 0);
    assert_eq!(index.size(), 2);
}

#[test]
fn modified_file_is_deleted_and_added() {
    let a = zeros_entry(FILE_SIZE_1 as usize, 1);
    let mut index = ResourceIndex::build("/r".to_string(), vec![("/r/a".to_string(), a)]);
    let walk = vec![found("/r/a", 2)];
    assert_eq!(index.paths_to_scan(&walk), vec!["/r/a".to_string()]);
    let fresh = zeros_entry(FILE_SIZE_2 as usize, 2);
    let update = index.update_all(&walk, &vec![("/r/a".to_string(), fresh)]);
    assert_eq!(update.deleted, vec![a.id]);
    assert_eq!(update.added, vec![("/r/a".to_string(), fresh.id)]);
    assert_eq!(index.get_entry(&"/r/a".to_string()), Some(fresh));
}

#[test]
fn update_one_cases() {
    let a = zeros_entry(FILE_SIZE_1 as usize, 1);
    let mut index = ResourceIndex::build("/r".to_string(), vec![("/r/a".to_string(), a)]);
    let same = index.update_one("/r/a".to_string(), a.id, zeros_entry(FILE_SIZE_1 as usize, 3)).unwrap();
    assert_eq!(same.deleted.len() + same.added.len(), 0);
    let wrong = ResourceId { data_size: 1, hash: 1 };
    assert!(matches!(
        index.update_one("/r/a".to_string(), wrong, a),
        Err(ArklibError::Collision(_))
    ));
    let fresh = zeros_entry(FILE_SIZE_2 as usize, 4);
    let changed = index.update_one("/r/a".to_string(), a.id, fresh).unwrap();
    assert_eq!(changed.deleted, vec![a.id]);
    assert_eq!(changed.added, vec![("/r/a".to_string(), fresh.id)]);
    assert!(!index.contains(a.id));
}

#[test]
fn forget_id_removes_every_path() {
    let a = zeros_entry(FILE_SIZE_1 as usize, 1);
    let b = zeros_entry(FILE_SIZE_2 as usize, 1);
    let mut index = ResourceIndex::build(
        "/r".to_string(),
        vec![("/r/a".to_string(), a), ("/r/b".to_string(), b), ("/r/c".to_string(), a)],
    );
    let update = index.forget_id(a.id).unwrap();
    assert_eq!(update.deleted, vec![a.id]);
    assert_eq!(index.size(), 1);
    assert!(!index.contains(a.id));
    assert!(index.contains(b.id));
}

#[test]
fn index_new_refuses_indexed_path() {
    let a = zeros_entry(FILE_SIZE_1 as usize, 1);
    let mut index = ResourceIndex::build("/r".to_string(), vec![("/r/a".to_string(), a)]);
    assert!(matches!(index.index_new("/r/a".to_string(), a), Err(ArklibError::Path(_))));
    assert_eq!(index.size(), 1);
}

#[test]
fn build_keeps_first_entry_of_a_path() {
    let a = zeros_entry(FILE_SIZE_1 as usize, 1);
    let b = zeros_entry(FILE_SIZE_2 as usize, 1);
    let index = ResourceIndex::build(
        "/r".to_string(),
        vec![("/r/a".to_string(), a), ("/r/a".to_string(), b)],
    );
    assert_eq!(index.size(), 1);
    assert_eq!(index.get_entry(&"/r/a".to_string()), Some(a));
}

#[test]
fn unchanged_content_keeps_the_index() {
    let e = zeros_entry(FILE_SIZE_1 as usize, 1);
    let mut index = ResourceIndex::build(
        "/r".to_string(),
        vec![("/r/a".to_string(), e), ("/r/b".to_string(), e)],
    );
    let update = index.update_one("/r/b".to_string(), e.id, e).unwrap();
    assert_eq!(update.deleted.len() + update.added.len(), 0);
    assert_eq!(index.get_path(e.id), Some("/r/a".to_string()));
    assert_eq!(index.collision_count(e.id), Some(2));
}

#[test]
fn later_path_keeps_the_representative() {
    let e = zeros_entry(FILE_SIZE_1 as usize, 1);
    let mut index = ResourceIndex::build("/r".to_string(), vec![("/r/a".to_string(), e)]);
    index.index_new("/r/z".to_string(), e).unwrap();
    assert_eq!(index.get_path(e.id), Some("/r/a".to_string()));
    assert_eq!(index.list_ids(), vec![e.id]);
}

#[test]
fn snapshot_lines_are_relative_and_ordered() {
    let e = |m: u64| IndexEntry { modified: m, id: ResourceId { data_size: 10, hash: 3817498742 } };
    let index = ResourceIndex::build(
        "/r".to_string(),
        vec![("/r/sub/b".to_string(), e(2)), ("/r/a".to_string(), e(1))],
    );
    assert_eq!(
        index.snapshot_lines().unwrap(),
        vec!["1 10-3817498742 a".to_string(), "2 10-3817498742 sub/b".to_string()]
    );
}

#[test]
fn candidate_errors_are_path_errors() {
    assert!(matches!(check_candidate(true, 5), Err(ArklibError::Path(_))));
    assert!(matches!(check_candidate(false, 0), Err(ArklibError::Path(_))));
}
