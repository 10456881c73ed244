use arklib::atomic_file::atomic::{
    committed, modify, parse_version, scratch_name, CasOutcome, ModifyStep, RetryPolicy,
    MAX_VERSION_FILES,
};
use arklib::atomic_file::{AtomicFile, ReadOnlyFile};
use arklib::ArklibError;

fn names(v: &[&str]) -> Vec<String> {
    v.iter().map(|s| s.to_string()).collect()
}

#[test]
fn parse_version_cases() {
    assert_eq!(parse_version(Some("dir_machine.12")), Some(12));
    assert_eq!(parse_version(Some("a.b.7")), Some(7));
    assert_eq!(parse_version(Some("noversion")), None);
    assert_eq!(parse_version(Some("dir_machine.")), None);
    assert_eq!(parse_version(Some("dir_machine.x1")), None);
    assert_eq!(parse_version(None), None);
}

#[test]
fn file_names() {
    let file = AtomicFile::new("/tmp/dir".to_string(), "dir", "m1");
    assert_eq!(file.path(3), "dir_m1.3");
    assert_eq!(file.directory(), "/tmp/dir");
}

#[test]
fn load_of_empty_directory() {
    let file = AtomicFile::new("/tmp/dir".to_string(), "dir", "m1");
    let current = file.load(&names(&["scratch"]));
    assert_eq!(current.version(), 0);
    assert_eq!(current.open(), None);
    assert_eq!(current.read_content(vec![]), Err(ArklibError::NotFound));
    assert_eq!(current.read_to_string(vec![]), Err(ArklibError::NotFound));
}

#[test]
fn load_prefers_own_file_at_a_tie() {
    let file = AtomicFile::new("/tmp/dir".to_string(), "dir", "m1");
    let current = file.load(&names(&["dir_phone.2", "dir_m1.1", "dir_m1.2"]));
    assert_eq!(current.version(), 2);
    assert_eq!(current.open(), Some(&"dir_m1.2".to_string()));
    let other = file.load(&names(&["dir_b.2", "dir_a.2", "dir_m1.1"]));
    assert_eq!(other.open(), Some(&"dir_b.2".to_string()));
}

#[test]
fn read_content_of_a_version() {
    let file = AtomicFile::new("/tmp/dir".to_string(), "dir", "m1");
    let current: ReadOnlyFile = file.load(&names(&["dir_m1.1"]));
    assert_eq!(current.read_content(vec![1, 2]), Ok(vec![1, 2]));
    assert_eq!(current.read_to_string(b"abc".to_vec()), Ok("abc".to_string()));
    assert_eq!(current.read_to_string(vec![0xff, 0xfe]), Err(ArklibError::Parse));
}

#[test]
fn only_one_writer_commits_over_a_version() {
    let file = AtomicFile::new("/tmp/dir".to_string(), "dir", "m1");
    let mut dir: Vec<String> = vec![];
    let handles: Vec<ReadOnlyFile> = (0..5).map(|_| file.load(&dir)).collect();
    let mut successes = 0;
    for handle in &handles {
        match file.commit_target(handle, &dir) {
            Ok(target) => {
                if !dir.contains(&target) {
                    dir.push(target);
                    successes += 1;
                }
            }
            Err(e) => assert_eq!(e, ArklibError::AlreadyExists),
        }
    }
    assert_eq!(successes, 1);
    assert_eq!(dir, names(&["dir_m1.1"]));
}

#[test]
fn pruning_keeps_the_window() {
    let file = AtomicFile::new("/tmp/dir".to_string(), "dir", "m1");
    let mut dir: Vec<String> = vec![];
    let versions = 20;
    assert!(versions > MAX_VERSION_FILES);
    for _ in 0..versions {
        let current = file.load(&dir);
        let target = file.commit_target(&current, &dir).unwrap();
        dir.push(target);
        let doomed = file.prune_candidates(&dir, current.version());
        dir.retain(|n| !doomed.contains(n));
    }
    assert_eq!(dir.len(), MAX_VERSION_FILES);
    assert_eq!(file.load(&dir).version(), 20);
}

#[test]
fn pruning_with_fewer_versions_keeps_all() {
    let file = AtomicFile::new("/tmp/dir".to_string(), "dir", "m1");
    let mut dir: Vec<String> = vec![];
    for _ in 0..3 {
        let current = file.load(&dir);
        dir.push(file.commit_target(&current, &dir).unwrap());
        let doomed = file.prune_candidates(&dir, current.version());
        assert!(doomed.is_empty());
    }
    assert_eq!(dir.len(), 3);
}

#[test]
fn modify_decisions() {
    let unbounded = RetryPolicy { max_attempts: None };
    let bounded = RetryPolicy { max_attempts: Some(3) };
    assert!(matches!(modify(&unbounded, 1, CasOutcome::Committed(2)), ModifyStep::Done(2)));
    assert!(matches!(modify(&unbounded, 9, CasOutcome::Conflict), ModifyStep::Retry));
    assert!(matches!(modify(&bounded, 2, CasOutcome::Conflict), ModifyStep::Retry));
    assert!(matches!(
        modify(&bounded, 3, CasOutcome::Conflict),
        ModifyStep::Fail(ArklibError::Contention)
    ));
    match modify(&unbounded, 1, CasOutcome::Failed(ArklibError::Io("disk full".to_string()))) {
        ModifyStep::Fail(ArklibError::Io(m)) => assert_eq!(m, "disk full"),
        _ => panic!("expected an I/O failure"),
    }
    assert!(matches!(
        modify(&unbounded, 1, CasOutcome::Failed(ArklibError::NotFound)),
        ModifyStep::Fail(ArklibError::NotFound)
    ));
}

#[test]
fn racing_modifiers_all_land() {
    let file = AtomicFile::new("/tmp/dir".to_string(), "dir", "m1");
    let policy = RetryPolicy { max_attempts: None };
    let mut dir: Vec<(String, Vec<u8>)> = vec![];
    let writers = 10u8;
    let mut pending: Vec<u8> = (0..writers).collect();
    let mut attempts = vec![0u64; writers as usize];
    while !pending.is_empty() {
        let listing: Vec<String> = dir.iter().map(|(n, _)| n.clone()).collect();
        let loaded: Vec<(u8, ReadOnlyFile, Vec<u8>)> = pending
            .iter()
            .map(|w| {
                let handle = file.load(&listing);
                let content = match handle.open() {
                    Some(n) => dir.iter().find(|(m, _)| m == n).unwrap().1.clone(),
                    None => vec![],
                };
                (*w, handle, content)
            })
            .collect();
        let mut still = vec![];
        for (w, handle, mut content) in loaded {
            content.push(w);
            attempts[w as usize] += 1;
            let listing: Vec<String> = dir.iter().map(|(n, _)| n.clone()).collect();
            let outcome = match file.commit_target(&handle, &listing) {
                Ok(target) if !listing.contains(&target) => {
                    dir.push((target, content));
                    CasOutcome::Committed(0)
                }
                Ok(_) | Err(ArklibError::AlreadyExists) => CasOutcome::Conflict,
                Err(e) => CasOutcome::Failed(e),
            };
            match modify(&policy, attempts[w as usize], outcome) {
                ModifyStep::Done(_) => {}
                ModifyStep::Retry => still.push(w),
                ModifyStep::Fail(e) => panic!("{:?}", e),
            }
        }
        pending = still;
    }
    let listing: Vec<String> = dir.iter().map(|(n, _)| n.clone()).collect();
    let last = file.load(&listing);
    let name = last.open().unwrap().clone();
    let content = dir.iter().find(|(n, _)| *n == name).unwrap().1.clone();
    assert_eq!(content.len(), writers as usize);
    for w in 0..writers {
        assert_eq!(content.iter().filter(|b| **b == w).count(), 1);
    }
}

#[test]
fn link_count_fallback() {
    assert!(committed(true, None));
    assert!(committed(false, Some(2)));
    assert!(!committed(false, Some(1)));
    assert!(!committed(false, None));
}

#[test]
fn scratch_names_are_alphanumeric() {
    let name = scratch_name();
    assert_eq!(name.chars().count(), 10);
    assert!(name.chars().all(|c| c.is_ascii_alphanumeric()));
}
