use cdd_storage::error::AppError;
use cdd_storage::storage::{
    FsOutcome, LocalDiskStore, ModifiedTime, ReadPlan, StoreKey,
};
use std::io;

fn failed<T>(not_found: bool) -> FsOutcome<T> {
    let error = if not_found {
        io::Error::from(io::ErrorKind::NotFound)
    } else {
        io::Error::other("permission denied")
    };
    FsOutcome::Failed { error, not_found }
}

#[test]
fn test_store_key() {
    let key = StoreKey::new(String::from("foo/bar.txt"));
    assert_eq!(key.as_str(), "foo/bar.txt");
}

#[test]
fn store_keys_compare_by_path() {
    let a = StoreKey::new(String::from("org/repo/v1/artifact.bin"));
    let b = a.clone();
    assert_eq!(a, b);
    assert_ne!(a, StoreKey::new(String::from("org/repo/v2/artifact.bin")));
}

fn resolve(base: &str, key: &str) -> String {
    LocalDiskStore::new(String::from(base)).resolve_path(&StoreKey::new(String::from(key)))
}

fn dir(base: &str, key: &str) -> String {
    LocalDiskStore::new(String::from(base)).artifact_dir(&StoreKey::new(String::from(key)))
}

#[test]
fn resolve_adds_one_separator() {
    assert_eq!(resolve("/data", "org/repo/v1/data.bin"), "/data/org/repo/v1/data.bin");
    assert_eq!(resolve("/data/", "org/x"), "/data/org/x");
    assert_eq!(resolve("./data", "a"), "./data/a");
}

#[test]
fn resolve_onto_empty_base_is_the_key() {
    assert_eq!(resolve("", "org/repo"), "org/repo");
    assert_eq!(resolve("", ""), "");
}

#[test]
fn resolve_keeps_absolute_key_below_root() {
    assert_eq!(resolve("/data", "/etc/passwd"), "/data/etc/passwd");
    assert_eq!(resolve("/data", "//x"), "/data/x");
}

#[test]
fn resolve_parent_steps_stop_at_root() {
    assert_eq!(resolve("/data", "../x"), "/data/x");
    assert_eq!(resolve("/data", "a/../../x"), "/data/x");
    assert_eq!(resolve("/data", "a/b/../c"), "/data/a/c");
    assert_eq!(resolve("/data", "a/.."), "/data/");
    assert_eq!(resolve("/data", ".."), "/data/");
}

#[test]
fn resolve_drops_empty_and_current_components() {
    assert_eq!(resolve("/data", "a//b/./c/"), "/data/a/b/c");
    assert_eq!(resolve("/data", "./a"), "/data/a");
}

#[test]
fn resolve_keeps_names_with_dots() {
    assert_eq!(resolve("/data", "a/..b/c.."), "/data/a/..b/c..");
    assert_eq!(resolve("/data", "a/.x"), "/data/a/.x");
    assert_eq!(resolve("/data", "v1.2/x"), "/data/v1.2/x");
}

#[test]
fn resolve_empty_key_is_the_root_directory() {
    assert_eq!(resolve("/data", ""), "/data/");
}

#[test]
fn resolve_matches_std_path_join_for_plain_keys() {
    let cases = [
        ("/data", "org/repo/v1/data.bin"),
        ("/data/", "dir"),
        ("", "x/y"),
        ("rel", "a"),
        ("/", "a"),
        ("\u{e9}/\u{fc}", "\u{df}/\u{65e5}\u{672c}"),
    ];
    for (base, key) in cases {
        let expected = std::path::Path::new(base).join(key);
        assert_eq!(resolve(base, key), expected.to_str().unwrap(), "{base:?} + {key:?}");
    }
}

#[test]
fn resolve_path_is_below_base_dir() {
    let store = LocalDiskStore::new(String::from("/srv/artifacts"));
    let key = StoreKey::new(String::from("org/repo/v1/data.bin"));
    assert_eq!(store.resolve_path(&key), "/srv/artifacts/org/repo/v1/data.bin");
}

#[test]
fn artifact_dir_is_all_but_the_last_component() {
    assert_eq!(dir("/data", "org/repo/v1/artifact.bin"), "/data/org/repo/v1");
    assert_eq!(dir("/data", "x"), "/data/");
    assert_eq!(dir("/data", ""), "/data/");
    assert_eq!(dir("", "x"), "");
    assert_eq!(dir("/data", "../a/b"), "/data/a");
}

#[test]
fn put_step_maps_every_failure_to_io_error() {
    assert!(LocalDiskStore::put_step(FsOutcome::Done(())).is_ok());
    assert!(matches!(LocalDiskStore::put_step(failed(true)), Err(AppError::IoError(_))));
    assert!(matches!(LocalDiskStore::put_step(failed(false)), Err(AppError::IoError(_))));
}

#[test]
fn lookup_of_missing_file_is_absent() {
    assert!(matches!(LocalDiskStore::lookup_step(failed(true)), Ok(ReadPlan::Absent)));
}

#[test]
fn lookup_failure_other_than_missing_is_io_error() {
    assert!(matches!(LocalDiskStore::lookup_step(failed(false)), Err(AppError::IoError(_))));
}

#[test]
fn lookup_reads_file_with_its_timestamp() {
    let plan = LocalDiskStore::lookup_step(FsOutcome::Done(ModifiedTime::Since(1_700_000_000)));
    assert!(matches!(plan, Ok(ReadPlan::ReadFile { modified: Some(1_700_000_000) })));
    let plan = LocalDiskStore::lookup_step(FsOutcome::Done(ModifiedTime::Unavailable));
    assert!(matches!(plan, Ok(ReadPlan::ReadFile { modified: Some(0) })));
    let plan = LocalDiskStore::lookup_step(FsOutcome::Done(ModifiedTime::BeforeEpoch));
    assert!(matches!(plan, Ok(ReadPlan::ReadFile { modified: None })));
}

#[test]
fn read_step_returns_content_and_timestamp() {
    let got = LocalDiskStore::read_step(FsOutcome::Done(b"hello world".to_vec()), Some(42)).unwrap();
    assert_eq!(got.data, b"hello world");
    assert_eq!(got.modified, Some(42));
    assert!(matches!(
        LocalDiskStore::read_step(failed(true), Some(42)),
        Err(AppError::IoError(_))
    ));
}

#[test]
fn delete_of_missing_file_succeeds() {
    assert!(LocalDiskStore::delete_step(failed(true)).is_ok());
    assert!(LocalDiskStore::delete_step(FsOutcome::Done(())).is_ok());
    assert!(matches!(LocalDiskStore::delete_step(failed(false)), Err(AppError::IoError(_))));
}

#[test]
fn distinct_keys_resolve_to_distinct_files() {
    let store = LocalDiskStore::new(String::from("/srv"));
    let a = store.resolve_path(&StoreKey::new(String::from("org/repo/v1/artifact.bin")));
    let b = store.resolve_path(&StoreKey::new(String::from("org/repo/v2/artifact.bin")));
    assert_ne!(a, b);
    assert!(a.starts_with("/srv/") && b.starts_with("/srv/"));
}
