use std::path::PathBuf;

use easyenv::paths::AppPaths;

#[test]
fn derives_db_path_from_data_dir() {
    let paths = AppPaths::from_data_dir("/tmp/easyenv-test");
    assert_eq!(
        PathBuf::from(&paths.db_path),
        PathBuf::from("/tmp/easyenv-test/easyenv.sqlite")
    );
}

#[test]
fn file_store_dir_and_db_dir_follow_the_data_dir() {
    let paths = AppPaths::from_data_dir("/data/");
    assert_eq!(paths.db_path, "/data/easyenv.sqlite");
    assert_eq!(paths.test_secrets_dir, "/data/test-secrets");
    assert_eq!(paths.db_dir(), "/data");
}

#[test]
fn the_database_lives_in_the_data_dir() {
    for dir in ["/home/u/.easyenv", "relative/data", "d"] {
        let paths = AppPaths::from_data_dir(dir);
        assert_eq!(paths.db_dir(), dir);
    }
}
