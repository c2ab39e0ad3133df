use std::path::Path;

use assets_manager::assets::get_asset_path;
use assets_manager::config::Config;
use assets_manager::status::Status;
use assets_manager::storage::{parent_path, StoragePath};
use assets_manager::tags::delete_tag_path;

/// The storage directory the tests resolve in: `./upload` where it exists;
/// the tests cannot create directories, so elsewhere the directory of the
/// tests themselves, which always exists, stands in for it.
fn storage_dir() -> &'static str {
    if Path::new("./upload").exists() {
        "./upload"
    } else {
        "./tests"
    }
}

#[test]
fn test_storage_valid() {
    let storage_path_res = StoragePath::new(storage_dir());

    assert!(!storage_path_res.is_err());

    let storage_path = storage_path_res.unwrap();

    let resolved_path = storage_path.resolve("test-tag/test-file.txt");
    assert!(resolved_path.is_ok());

    let resolved_path = resolved_path.unwrap();
    let resolved_path_str = resolved_path.as_str();

    let test_path = Path::new(storage_dir()).canonicalize().unwrap();
    let joined_path = test_path.join("test-tag/test-file.txt");
    let test_path_str = joined_path.to_str().unwrap();

    assert!(
        resolved_path_str == test_path_str,
        "Resolved path: {}, Test path: {}",
        resolved_path_str,
        test_path_str
    );
}

#[test]
fn test_storage_bad_request() {
    let storage_path_res = StoragePath::new(storage_dir());

    assert!(!storage_path_res.is_err());

    let storage_path = storage_path_res.unwrap();

    let resolved_path = storage_path.resolve("../");
    assert!(resolved_path.is_err());
    assert!(resolved_path.unwrap_err() == Status::BadRequest);
}

#[test]
fn test_storage_normalize_path() {
    let path1 = "/test/home/dir1/../dir2";

    let normalized_path1 = StoragePath::normalize_path(path1);
    assert_eq!(normalized_path1.as_str(), "/test/home/dir2");
}

#[test]
fn normalize_keeps_trailing_separator() {
    assert_eq!(StoragePath::normalize_path("/a/b/../c/"), "/a/c/");
    assert_eq!(StoragePath::normalize_path("/a/"), "/a/");
    assert_eq!(StoragePath::normalize_path("/"), "/");
    assert_eq!(StoragePath::normalize_path(""), "");
}

#[test]
fn normalize_drops_current_dir_and_repeated_separators() {
    assert_eq!(StoragePath::normalize_path("/a//./b/."), "/a/b");
    assert_eq!(StoragePath::normalize_path("./a/b"), "./a/b");
    assert_eq!(StoragePath::normalize_path("a/./b"), "a/b");
    assert_eq!(StoragePath::normalize_path("."), ".");
}

#[test]
fn normalize_parent_steps_at_the_edges() {
    // `..` right after the root stays, a second one removes it again.
    assert_eq!(StoragePath::normalize_path("/.."), "/..");
    assert_eq!(StoragePath::normalize_path("/../.."), "/");
    // In a relative path a first `..` stays, the next one removes it.
    assert_eq!(StoragePath::normalize_path(".."), "..");
    assert_eq!(StoragePath::normalize_path("../.."), "");
    assert_eq!(StoragePath::normalize_path("../x"), "../x");
    assert_eq!(StoragePath::normalize_path("./.."), "");
    assert_eq!(StoragePath::normalize_path("a/../../b"), "../b");
}

#[test]
fn normalize_is_idempotent_on_examples() {
    for p in ["/test/home/dir1/../dir2", "a/../../b/", "/../x/./y//", "./..", "../..", "x/"] {
        let once = StoragePath::normalize_path(p);
        let twice = StoragePath::normalize_path(&once);
        assert_eq!(once, twice);
    }
}

#[test]
fn resolve_rejects_escapes_and_absolute_paths() {
    let storage = StoragePath::new(storage_dir()).unwrap();
    assert_eq!(storage.resolve("a/../../x"), Err(Status::BadRequest));
    assert_eq!(storage.resolve("/etc/passwd"), Err(Status::BadRequest));
    assert_eq!(storage.resolve(".."), Err(Status::BadRequest));
}

#[test]
fn resolve_accepts_paths_that_stay_inside() {
    let storage = StoragePath::new(storage_dir()).unwrap();
    let base = storage.base().to_string();
    assert_eq!(storage.resolve("a/../b"), Ok(format!("{}/b", base)));
    assert_eq!(storage.resolve("./v1/x.js"), Ok(format!("{}/v1/x.js", base)));
    assert_eq!(storage.resolve("v1/dir/"), Ok(format!("{}/v1/dir/", base)));
    assert_eq!(storage.resolve(""), Ok(format!("{}/", base)));
}

#[test]
fn new_fails_for_missing_directory() {
    let r = StoragePath::new("./this-directory-does-not-exist-anywhere");
    assert!(matches!(r, Err(Status::InternalServerError)));
}

#[test]
fn from_canonical_keeps_the_path() {
    let s = StoragePath::from_canonical(Some("/srv/assets".to_string())).unwrap();
    assert_eq!(s.base(), "/srv/assets");
    assert!(matches!(StoragePath::from_canonical(None), Err(Status::InternalServerError)));
}

#[test]
fn tag_dir_stays_strictly_inside() {
    let s = StoragePath::from_canonical(Some("/srv/assets".to_string())).unwrap();
    assert_eq!(s.tag_dir("v1.0.0"), Ok("/srv/assets/v1.0.0".to_string()));
    // Neither the parent of the storage directory nor the directory itself.
    assert_eq!(s.tag_dir(".."), Err(Status::BadRequest));
    assert_eq!(s.tag_dir("."), Err(Status::BadRequest));
    assert_eq!(s.tag_dir(""), Err(Status::BadRequest));
    assert_eq!(s.tag_dir("v1/.."), Err(Status::BadRequest));
    assert_eq!(s.tag_dir("/etc"), Err(Status::BadRequest));
    assert_eq!(s.tag_dir("v1/../v2"), Ok("/srv/assets/v2".to_string()));
}

#[test]
fn name_then_parent_cancels_in_normalization() {
    for p in ["/a/b", "a", "", "/", ".", "..", "/.."] {
        let joined = std::path::Path::new(p).join("name").join("..");
        assert_eq!(
            StoragePath::normalize_path(joined.to_str().unwrap()),
            StoragePath::normalize_path(p)
        );
    }
}

#[test]
fn name_then_parent_cancels_in_resolve() {
    let s = StoragePath::from_canonical(Some("/srv/assets".to_string())).unwrap();
    for q in ["v1/a.js", "", "v1/", "../x", "./v2"] {
        assert_eq!(s.resolve(&format!("name/../{}", q)), s.resolve(q));
    }
}

#[test]
fn check_asset_answers() {
    let s = StoragePath::from_canonical(Some("/srv/assets".to_string())).unwrap();
    assert_eq!(s.check_asset(None), Err(Status::NotFound));
    assert_eq!(
        s.check_asset(Some("/srv/assets/v1/a.js".to_string())),
        Ok("/srv/assets/v1/a.js".to_string())
    );
    assert_eq!(s.check_asset(Some("/srv/other/a.js".to_string())), Err(Status::BadRequest));
    // Component-wise, not character-wise, prefix.
    assert_eq!(s.check_asset(Some("/srv/assets2/a.js".to_string())), Err(Status::BadRequest));
    assert_eq!(s.asset_path("v1", "css/a.css"), "/srv/assets/v1/css/a.css");
}

#[test]
fn parent_path_examples() {
    assert_eq!(parent_path("/a/b/c"), Some("/a/b".to_string()));
    assert_eq!(parent_path("/a"), Some("/".to_string()));
    assert_eq!(parent_path("/a/b/"), Some("/a".to_string()));
    assert_eq!(parent_path("/"), None);
    assert_eq!(parent_path(""), None);
    assert_eq!(parent_path("a"), Some("".to_string()));
}

fn tests_config(storage_path: &str) -> Config {
    Config {
        api_token: "test-token".to_string(),
        storage_path: storage_path.to_string(),
        storage_type: "filesystem".to_string(),
    }
}

#[test]
fn get_asset_path_serves_files_inside_storage() {
    let config = tests_config("./tests");
    let base = Path::new("./tests").canonicalize().unwrap();
    let expected = base.join("api_test.rs");
    assert_eq!(
        get_asset_path(".", "api_test.rs", &config),
        Ok(expected.to_str().unwrap().to_string())
    );
}

#[test]
fn get_asset_path_missing_file_is_not_found() {
    let config = tests_config("./tests");
    assert_eq!(get_asset_path("v1.0.0", "test-file.txt", &config), Err(Status::NotFound));
}

#[test]
fn get_asset_path_outside_storage_is_a_bad_request() {
    let config = tests_config("./tests");
    assert_eq!(get_asset_path("..", "src/lib.rs", &config), Err(Status::BadRequest));
}

#[test]
fn get_asset_path_without_storage_is_a_server_error() {
    let config = tests_config("./no-such-storage-directory");
    assert_eq!(get_asset_path("v1", "a.js", &config), Err(Status::InternalServerError));
}

#[test]
fn delete_tag_path_examples() {
    let config = tests_config("./tests");
    let base = Path::new("./tests").canonicalize().unwrap();
    assert_eq!(
        delete_tag_path("v1.0.0", &config),
        Ok(base.join("v1.0.0").to_str().unwrap().to_string())
    );
    assert_eq!(delete_tag_path("/etc", &config), Err(Status::BadRequest));
    assert_eq!(delete_tag_path("..", &config), Err(Status::BadRequest));
    assert_eq!(delete_tag_path(".", &config), Err(Status::BadRequest));
    let missing = tests_config("./no-such-storage-directory");
    assert_eq!(delete_tag_path("v1", &missing), Err(Status::InternalServerError));
}

#[test]
fn name_then_parent_cancels_up_to_the_trailing_separator() {
    // The normal form keeps a trailing separator; after `name/..` there is none.
    assert_eq!(StoragePath::normalize_path("/a/"), "/a/");
    assert_eq!(StoragePath::normalize_path("/a/name/.."), "/a");
    assert_eq!(parent_path("/a/"), parent_path("/a"));
}
