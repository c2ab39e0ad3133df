use assets_manager::health::health;
use assets_manager::host::RequestInfo;
use assets_manager::status::Status;
use assets_manager::storage::StoragePath;
use assets_manager::tags::{tags_list, DirEntryInfo};
use assets_manager::upload::{decimal_string, extracted_message, upload_target, zip_upload_target};

#[test]
fn health_is_ok_with_storage() {
    assert_eq!(health(true).status, "ok");
}

#[test]
fn health_is_degraded_without_storage() {
    assert_eq!(health(false).status, "degraded");
}

fn entry(is_dir: Option<bool>, name: Option<&str>) -> Option<DirEntryInfo> {
    Some(DirEntryInfo { is_dir, name: name.map(|n| n.to_string()) })
}

#[test]
fn tags_are_the_readable_directories_in_order() {
    let listing = vec![
        entry(Some(true), Some("v1.0.0")),
        entry(Some(false), Some("notes.txt")),
        None,
        entry(None, Some("unknown")),
        entry(Some(true), None),
        entry(Some(true), Some("test-tag")),
    ];
    let r = tags_list(Some(listing));
    assert_eq!(r.tags, vec!["v1.0.0".to_string(), "test-tag".to_string()]);
}

#[test]
fn no_tags_without_storage() {
    assert!(tags_list(None).tags.is_empty());
    assert!(tags_list(Some(Vec::new())).tags.is_empty());
}

#[test]
fn request_info_defaults() {
    let r = RequestInfo::from_headers(None, None);
    assert_eq!(r.protocol, "http");
    assert_eq!(r.host, "localhost");
    let r = RequestInfo::from_headers(Some("https"), Some("cdn.example.org"));
    assert_eq!(r.protocol, "https");
    assert_eq!(r.host, "cdn.example.org");
}

#[test]
fn asset_url_from_request_info() {
    let r = RequestInfo::from_headers(None, None);
    assert_eq!(r.url_of("/v1.0.0/test-file.txt"), "http://localhost/v1.0.0/test-file.txt");
}

#[test]
fn upload_target_of_a_file() {
    let s = StoragePath::from_canonical(Some("/srv/assets".to_string())).unwrap();
    let t = upload_target(&s, "v1.0.0", "test-file.txt").unwrap();
    assert_eq!(t.path, "/srv/assets/v1.0.0/test-file.txt");
    assert_eq!(t.dir, "/srv/assets/v1.0.0");
    let t = upload_target(&s, "v1", "css/site.css").unwrap();
    assert_eq!(t.path, "/srv/assets/v1/css/site.css");
    assert_eq!(t.dir, "/srv/assets/v1/css");
}

#[test]
fn upload_target_refuses_escapes() {
    let s = StoragePath::from_canonical(Some("/srv/assets".to_string())).unwrap();
    assert!(matches!(upload_target(&s, "v1", "../../etc/passwd"), Err(Status::BadRequest)));
    assert!(matches!(upload_target(&s, "v1", "/etc/passwd"), Err(Status::BadRequest)));
}

#[test]
fn upload_target_without_parent_is_a_server_error() {
    let s = StoragePath::from_canonical(Some("/".to_string())).unwrap();
    // Resolves to the root itself, which has no parent.
    assert!(matches!(zip_upload_target(&s, ""), Err(Status::InternalServerError)));
}

#[test]
fn zip_upload_target_of_a_tag() {
    let s = StoragePath::from_canonical(Some("/srv/assets".to_string())).unwrap();
    let t = zip_upload_target(&s, "v2").unwrap();
    assert_eq!(t.path, "/srv/assets/v2");
    assert_eq!(t.dir, "/srv/assets");
    assert!(matches!(zip_upload_target(&s, ".."), Err(Status::BadRequest)));
}

#[test]
fn decimal_notation() {
    assert_eq!(decimal_string(0), "0");
    assert_eq!(decimal_string(7), "7");
    assert_eq!(decimal_string(10), "10");
    assert_eq!(decimal_string(1234567890), "1234567890");
    assert_eq!(decimal_string(usize::MAX), usize::MAX.to_string());
}

#[test]
fn extracted_message_text() {
    assert_eq!(extracted_message(3, "v1.0.0"), "Extracted 3 files to v1.0.0");
    assert_eq!(extracted_message(0, "t"), "Extracted 0 files to t");
}

#[test]
fn status_codes() {
    assert_eq!(Status::BadRequest.code(), 400);
    assert_eq!(Status::Unauthorized.code(), 401);
    assert_eq!(Status::NotFound.code(), 404);
    assert_eq!(Status::InternalServerError.code(), 500);
}

#[test]
fn upload_lands_where_the_asset_is_looked_up() {
    let s = StoragePath::from_canonical(Some("/srv/assets".to_string())).unwrap();
    for (tag, file) in [("v1.0.0", "test-file.txt"), ("v1", "css/./site.css"), ("v1", "a/../b.js")] {
        let t = upload_target(&s, tag, file).unwrap();
        assert_eq!(t.path, StoragePath::normalize_path(&s.asset_path(tag, file)));
    }
}
