use assets_manager::auth_guard::IsAuth;
use assets_manager::config::Config;
use assets_manager::status::Status;

fn config() -> Config {
    Config {
        api_token: "test-token".to_string(),
        storage_path: "./upload".to_string(),
        storage_type: "filesystem".to_string(),
    }
}

#[test]
fn bearer_token_is_accepted() {
    let c = config();
    assert!(IsAuth::authorize(Some(&c), Some("Bearer test-token")).is_ok());
}

#[test]
fn missing_header_is_unauthorized() {
    let c = config();
    assert!(matches!(IsAuth::authorize(Some(&c), None), Err(Status::Unauthorized)));
}

#[test]
fn wrong_headers_are_unauthorized() {
    let c = config();
    for h in ["test-token", "Bearer test-token ", "bearer test-token", "Bearer other", ""] {
        assert!(matches!(IsAuth::authorize(Some(&c), Some(h)), Err(Status::Unauthorized)));
    }
}

#[test]
fn missing_configuration_is_a_server_error() {
    assert!(matches!(
        IsAuth::authorize(None, Some("Bearer test-token")),
        Err(Status::InternalServerError)
    ));
}

#[test]
fn empty_token_accepts_bare_bearer() {
    let mut c = config();
    c.api_token = String::new();
    assert!(IsAuth::authorize(Some(&c), Some("Bearer ")).is_ok());
    assert!(IsAuth::authorize(Some(&c), None).is_err());
}
