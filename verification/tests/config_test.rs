use assets_manager::config::Config;

fn s(v: &str) -> Option<String> {
    Some(v.to_string())
}

#[test]
fn test_valid_config() {
    let config = match Config::from_vars(s("test-token"), s("./test-uploads"), s("filesystem")) {
        Ok(c) => c,
        Err(e) => panic!("Failed to load config: {}", e),
    };
    assert_eq!(config.api_token, "test-token");
    assert_eq!(config.storage_type, "filesystem");
    assert_eq!(config.storage_path, "./test-uploads")
}

#[test]
fn test_missing_api_token() {
    let config = Config::from_vars(None, s("./test-uploads"), s("filesystem"));
    assert!(config.is_err());
    assert!(config.err().unwrap().contains("API_TOKEN"));
}

#[test]
fn test_invalid_storage_type() {
    let config = Config::from_vars(s("test-token"), s("./test-uploads"), s("invalid"));
    assert!(config.is_err());
    assert!(config.err().unwrap().contains("Invalid storage type"));
}

#[test]
fn missing_variables_are_all_named_in_order() {
    let e = Config::from_vars(None, None, None).err().unwrap();
    assert_eq!(e, "Missing environment variables: API_TOKEN, STORAGE_PATH, STORAGE_TYPE");
    let e = Config::from_vars(s("t"), None, s("filesystem")).err().unwrap();
    assert_eq!(e, "Missing environment variables: STORAGE_PATH");
    let e = Config::from_vars(s("t"), s("p"), None).err().unwrap();
    assert_eq!(e, "Missing environment variables: STORAGE_TYPE");
    let e = Config::from_vars(None, s("p"), None).err().unwrap();
    assert_eq!(e, "Missing environment variables: API_TOKEN, STORAGE_TYPE");
}

#[test]
fn invalid_storage_type_message() {
    let e = Config::from_vars(s("t"), s("p"), s("s3")).err().unwrap();
    assert_eq!(e, "Invalid storage type: s3, allowed values filesystem");
    // The comparison is exact.
    let e = Config::from_vars(s("t"), s("p"), s("Filesystem")).err().unwrap();
    assert_eq!(e, "Invalid storage type: Filesystem, allowed values filesystem");
}

#[test]
fn missing_variables_are_reported_before_the_storage_type() {
    let e = Config::from_vars(None, s("p"), s("invalid")).err().unwrap();
    assert_eq!(e, "Missing environment variables: API_TOKEN");
}
