use y_sweet_server::config::{
    begins_with, parse_store_location, s3_location, without_leading_slashes, ConfigError,
    StoreLocation, UrlParts,
};

fn parts(scheme: &str, host: Option<&str>, path: &str) -> UrlParts {
    UrlParts { scheme: scheme.to_owned(), host: host.map(str::to_owned), path: path.to_owned() }
}

#[test]
fn s3_location_names_bucket_and_prefix() {
    match parse_store_location("s3://my-bucket/some/prefix") {
        Ok(StoreLocation::S3 { bucket, prefix }) => {
            assert_eq!(bucket, "my-bucket");
            assert_eq!(prefix, "some/prefix");
        }
        other => panic!("unexpected {:?}", other),
    }
}

#[test]
fn s3_location_without_path_has_empty_prefix() {
    match parse_store_location("s3://my-bucket") {
        Ok(StoreLocation::S3 { bucket, prefix }) => {
            assert_eq!(bucket, "my-bucket");
            assert_eq!(prefix, "");
        }
        other => panic!("unexpected {:?}", other),
    }
}

#[test]
fn s3_location_loses_all_leading_slashes() {
    match parse_store_location("s3://b///x/y/") {
        Ok(StoreLocation::S3 { bucket, prefix }) => {
            assert_eq!(bucket, "b");
            assert_eq!(prefix, "x/y/");
        }
        other => panic!("unexpected {:?}", other),
    }
}

#[test]
fn any_other_location_is_a_directory() {
    for path in ["/var/data", "data", "", "S3://bucket", "s3:/bucket", "http://host/x", " s3://b"] {
        match parse_store_location(path) {
            Ok(StoreLocation::FileSystem { path: taken }) => assert_eq!(taken, path),
            other => panic!("unexpected {:?}", other),
        }
    }
}

#[test]
fn malformed_s3_url_is_refused() {
    assert!(matches!(
        parse_store_location("s3://bucket:notaport/x"),
        Err(ConfigError::InvalidUrl(url::ParseError::InvalidPort))
    ));
}

#[test]
fn s3_location_from_parts() {
    assert!(matches!(
        s3_location(&parts("s3", None, "/x")),
        Err(ConfigError::InvalidS3Url)
    ));
    assert!(matches!(
        s3_location(&parts("http", Some("host"), "/x")),
        Err(ConfigError::InvalidS3Url)
    ));
    assert!(matches!(
        s3_location(&parts("s3x", Some("host"), "/x")),
        Err(ConfigError::InvalidS3Url)
    ));
    assert!(matches!(
        s3_location(&parts("s", Some("host"), "/x")),
        Err(ConfigError::InvalidS3Url)
    ));
    match s3_location(&parts("s3", Some("host"), "//x/")) {
        Ok(StoreLocation::S3 { bucket, prefix }) => {
            assert_eq!(bucket, "host");
            assert_eq!(prefix, "x/");
        }
        other => panic!("unexpected {:?}", other),
    }
}

#[test]
fn text_helpers() {
    assert!(begins_with("s3://x", "s3://"));
    assert!(begins_with("s3://", "s3://"));
    assert!(!begins_with("s3:/", "s3://"));
    assert!(begins_with("abc", ""));
    assert!(begins_with("\u{e9}t\u{e9}", "\u{e9}t"));
    assert_eq!(without_leading_slashes("///a/b"), "a/b");
    assert_eq!(without_leading_slashes("a/b"), "a/b");
    assert_eq!(without_leading_slashes("///"), "");
    assert_eq!(without_leading_slashes(""), "");
    assert_eq!(without_leading_slashes("/\u{e9}/"), "\u{e9}/");
}
