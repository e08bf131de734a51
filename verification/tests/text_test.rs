use soundvault_lib::error::ScanError;
use soundvault_lib::copy::collision_candidate;
use soundvault_lib::paths::{extension, file_name, file_stem, path_lt, paths_equal};
use soundvault_lib::text::{decimal_chars, sort_dedup_strings};

#[test]
fn path_parts() {
    assert_eq!(file_name("/a/b/c.wav").as_deref(), Some("c.wav"));
    assert_eq!(file_name("/").as_deref(), None);
    assert_eq!(file_stem("/a/b/c.tar.gz").as_deref(), Some("c.tar"));
    assert_eq!(extension("/a/b/c.tar.gz").as_deref(), Some("gz"));
    assert_eq!(extension("/a/.bashrc"), None);
    assert_eq!(collision_candidate("/a", "b", 1), "/a/b");
    assert_eq!(collision_candidate("/a/", "b", 1), "/a/b");
    assert_eq!(collision_candidate("/a", "/b", 1), "/b");
    assert_eq!(collision_candidate("", "b", 1), "b");
}

#[test]
fn path_order_and_equality() {
    assert!(paths_equal("/a//b/", "/a/b"));
    assert!(!paths_equal("/a/b", "/a/c"));
    assert!(path_lt("/a/b", "/a/c"));
    assert!(path_lt("/a", "/a/b"));
    assert!(!path_lt("/a/b", "/a"));
    assert!(!path_lt("/a//b", "/a/b"));
}

#[test]
fn sorted_distinct_strings() {
    let v = vec!["b".to_string(), "a".to_string(), "b".to_string()];
    assert_eq!(sort_dedup_strings(v), vec!["a".to_string(), "b".to_string()]);
}

#[test]
fn decimals() {
    let s: String = decimal_chars(0).into_iter().collect();
    assert_eq!(s, "0");
    let s: String = decimal_chars(100000).into_iter().collect();
    assert_eq!(s, "100000");
}

#[test]
fn error_messages() {
    assert_eq!(ScanError::Cancelled.message(), "scan was cancelled by user");
    assert_eq!(ScanError::PathNotFound("/x".to_string()).message(), "path does not exist: /x");
    assert_eq!(
        ScanError::Xml { path: "/p.als".to_string(), message: "bad".to_string() }.message(),
        "XML parse error in /p.als: bad"
    );
    assert_eq!(ScanError::Other("plain".to_string()).message(), "plain");
    let io = ScanError::io("/f".to_string(), std::io::Error::new(std::io::ErrorKind::Other, "boom"));
    assert_eq!(io.message(), "I/O error at /f: boom");
}

#[test]
fn every_error_has_its_message() {
    assert_eq!(
        ScanError::OutputInsideInput("/in".to_string()).message(),
        "output folder cannot be inside (or equal to) a scanned project folder: /in"
    );
    assert_eq!(ScanError::NoProjectsFound("/m".to_string()).message(), "no Ableton projects found under: /m");
    assert_eq!(ScanError::NoCategoriesSelected.message(), "at least one sample type must be selected");
    assert_eq!(ScanError::NotADirectory("/f".to_string()).message(), "path is not a directory: /f");
    assert_eq!(ScanError::BadTaxonomy("eof".to_string()).message(), "taxonomy file is malformed: eof");
    assert_eq!(
        ScanError::Gzip { path: "/p.als".to_string(), message: "bad".to_string() }.message(),
        "gzip decompression failed in /p.als: bad"
    );
    assert_eq!(ScanError::Config("x".to_string()).message(), "configuration error: x");
}
