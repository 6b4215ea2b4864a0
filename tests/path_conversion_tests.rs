use quantum_config::path_conversion::{
    detect_format, is_unix_format, is_windows_format, normalize_for_platform, to_native, to_unix,
    to_windows, PathFormat,
};

#[test]
fn test_unix_to_windows_conversion() {
    let unix_path = "/home/user/config.toml";
    let windows_result = to_windows(unix_path).unwrap();
    assert!(windows_result.contains('\\') || windows_result == unix_path);
}

#[test]
fn test_windows_to_unix_conversion() {
    let windows_path = "C:\\Users\\user\\config.toml";
    let unix_result = to_unix(windows_path).unwrap();
    assert!(unix_result.contains('/') || unix_result == windows_path);
}

#[test]
fn test_pathbuf_conversion() {
    let path = String::from("test/path/file.txt");
    let unix_result = to_unix(&path).unwrap();
    let windows_result = to_windows(&path).unwrap();

    assert!(!unix_result.is_empty());
    assert!(!windows_result.is_empty());
}

#[test]
fn test_native_format_conversion() {
    let path = "test/path/file.txt";
    let native_result = to_native(path).unwrap();
    assert!(!native_result.is_empty());
}

#[test]
fn test_format_detection() {
    assert_eq!(detect_format("/unix/path"), PathFormat::Unix);
    assert_eq!(detect_format("C:\\windows\\path"), PathFormat::Windows);
    assert_eq!(detect_format("ambiguous"), PathFormat::Unknown);
}

#[test]
fn test_utility_functions() {
    let path = "test/file.txt";

    let unix_result = to_unix(path).unwrap();
    let windows_result = to_windows(path).unwrap();
    let native_result = to_native(path).unwrap();

    assert!(!unix_result.is_empty());
    assert!(!windows_result.is_empty());
    assert!(!native_result.is_empty());
}

#[test]
fn test_normalize_for_platform() {
    let path = "test/file.txt";

    let unix_normalized = normalize_for_platform(path, false).unwrap();
    let windows_normalized = normalize_for_platform(path, true).unwrap();

    assert!(!unix_normalized.is_empty());
    assert!(!windows_normalized.is_empty());
}

#[test]
fn windows_form_uses_backslashes() {
    assert_eq!(to_windows("test/file.txt").unwrap(), "test\\file.txt");
    assert_eq!(to_unix("test/file.txt").unwrap(), "test/file.txt");
}

#[test]
fn format_predicates() {
    assert!(is_unix_format("a/b"));
    assert!(!is_unix_format("a\\b/c"));
    assert!(is_windows_format("a\\b"));
    assert!(!is_windows_format("a/b"));
}
