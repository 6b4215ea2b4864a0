use quantum_config::providers::file_provider::{ini_to_tree, json_nesting_exceeds, FileFormat, LingoFileProviderGeneric};
use quantum_config::providers::FileReader;
use quantum_config::{ConfigValue, QuantumConfigError};

/// A reader over one file held in memory.
#[derive(Debug, Clone, PartialEq)]
struct MemReader {
    content: Option<String>,
}

impl MemReader {
    fn new() -> Self {
        MemReader { content: None }
    }

    fn with(text: &str) -> Self {
        MemReader { content: Some(text.to_string()) }
    }
}

impl FileReader for MemReader {
    fn read_content(&self, path: &str) -> Result<String, QuantumConfigError> {
        match &self.content {
            Some(c) => Ok(c.clone()),
            None => Err(QuantumConfigError::FileReadError {
                path: path.to_string(),
                message: "not found".to_string(),
            }),
        }
    }

    fn file_exists(&self, _path: &str) -> bool {
        self.content.is_some()
    }
}

fn get<'a>(v: &'a ConfigValue, key: &str) -> Option<&'a ConfigValue> {
    match v {
        ConfigValue::Dict(es) => es.iter().find(|(k, _)| k == key).map(|(_, x)| x),
        _ => None,
    }
}

#[test]
fn test_file_format_from_extension() {
    assert_eq!(FileFormat::from_extension("toml"), Some(FileFormat::Toml));
    assert_eq!(FileFormat::from_extension("json"), Some(FileFormat::Json));
    assert_eq!(FileFormat::from_extension("ini"), Some(FileFormat::Ini));
    assert_eq!(FileFormat::from_extension("txt"), None);
    assert_eq!(FileFormat::from_extension("TOML"), Some(FileFormat::Toml));
}

#[test]
fn test_file_format_extension() {
    assert_eq!(FileFormat::Toml.extension(), "toml");
    assert_eq!(FileFormat::Json.extension(), "json");
    assert_eq!(FileFormat::Ini.extension(), "ini");
}

#[test]
fn test_lingo_file_provider_new() {
    let provider =
        LingoFileProviderGeneric::new("/path/to/config.toml", FileFormat::Toml, true, 100, MemReader::new());

    assert_eq!(provider.path, "/path/to/config.toml");
    assert_eq!(provider.format, FileFormat::Toml);
    assert_eq!(provider.is_required, true);
    assert_eq!(provider.max_parse_depth, 100);
}

#[test]
fn test_lingo_file_provider_from_path_success() {
    let result = LingoFileProviderGeneric::from_path("/path/to/config.toml", true, 100, MemReader::new());
    assert!(result.is_ok());

    let provider = result.unwrap();
    assert_eq!(provider.format, FileFormat::Toml);
}

#[test]
fn test_lingo_file_provider_from_path_unsupported_format() {
    let result = LingoFileProviderGeneric::from_path("/path/to/config.txt", true, 100, MemReader::new());
    assert!(result.is_err());

    match result.unwrap_err() {
        QuantumConfigError::UnsupportedFormat { path } => {
            assert_eq!(path, "/path/to/config.txt");
        }
        _ => panic!("Expected UnsupportedFormat error"),
    }
}

#[test]
fn test_read_nonexistent_required_file() {
    let provider = LingoFileProviderGeneric::new(
        "/nonexistent/config.toml",
        FileFormat::Toml,
        true,
        100,
        MemReader::new(),
    );

    let result = provider.read_and_parse();
    assert!(result.is_err());

    match result.unwrap_err() {
        QuantumConfigError::SpecifiedFileNotFound { path } => {
            assert_eq!(path, "/nonexistent/config.toml");
        }
        _ => panic!("Expected SpecifiedFileNotFound error"),
    }
}

#[test]
fn test_read_nonexistent_optional_file() {
    let provider = LingoFileProviderGeneric::new(
        "/nonexistent/config.toml",
        FileFormat::Toml,
        false,
        100,
        MemReader::new(),
    );

    let result = provider.read_and_parse();
    assert!(result.is_ok());

    match result.unwrap() {
        ConfigValue::Dict(map) => {
            assert!(map.is_empty());
        }
        _ => panic!("Expected empty Dict for nonexistent optional file"),
    }
}

#[test]
fn test_parse_json_content() {
    let provider = LingoFileProviderGeneric::new(
        "/tmp/config.json",
        FileFormat::Json,
        true,
        100,
        MemReader::with("{\"key\": \"value\", \"number\": 42}\n"),
    );

    let result = provider.read_and_parse();
    assert!(result.is_ok());
    let tree = result.unwrap();
    assert_eq!(get(&tree, "key"), Some(&ConfigValue::String("value".to_string())));
    assert_eq!(get(&tree, "number"), Some(&ConfigValue::Int(42)));
}

#[test]
fn test_parse_toml_content() {
    let provider = LingoFileProviderGeneric::new(
        "/tmp/config.toml",
        FileFormat::Toml,
        true,
        100,
        MemReader::with("key = \"value\"\nnumber = 42\n"),
    );

    let result = provider.read_and_parse();
    assert!(result.is_ok());
    let tree = result.unwrap();
    assert_eq!(get(&tree, "number"), Some(&ConfigValue::Int(42)));
}

#[test]
fn test_parse_ini_content() {
    let provider = LingoFileProviderGeneric::new(
        "/tmp/config.ini",
        FileFormat::Ini,
        true,
        100,
        MemReader::with("[section]\nkey = value\nnumber = 42\n"),
    );

    let result = provider.read_and_parse();
    assert!(result.is_ok());
    let tree = result.unwrap();
    let section = get(&tree, "section").unwrap();
    assert_eq!(get(section, "key"), Some(&ConfigValue::String("value".to_string())));
    assert_eq!(get(section, "number"), Some(&ConfigValue::Int(42)));
}

#[test]
fn test_depth_limit_enforcement() {
    let provider =
        LingoFileProviderGeneric::new("/path/to/config.json", FileFormat::Json, true, 2, MemReader::new());

    let deep_json: serde_json::Value = serde_json::from_str(
        "{\"level1\": {\"level2\": {\"level3\": {\"level4\": \"too deep\"}}}}",
    )
    .unwrap();

    let result = provider.convert_json_value_recursive(&deep_json, 0);
    assert!(result.is_err());

    match result.unwrap_err() {
        QuantumConfigError::Internal(message) => {
            assert!(message.contains("depth limit"));
        }
        _ => panic!("Expected Internal error for depth limit"),
    }
}

fn nested_json(levels: usize) -> String {
    let mut s = String::new();
    for _ in 0..levels {
        s.push_str("{\"nested\":");
    }
    s.push_str("\"value\"");
    for _ in 0..levels {
        s.push('}');
    }
    s
}

#[test]
fn deep_json_fails_under_a_small_limit() {
    let provider = LingoFileProviderGeneric::new(
        "/tmp/deep.json",
        FileFormat::Json,
        true,
        32,
        MemReader::with(&nested_json(200)),
    );
    match provider.read_and_parse() {
        Err(QuantumConfigError::Internal(m)) => assert!(m.contains("depth limit")),
        other => panic!("unexpected {:?}", other),
    }
}

#[test]
fn deep_json_succeeds_under_a_large_limit() {
    let provider = LingoFileProviderGeneric::new(
        "/tmp/deep.json",
        FileFormat::Json,
        true,
        200,
        MemReader::with(&nested_json(200)),
    );
    let mut v = provider.read_and_parse().unwrap();
    for _ in 0..200 {
        v = match v {
            ConfigValue::Dict(mut es) => es.remove(0).1,
            other => panic!("unexpected {:?}", other),
        };
    }
    assert_eq!(v, ConfigValue::String("value".to_string()));
}

#[test]
fn malformed_json_is_a_parse_error() {
    let provider =
        LingoFileProviderGeneric::new("/tmp/bad.json", FileFormat::Json, true, 10, MemReader::with("{"));
    match provider.read_and_parse() {
        Err(QuantumConfigError::FileParse { format_name, .. }) => assert_eq!(format_name, "JSON"),
        other => panic!("unexpected {:?}", other),
    }
}

#[test]
fn json_round_trip_keeps_leaves() {
    let original: serde_json::Value = serde_json::from_str(
        "{\"name\": \"svc\", \"port\": 8080, \"ratio\": 0.25, \"debug\": true, \"big\": 18446744073709551615, \"neg\": -5}",
    )
    .unwrap();
    let text = serde_json::to_string(&original).unwrap();
    let provider =
        LingoFileProviderGeneric::new("/tmp/rt.json", FileFormat::Json, true, 10, MemReader::with(&text));
    let tree = provider.read_and_parse().unwrap();
    assert_eq!(get(&tree, "name"), Some(&ConfigValue::String("svc".to_string())));
    assert_eq!(get(&tree, "port"), Some(&ConfigValue::Int(8080)));
    assert_eq!(get(&tree, "ratio"), Some(&ConfigValue::Float("0.25".to_string())));
    assert_eq!(get(&tree, "debug"), Some(&ConfigValue::Bool(true)));
    assert_eq!(get(&tree, "big"), Some(&ConfigValue::UInt(u64::MAX)));
    assert_eq!(get(&tree, "neg"), Some(&ConfigValue::Int(-5)));
}

#[test]
fn toml_round_trip_keeps_leaves() {
    let original: serde_json::Value = serde_json::from_str(
        "{\"name\": \"svc\", \"port\": 8080, \"ratio\": 0.25, \"debug\": false, \"server\": {\"host\": \"h\"}}",
    )
    .unwrap();
    let text = toml::to_string(&original).unwrap();
    let provider =
        LingoFileProviderGeneric::new("/tmp/rt.toml", FileFormat::Toml, true, 10, MemReader::with(&text));
    let tree = provider.read_and_parse().unwrap();
    assert_eq!(get(&tree, "name"), Some(&ConfigValue::String("svc".to_string())));
    assert_eq!(get(&tree, "port"), Some(&ConfigValue::Int(8080)));
    assert_eq!(get(&tree, "ratio"), Some(&ConfigValue::Float("0.25".to_string())));
    assert_eq!(get(&tree, "debug"), Some(&ConfigValue::Bool(false)));
    let server = get(&tree, "server").unwrap();
    assert_eq!(get(server, "host"), Some(&ConfigValue::String("h".to_string())));
}

#[test]
fn ini_round_trip_coerces_leaves() {
    let text = "name = svc\nport = 8080\nratio = 0.25\ndebug = on\n[server]\nhost = h\n";
    let provider =
        LingoFileProviderGeneric::new("/tmp/rt.ini", FileFormat::Ini, true, 10, MemReader::with(text));
    let tree = provider.read_and_parse().unwrap();
    assert_eq!(get(&tree, "name"), Some(&ConfigValue::String("svc".to_string())));
    assert_eq!(get(&tree, "port"), Some(&ConfigValue::Int(8080)));
    assert_eq!(get(&tree, "ratio"), Some(&ConfigValue::Float("0.25".to_string())));
    assert_eq!(get(&tree, "debug"), Some(&ConfigValue::Bool(true)));
    let server = get(&tree, "server").unwrap();
    assert_eq!(get(server, "host"), Some(&ConfigValue::String("h".to_string())));
}

#[test]
fn ini_sections_build_one_level() {
    let sections = vec![
        (None, vec![("top".to_string(), "1".to_string())]),
        (Some("db".to_string()), vec![("url".to_string(), "x".to_string())]),
    ];
    let tree = ini_to_tree(&sections).unwrap();
    assert_eq!(get(&tree, "top"), Some(&ConfigValue::Bool(true)));
    let db = get(&tree, "db").unwrap();
    assert_eq!(get(db, "url"), Some(&ConfigValue::String("x".to_string())));
}

#[test]
fn ini_root_key_clashing_with_section_conflicts() {
    let sections = vec![
        (None, vec![("db".to_string(), "1".to_string())]),
        (Some("db".to_string()), vec![("url".to_string(), "x".to_string())]),
    ];
    assert!(matches!(ini_to_tree(&sections), Err(QuantumConfigError::Internal(_))));
}

#[test]
fn missing_file_result_depends_on_requirement() {
    let optional = LingoFileProviderGeneric::new("/x/a.toml", FileFormat::Toml, false, 10, MemReader::new());
    assert_eq!(optional.missing_file_result().unwrap(), ConfigValue::Dict(Vec::new()));
    let required = LingoFileProviderGeneric::new("/x/a.toml", FileFormat::Toml, true, 10, MemReader::new());
    assert!(matches!(
        required.missing_file_result(),
        Err(QuantumConfigError::SpecifiedFileNotFound { .. })
    ));
}

#[test]
fn test_mock_file_reader() {
    let content = "Mock content";
    let reader = MemReader::with(content);

    assert!(reader.file_exists("any_path"));
    assert_eq!(reader.read_content("any_path").unwrap(), content);

    let reader = MemReader::new();
    assert!(!reader.file_exists("any_path"));
    assert!(reader.read_content("any_path").is_err());
}

#[test]
fn very_deep_json_is_refused_before_parsing() {
    let provider = LingoFileProviderGeneric::new(
        "/tmp/deep.json",
        FileFormat::Json,
        true,
        32,
        MemReader::with(&nested_json(100_000)),
    );
    match provider.read_and_parse() {
        Err(QuantumConfigError::Internal(m)) => assert!(m.contains("depth limit")),
        other => panic!("unexpected {:?}", other.map(|_| ())),
    }
}

#[test]
fn nesting_scan_ignores_brackets_in_strings() {
    assert!(!json_nesting_exceeds("{\"a\": \"[[[[\"}", 1));
    assert!(json_nesting_exceeds("{\"a\": [[1]]}", 2));
    assert!(!json_nesting_exceeds("{\"a\": \"\\\"[[\"}", 1));
}

#[test]
fn reader_error_is_passed_on_unchanged() {
    let provider = LingoFileProviderGeneric::new("/x/a.toml", FileFormat::Toml, true, 10, MemReader::new());
    let err = QuantumConfigError::SpecifiedFileNotFound { path: "/elsewhere".to_string() };
    assert_eq!(provider.parse_read_result(Err(err.clone())), Err(err));
}

#[test]
fn json_strings_are_not_coerced() {
    let provider = LingoFileProviderGeneric::new(
        "/tmp/a.json",
        FileFormat::Json,
        true,
        5,
        MemReader::with("{\"flag\": \"true\", \"n\": null, \"l\": [1, \"2\"]}"),
    );
    let tree = provider.read_and_parse().unwrap();
    assert_eq!(get(&tree, "flag"), Some(&ConfigValue::String("true".to_string())));
    assert_eq!(get(&tree, "n"), Some(&ConfigValue::String("null".to_string())));
    assert_eq!(
        get(&tree, "l"),
        Some(&ConfigValue::Array(vec![ConfigValue::Int(1), ConfigValue::String("2".to_string())]))
    );
}

#[test]
fn depth_message_names_only_the_file() {
    let provider = LingoFileProviderGeneric::new(
        "/home/user/secret/deep.json",
        FileFormat::Json,
        true,
        0,
        MemReader::with("[1]"),
    );
    match provider.read_and_parse() {
        Err(QuantumConfigError::Internal(m)) => {
            assert!(m.contains("depth limit"));
            assert!(!m.contains("/home/user"));
            assert!(m.contains("deep.json"));
        }
        other => panic!("unexpected {:?}", other),
    }
}
