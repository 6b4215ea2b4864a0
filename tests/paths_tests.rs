use quantum_config::meta::QuantumConfigAppMeta;
use quantum_config::paths::{
    add_specified_config_file, add_specified_config_file_with, config_file_candidates,
    get_config_directories, keep_present, resolve_config_files, select_config_dirs,
    validate_path_security, ConfigFilePath,
    ConfigFileType,
};
use quantum_config::providers::FileReader;
use quantum_config::QuantumConfigError;
use std::cell::Cell;
use std::io::Write;

#[test]
fn test_config_file_type_extension() {
    assert_eq!(ConfigFileType::Toml.extension(), "toml");
    assert_eq!(ConfigFileType::Json.extension(), "json");
    assert_eq!(ConfigFileType::Ini.extension(), "ini");
}

#[test]
fn test_config_file_type_from_extension() {
    assert_eq!(ConfigFileType::from_extension("toml"), Some(ConfigFileType::Toml));
    assert_eq!(ConfigFileType::from_extension("TOML"), Some(ConfigFileType::Toml));
    assert_eq!(ConfigFileType::from_extension("json"), Some(ConfigFileType::Json));
    assert_eq!(ConfigFileType::from_extension("JSON"), Some(ConfigFileType::Json));
    assert_eq!(ConfigFileType::from_extension("ini"), Some(ConfigFileType::Ini));
    assert_eq!(ConfigFileType::from_extension("INI"), Some(ConfigFileType::Ini));
    assert_eq!(ConfigFileType::from_extension("txt"), None);
    assert_eq!(ConfigFileType::from_extension("yaml"), None);
}

#[test]
fn test_config_file_path_new() {
    let path = String::from("/etc/myapp/config.toml");
    let config_file = ConfigFilePath::new(path.clone(), ConfigFileType::Toml, true);

    assert_eq!(config_file.path, path);
    assert_eq!(config_file.file_type, ConfigFileType::Toml);
    assert!(config_file.is_required);
}

#[test]
fn test_config_file_path_exists() {
    let mut temp_file = tempfile::Builder::new().suffix(".toml").tempfile().unwrap();
    temp_file.write_all(b"test = true").unwrap();
    let temp_path = temp_file.path().to_string_lossy().into_owned();

    let config_file = ConfigFilePath::new(temp_path, ConfigFileType::Toml, false);
    assert!(config_file.file_exists());

    let non_existent = String::from("/non/existent/file.toml");
    let config_file = ConfigFilePath::new(non_existent, ConfigFileType::Toml, false);
    assert!(!config_file.file_exists());
}

#[test]
fn test_resolve_config_files_with_app_meta() {
    let app_meta = QuantumConfigAppMeta {
        app_name: "test_app".to_string(),
        env_prefix: None,
        behavior_version: 1,
        max_parse_depth: 128,
    };

    let result = resolve_config_files(&app_meta);

    match result {
        Ok(files) => {
            for file in files {
                let p = std::path::Path::new(&file.path);
                assert!(p.is_absolute() || p.is_relative());
                assert!(!file.is_required);
            }
        }
        Err(e) => {
            println!("Config resolution failed (expected in some environments): {:?}", e);
        }
    }
}

#[test]
fn test_add_specified_config_file_success() {
    let mut temp_file = tempfile::Builder::new().prefix("custom").suffix(".toml").tempfile().unwrap();
    temp_file.write_all(b"key = \"value\"").unwrap();
    let temp_path = temp_file.path().to_string_lossy().into_owned();

    let mut config_files = Vec::new();
    let result = add_specified_config_file(&mut config_files, temp_path.clone());

    assert!(result.is_ok());
    assert_eq!(config_files.len(), 1);
    assert_eq!(config_files[0].path, temp_path);
    assert_eq!(config_files[0].file_type, ConfigFileType::Toml);
    assert!(config_files[0].is_required);
}

#[test]
fn test_add_specified_config_file_not_found() {
    let mut config_files = Vec::new();
    let non_existent = String::from("/non/existent/file.toml");

    let result = add_specified_config_file(&mut config_files, non_existent.clone());

    assert!(result.is_err());
    match result.unwrap_err() {
        QuantumConfigError::SpecifiedFileNotFound { path } => {
            assert_eq!(path, non_existent);
        }
        _ => panic!("Expected SpecifiedFileNotFound error"),
    }
    assert!(config_files.is_empty());
}

#[test]
fn test_add_specified_config_file_unsupported_format() {
    let mut temp_file = tempfile::Builder::new().prefix("config").suffix(".yaml").tempfile().unwrap();
    temp_file.write_all(b"key: value").unwrap();
    let temp_path = temp_file.path().to_string_lossy().into_owned();

    let mut config_files = Vec::new();
    let result = add_specified_config_file(&mut config_files, temp_path.clone());

    assert!(result.is_err());
    match result.unwrap_err() {
        QuantumConfigError::UnsupportedFormat { path } => {
            assert_eq!(path, temp_path);
        }
        _ => panic!("Expected UnsupportedFormat error"),
    }
    assert!(config_files.is_empty());
}

#[test]
fn test_get_config_directories() {
    let app_name = "test_app_for_dirs";

    let result = get_config_directories(app_name);

    match result {
        Ok(dirs) => {
            for dir in dirs {
                assert!(std::path::Path::new(&dir).is_absolute());
            }
        }
        Err(e) => {
            println!("Get config directories failed (expected in some environments): {:?}", e);
        }
    }
}

#[test]
fn test_config_file_path_equality() {
    let path1 = String::from("/etc/app/config.toml");
    let path2 = String::from("/etc/app/config.toml");
    let path3 = String::from("/etc/app/config.json");

    let config1 = ConfigFilePath::new(path1, ConfigFileType::Toml, true);
    let config2 = ConfigFilePath::new(path2, ConfigFileType::Toml, true);
    let config3 = ConfigFilePath::new(path3, ConfigFileType::Json, true);

    assert_eq!(config1, config2);
    assert_ne!(config1, config3);
}

#[test]
fn test_resolve_config_files_empty_app_name() {
    let app_meta = QuantumConfigAppMeta {
        app_name: "".to_string(),
        env_prefix: None,
        behavior_version: 1,
        max_parse_depth: 128,
    };

    let result = resolve_config_files(&app_meta);

    match result {
        Ok(_) => {}
        Err(QuantumConfigError::ConfigDirNotFound { dir_type: _, expected_path: _ }) => {}
        Err(_) => {}
    }
}

#[test]
fn candidates_follow_the_search_order() {
    let dirs = vec!["/etc/myapp".to_string(), "/home/u/.config/myapp/".to_string()];
    let c = config_file_candidates(&dirs, "myapp");
    assert_eq!(c.len(), 12);
    assert_eq!(c[0].path, "/etc/myapp/config.toml");
    assert_eq!(c[1].path, "/etc/myapp/config.json");
    assert_eq!(c[2].path, "/etc/myapp/config.ini");
    assert_eq!(c[3].path, "/etc/myapp/myapp.toml");
    assert_eq!(c[5].file_type, ConfigFileType::Ini);
    assert_eq!(c[6].path, "/home/u/.config/myapp/config.toml");
    assert_eq!(c[11].path, "/home/u/.config/myapp/myapp.ini");
    assert!(c.iter().all(|f| !f.is_required));
}

#[test]
fn candidates_of_no_directory_are_empty() {
    let dirs: Vec<String> = Vec::new();
    assert!(config_file_candidates(&dirs, "myapp").is_empty());
}

/// A file system stand-in that records whether existence was asked.
struct RecordingFs {
    asked: Cell<bool>,
    present: bool,
}

impl FileReader for RecordingFs {
    fn read_content(&self, _path: &str) -> Result<String, QuantumConfigError> {
        Ok(String::new())
    }

    fn file_exists(&self, _path: &str) -> bool {
        self.asked.set(true);
        self.present
    }
}

#[test]
fn traversal_is_refused_before_existence_is_checked() {
    let fs = RecordingFs { asked: Cell::new(false), present: true };
    let mut files = Vec::new();
    let r = add_specified_config_file_with(&mut files, "../../etc/passwd".to_string(), &fs);
    assert!(matches!(r, Err(QuantumConfigError::SecurityViolation { .. })));
    assert!(!fs.asked.get());
    assert!(files.is_empty());
}

#[test]
fn safe_path_is_checked_for_existence() {
    let fs = RecordingFs { asked: Cell::new(false), present: true };
    let mut files = Vec::new();
    let r = add_specified_config_file_with(&mut files, "configs/app.json".to_string(), &fs);
    assert!(r.is_ok());
    assert!(fs.asked.get());
    assert_eq!(files.len(), 1);
    assert_eq!(files[0].file_type, ConfigFileType::Json);
    assert!(files[0].is_required);

    let absent = RecordingFs { asked: Cell::new(false), present: false };
    let r = add_specified_config_file_with(&mut files, "configs/other.json".to_string(), &absent);
    assert!(matches!(r, Err(QuantumConfigError::SpecifiedFileNotFound { .. })));
    assert_eq!(files.len(), 1);
}

#[test]
fn nul_byte_is_refused() {
    assert!(matches!(
        validate_path_security("conf\0ig.toml"),
        Err(QuantumConfigError::SecurityViolation { .. })
    ));
}

#[test]
fn dots_inside_names_are_not_traversal() {
    assert!(validate_path_security("a..b/config.toml").is_ok());
    assert!(validate_path_security("/etc/app/..hidden").is_ok());
    assert!(validate_path_security("/etc/app/../passwd").is_err());
    assert!(validate_path_security("..").is_err());
}

#[test]
fn directory_selection_follows_what_exists() {
    let dirs = select_config_dirs("app", Some("/home/u/.config/app".to_string()), true, true).unwrap();
    assert_eq!(dirs, vec!["/etc/app".to_string(), "/home/u/.config/app".to_string()]);
    let dirs = select_config_dirs("app", Some("/home/u/.config/app".to_string()), false, true).unwrap();
    assert_eq!(dirs, vec!["/home/u/.config/app".to_string()]);
    let dirs = select_config_dirs("app", None, true, false).unwrap();
    assert_eq!(dirs, vec!["/etc/app".to_string()]);
    let dirs = select_config_dirs("app", Some("/x".to_string()), false, false).unwrap();
    assert!(dirs.is_empty());
    assert!(matches!(
        select_config_dirs("", None, true, true),
        Err(QuantumConfigError::ConfigDirNotFound { .. })
    ));
}

#[test]
fn keep_present_keeps_order() {
    let dirs = vec!["/etc/a".to_string()];
    let c = config_file_candidates(&dirs, "a");
    let present = vec![false, true, false, true, false, true];
    let kept = keep_present(c, &present);
    let paths: Vec<&str> = kept.iter().map(|f| f.path.as_str()).collect();
    assert_eq!(paths, vec!["/etc/a/config.json", "/etc/a/a.toml", "/etc/a/a.ini"]);
}
