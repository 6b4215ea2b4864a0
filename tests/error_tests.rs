use quantum_config::error::sanitize_path_for_display;
use quantum_config::{ConfigDirType, TemplateFormat};

#[test]
fn test_config_dir_type_display() {
    assert_eq!(ConfigDirType::System.to_string(), "system");
    assert_eq!(ConfigDirType::User.to_string(), "user");
}

#[test]
fn test_config_dir_type_equality() {
    assert_eq!(ConfigDirType::System, ConfigDirType::System);
    assert_eq!(ConfigDirType::User, ConfigDirType::User);
    assert_ne!(ConfigDirType::System, ConfigDirType::User);
}

#[test]
fn template_format_names() {
    assert_eq!(TemplateFormat::Toml.extension(), "toml");
    assert_eq!(TemplateFormat::Json.extension(), "json");
    assert_eq!(TemplateFormat::Ini.extension(), "ini");
    assert_eq!(TemplateFormat::Toml.display_name(), "TOML");
    assert_eq!(TemplateFormat::Json.display_name(), "JSON");
    assert_eq!(TemplateFormat::Ini.display_name(), "INI");
}

#[test]
fn sanitized_path_shows_file_name_only() {
    let shown = sanitize_path_for_display("/home/user/.ssh/id_rsa", false);
    assert_eq!(shown, "<sanitized>/id_rsa");
    assert!(!shown.contains("/home/user/.ssh"));
}

#[test]
fn sanitized_path_in_debug_is_whole() {
    assert_eq!(sanitize_path_for_display("/etc/app/config.toml", true), "/etc/app/config.toml");
}

#[test]
fn sanitized_path_without_file_name() {
    assert_eq!(sanitize_path_for_display("/", false), "<sanitized_path>");
}

use quantum_config::QuantumConfigError;

#[test]
fn test_io_error_display() {
    let quantum_config_error = QuantumConfigError::Io {
        path: "/test/path".to_string(),
        message: "File not found".to_string(),
    };

    let error_msg = quantum_config_error.message(true);
    assert!(error_msg.contains("I/O error for path"));
    assert!(error_msg.contains("/test/path"));
    assert!(error_msg.contains("File not found"));
}

#[test]
fn test_file_parse_error_display() {
    let error = QuantumConfigError::FileParse {
        format_name: "TOML".to_string(),
        path: "/config/app.toml".to_string(),
        source_error: "Invalid syntax at line 5".to_string(),
    };

    let error_msg = error.message(true);
    assert!(error_msg.contains("Failed to parse TOML file"));
    assert!(error_msg.contains("/config/app.toml"));
    assert!(error_msg.contains("Invalid syntax at line 5"));
}

#[test]
fn test_missing_value_error_display() {
    let error = QuantumConfigError::MissingValue { key_path: "database.host".to_string() };

    let error_msg = error.message(true);
    assert!(error_msg.contains("A required value was missing for key: database.host"));
}

#[test]
fn test_invalid_value_error_display() {
    let error = QuantumConfigError::InvalidValue {
        key_path: "server.port".to_string(),
        message: "Port must be between 1 and 65535".to_string(),
    };

    let error_msg = error.message(true);
    assert!(error_msg.contains("Invalid value for key 'server.port'"));
    assert!(error_msg.contains("Port must be between 1 and 65535"));
}

#[test]
fn test_config_dir_not_found_error_display() {
    let error = QuantumConfigError::ConfigDirNotFound {
        dir_type: ConfigDirType::User,
        expected_path: Some("/home/user/.config".to_string()),
    };

    let error_msg = error.message(true);
    assert!(error_msg.contains("Configuration directory for user not found"));
    assert!(error_msg.contains("/home/user/.config"));
}

#[test]
fn test_config_dir_not_found_error_no_path() {
    let error = QuantumConfigError::ConfigDirNotFound { dir_type: ConfigDirType::System, expected_path: None };

    let error_msg = error.message(true);
    assert!(error_msg.contains("Configuration directory for system not found"));
    assert!(error_msg.contains("<unknown>"));
}

#[test]
fn test_no_config_files_found_error_display() {
    let error = QuantumConfigError::NoConfigFilesFoundInDir {
        dir_type: ConfigDirType::System,
        path: "/etc/myapp".to_string(),
    };

    let error_msg = error.message(true);
    assert!(error_msg.contains("No supported configuration files found in system directory"));
    assert!(error_msg.contains("/etc/myapp"));
}

#[test]
fn test_specified_file_not_found_error_display() {
    let error = QuantumConfigError::SpecifiedFileNotFound { path: "/custom/config.toml".to_string() };

    let error_msg = error.message(true);
    assert!(error_msg.contains("Specified configuration file not found"));
    assert!(error_msg.contains("/custom/config.toml"));
}

#[test]
fn test_unsupported_format_error_display() {
    let error = QuantumConfigError::UnsupportedFormat { path: "/config/app.xml".to_string() };

    let error_msg = error.message(true);
    assert!(error_msg.contains("Unsupported configuration file format for"));
    assert!(error_msg.contains("/config/app.xml"));
}

#[test]
fn test_template_generation_error_display() {
    let error = QuantumConfigError::TemplateGeneration {
        format: TemplateFormat::Toml,
        reason: "Invalid field type".to_string(),
    };

    let error_msg = error.message(true);
    assert!(error_msg.contains("Error generating"));
    assert_eq!(error_msg, "Error generating Toml template: Invalid field type");
}

#[test]
fn release_messages_hide_directories() {
    let error = QuantumConfigError::SpecifiedFileNotFound { path: "/home/user/.ssh/id_rsa".to_string() };
    assert_eq!(error.message(false), "Specified configuration file not found: <sanitized>/id_rsa");
}

#[test]
fn file_read_message_hides_directories_outside_debug() {
    let error = QuantumConfigError::FileReadError {
        path: "/home/user/app/config.toml".to_string(),
        message: "denied".to_string(),
    };
    assert_eq!(error.message(false), "Failed to read file <sanitized>/config.toml: denied");
    assert!(error.message(true).contains("/home/user/app/config.toml"));
}
