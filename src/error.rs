//! Error kinds of the configuration pipeline.

use vstd::prelude::*;
use vstd::string::*;

verus! {

/// What `Path::file_name` gives for the path text `p`.
pub uninterp spec fn file_name_of(p: Seq<char>) -> Option<Seq<char>>;

/// Relies on `Path::file_name`: the last component of the path, unless it
/// is `..`; it depends on the text alone.
#[verifier::external_body]
fn path_file_name(p: &str) -> (r: Option<String>)
    ensures
        match r {
            Some(n) => file_name_of(p@) == Some(n@),
            None => file_name_of(p@) is None,
        },
{
    match std::path::Path::new(p).file_name() {
        Some(n) => Some(n.to_string_lossy().into_owned()),
        None => None,
    }
}

/// How a path is shown in a message: whole in a debug build, otherwise
/// only its file name, so that directories with user names stay hidden.
pub open spec fn display_path_spec(p: Seq<char>, debug: bool) -> Seq<char> {
    if debug {
        p
    } else {
        match file_name_of(p) {
            Some(n) => "<sanitized>/"@ + n,
            None => "<sanitized_path>"@,
        }
    }
}

/// The path as it may appear in a message (see `display_path_spec`).
pub fn sanitize_path_for_display(path: &str, debug: bool) -> (r: String)
    ensures
        r@ == display_path_spec(path@, debug),
{
    if debug {
        return String::from_str(path);
    }
    match path_file_name(path) {
        Some(n) => String::from_str("<sanitized>/").concat(n.as_str()),
        None => String::from_str("<sanitized_path>"),
    }
}

/// Which kind of configuration directory was being accessed.
#[derive(Debug, Clone, Copy, PartialEq, Eq, Structural)]
pub enum ConfigDirType {
    /// The system-wide configuration directory.
    System,
    /// The per-user configuration directory.
    User,
}

impl ConfigDirType {
    /// The lower-case name of the directory kind.
    pub open spec fn name_spec(self) -> Seq<char> {
        match self {
            ConfigDirType::System => "system"@,
            ConfigDirType::User => "user"@,
        }
    }

    /// The lower-case name of the directory kind, as shown in messages.
    pub fn to_string(&self) -> (r: String)
        ensures
            r@ == self.name_spec(),
    {
        match self {
            ConfigDirType::System => String::from_str("system"),
            ConfigDirType::User => String::from_str("user"),
        }
    }
}

/// Formats in which a configuration template can be written.
#[derive(Debug, Clone, Copy, PartialEq, Eq, Structural)]
pub enum TemplateFormat {
    Toml,
    Json,
    Ini,
}

impl TemplateFormat {
    /// File extension of the format.
    pub fn extension(&self) -> (r: &'static str)
        ensures
            r@ == match self {
                TemplateFormat::Toml => "toml"@,
                TemplateFormat::Json => "json"@,
                TemplateFormat::Ini => "ini"@,
            },
    {
        match self {
            TemplateFormat::Toml => "toml",
            TemplateFormat::Json => "json",
            TemplateFormat::Ini => "ini",
        }
    }

    /// Human-readable name of the format.
    pub fn display_name(&self) -> (r: &'static str)
        ensures
            r@ == match self {
                TemplateFormat::Toml => "TOML"@,
                TemplateFormat::Json => "JSON"@,
                TemplateFormat::Ini => "INI"@,
            },
    {
        match self {
            TemplateFormat::Toml => "TOML",
            TemplateFormat::Json => "JSON",
            TemplateFormat::Ini => "INI",
        }
    }
}

/// Every way in which building the configuration can fail.
///
/// Paths are carried as text; `Internal` covers structural conflicts between
/// sources (a key that is a table in one place and a leaf in another) and
/// breaches of the parse depth limit.
#[derive(Debug, Clone, PartialEq)]
pub enum QuantumConfigError {
    Io { path: String, message: String },
    FileReadError { path: String, message: String },
    FileParse { format_name: String, path: String, source_error: String },
    MissingValue { key_path: String },
    InvalidValue { key_path: String, message: String },
    ConfigDirNotFound { dir_type: ConfigDirType, expected_path: Option<String> },
    NoConfigFilesFoundInDir { dir_type: ConfigDirType, path: String },
    SpecifiedFileNotFound { path: String },
    UnsupportedFormat { path: String },
    TemplateGeneration { format: TemplateFormat, reason: String },
    Internal(String),
    AppNameResolution { source_error: String },
    SecurityViolation { message: String },
    ValidationError(String),
}

impl TemplateFormat {
    /// The variant's name, as `{:?}` shows it.
    pub open spec fn variant_name(self) -> Seq<char> {
        match self {
            TemplateFormat::Toml => "Toml"@,
            TemplateFormat::Json => "Json"@,
            TemplateFormat::Ini => "Ini"@,
        }
    }
}

/// The message of error `e`, with paths shown as `display_path_spec` says.
pub open spec fn error_message(e: QuantumConfigError, debug: bool) -> Seq<char> {
    match e {
        QuantumConfigError::Io { path, message } => "I/O error for path "@ + display_path_spec(
            path@,
            debug,
        ) + ": "@ + message@,
        QuantumConfigError::FileReadError { path, message } => "Failed to read file "@
            + display_path_spec(path@, debug) + ": "@ + message@,
        QuantumConfigError::FileParse { format_name, path, source_error } => "Failed to parse "@
            + format_name@ + " file "@ + display_path_spec(path@, debug) + ": "@ + source_error@,
        QuantumConfigError::MissingValue { key_path } => "A required value was missing for key: "@
            + key_path@,
        QuantumConfigError::InvalidValue { key_path, message } => "Invalid value for key '"@
            + key_path@ + "': "@ + message@,
        QuantumConfigError::ConfigDirNotFound { dir_type, expected_path } =>
            "Configuration directory for "@ + dir_type.name_spec() + " not found. Expected at: "@
                + match expected_path {
                Some(p) => display_path_spec(p@, debug),
                None => "<unknown>"@,
            },
        QuantumConfigError::NoConfigFilesFoundInDir { dir_type, path } =>
            "No supported configuration files found in "@ + dir_type.name_spec() + " directory: "@
                + display_path_spec(path@, debug),
        QuantumConfigError::SpecifiedFileNotFound { path } =>
            "Specified configuration file not found: "@ + display_path_spec(path@, debug),
        QuantumConfigError::UnsupportedFormat { path } =>
            "Unsupported configuration file format for: "@ + display_path_spec(path@, debug),
        QuantumConfigError::TemplateGeneration { format, reason } => "Error generating "@
            + format.variant_name() + " template: "@ + reason@,
        QuantumConfigError::Internal(m) => "Internal Quantum Config error: "@ + m@,
        QuantumConfigError::AppNameResolution { source_error } =>
            "Failed to determine application name: "@ + source_error@,
        QuantumConfigError::SecurityViolation { message } => "Security violation: "@ + message@,
        QuantumConfigError::ValidationError(m) => "Validation error: "@ + m@,
    }
}

impl QuantumConfigError {
    /// The message describing the error. Outside a debug build (`debug`
    /// false) paths show only their file name.
    pub fn message(&self, debug: bool) -> (r: String)
        ensures
            r@ == error_message(*self, debug),
    {
        match self {
            QuantumConfigError::Io { path, message } => String::from_str("I/O error for path ").concat(
                sanitize_path_for_display(path.as_str(), debug).as_str(),
            ).concat(": ").concat(message.as_str()),
            QuantumConfigError::FileReadError { path, message } => String::from_str(
                "Failed to read file ",
            ).concat(sanitize_path_for_display(path.as_str(), debug).as_str()).concat(": ").concat(
                message.as_str(),
            ),
            QuantumConfigError::FileParse { format_name, path, source_error } => String::from_str(
                "Failed to parse ",
            ).concat(format_name.as_str()).concat(" file ").concat(
                sanitize_path_for_display(path.as_str(), debug).as_str(),
            ).concat(": ").concat(source_error.as_str()),
            QuantumConfigError::MissingValue { key_path } => String::from_str(
                "A required value was missing for key: ",
            ).concat(key_path.as_str()),
            QuantumConfigError::InvalidValue { key_path, message } => String::from_str(
                "Invalid value for key '",
            ).concat(key_path.as_str()).concat("': ").concat(message.as_str()),
            QuantumConfigError::ConfigDirNotFound { dir_type, expected_path } => {
                let shown = match expected_path {
                    Some(p) => sanitize_path_for_display(p.as_str(), debug),
                    None => String::from_str("<unknown>"),
                };
                String::from_str("Configuration directory for ").concat(
                    dir_type.to_string().as_str(),
                ).concat(" not found. Expected at: ").concat(shown.as_str())
            },
            QuantumConfigError::NoConfigFilesFoundInDir { dir_type, path } => String::from_str(
                "No supported configuration files found in ",
            ).concat(dir_type.to_string().as_str()).concat(" directory: ").concat(
                sanitize_path_for_display(path.as_str(), debug).as_str(),
            ),
            QuantumConfigError::SpecifiedFileNotFound { path } => String::from_str(
                "Specified configuration file not found: ",
            ).concat(sanitize_path_for_display(path.as_str(), debug).as_str()),
            QuantumConfigError::UnsupportedFormat { path } => String::from_str(
                "Unsupported configuration file format for: ",
            ).concat(sanitize_path_for_display(path.as_str(), debug).as_str()),
            QuantumConfigError::TemplateGeneration { format, reason } => {
                let name = match format {
                    TemplateFormat::Toml => "Toml",
                    TemplateFormat::Json => "Json",
                    TemplateFormat::Ini => "Ini",
                };
                String::from_str("Error generating ").concat(name).concat(" template: ").concat(
                    reason.as_str(),
                )
            },
            QuantumConfigError::Internal(m) => String::from_str(
                "Internal Quantum Config error: ",
            ).concat(m.as_str()),
            QuantumConfigError::AppNameResolution { source_error } => String::from_str(
                "Failed to determine application name: ",
            ).concat(source_error.as_str()),
            QuantumConfigError::SecurityViolation { message } => String::from_str(
                "Security violation: ",
            ).concat(message.as_str()),
            QuantumConfigError::ValidationError(m) => String::from_str("Validation error: ").concat(
                m.as_str(),
            ),
        }
    }
}

} // verus!
