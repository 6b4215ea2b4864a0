use quantum_config::providers::clap_provider::{with_common_mappings, ArgInput, ArgValue};
use quantum_config::providers::QuantumConfigClapProvider;
use quantum_config::{ConfigValue, QuantumConfigError};

fn flag(name: &str, set: bool) -> ArgInput {
    ArgInput { name: name.to_string(), value: ArgValue::Flag(set) }
}

fn values(name: &str, vs: &[&str]) -> ArgInput {
    ArgInput { name: name.to_string(), value: ArgValue::Values(vs.iter().map(|s| s.to_string()).collect()) }
}

fn get<'a>(v: &'a ConfigValue, key: &str) -> Option<&'a ConfigValue> {
    match v {
        ConfigValue::Dict(es) => es.iter().find(|(k, _)| k == key).map(|(_, x)| x),
        _ => None,
    }
}

fn test_args() -> Vec<ArgInput> {
    vec![values("config", &["config.toml"]), flag("verbose", true), values("count", &["10"])]
}

#[test]
fn test_quantum_config_clap_provider_new() {
    let mapping = vec![("config".to_string(), "config_file".to_string())];
    let provider = QuantumConfigClapProvider::new(test_args(), mapping, ".".to_string());
    assert_eq!(provider.arg_mapping.len(), 1);
}

#[test]
fn test_quantum_config_clap_provider_from_matches() {
    let provider = QuantumConfigClapProvider::from_matches(Vec::new());
    assert!(provider.arg_mapping.is_empty());
    assert_eq!(provider.separator, ".");
}

#[test]
fn test_map_arg() {
    let provider = QuantumConfigClapProvider::from_matches(Vec::new()).map_arg("config", "config_file");
    assert!(provider.arg_mapping.iter().any(|(a, k)| a == "config" && k == "config_file"));
}

#[test]
fn test_with_separator() {
    let provider = QuantumConfigClapProvider::from_matches(Vec::new()).with_separator("__");
    assert_eq!(provider.separator, "__");
}

#[test]
fn test_read_clap_args() {
    let provider =
        QuantumConfigClapProvider::from_matches(test_args()).map_arg("config", "config_file");
    let tree = provider.read_clap_args().unwrap();
    assert_eq!(get(&tree, "config_file"), Some(&ConfigValue::String("config.toml".to_string())));
    assert_eq!(get(&tree, "verbose"), Some(&ConfigValue::Bool(true)));
    assert_eq!(get(&tree, "count"), Some(&ConfigValue::Int(10)));
}

#[test]
fn test_with_common_mappings() {
    let args = vec![values("config", &["test.toml"]), flag("verbose", true)];
    let provider = with_common_mappings(args);
    let tree = provider.read_clap_args().unwrap();
    assert_eq!(get(&tree, "config_file"), Some(&ConfigValue::String("test.toml".to_string())));
    assert_eq!(get(&tree, "verbose"), Some(&ConfigValue::Bool(true)));
}

#[test]
fn test_flatten_fallback() {
    let provider = QuantumConfigClapProvider::from_matches(vec![values("log-level", &["debug"])])
        .map_arg("log-level", "log_level");
    let tree = provider.read_clap_args().unwrap();
    assert_eq!(get(&tree, "log_level"), Some(&ConfigValue::String("debug".to_string())));
}

#[test]
fn unset_flag_and_absent_values_contribute_nothing() {
    let provider = QuantumConfigClapProvider::from_matches(vec![flag("quiet", false), values("output", &[])]);
    let tree = provider.read_clap_args().unwrap();
    assert_eq!(tree, ConfigValue::Dict(Vec::new()));
}

#[test]
fn several_values_make_an_array() {
    let provider = QuantumConfigClapProvider::from_matches(vec![values("ports", &["1", "x", "true"])]);
    let tree = provider.read_clap_args().unwrap();
    assert_eq!(
        get(&tree, "ports"),
        Some(&ConfigValue::Array(vec![
            ConfigValue::Bool(true),
            ConfigValue::String("x".to_string()),
            ConfigValue::Bool(true),
        ]))
    );
}

#[test]
fn mapped_path_is_split_on_separator() {
    let provider = with_common_mappings(vec![values("format", &["json"]), values("output", &["out.txt"])]);
    let tree = provider.read_clap_args().unwrap();
    let output = get(&tree, "output").unwrap();
    assert_eq!(get(output, "format"), Some(&ConfigValue::String("json".to_string())));
    assert_eq!(get(output, "file"), Some(&ConfigValue::String("out.txt".to_string())));
}

#[test]
fn unregistered_argument_is_an_error() {
    let provider = QuantumConfigClapProvider::from_matches(test_args());
    assert!(matches!(provider.get_arg_values("nope"), Err(QuantumConfigError::Internal(_))));
    assert_eq!(provider.get_arg_values("verbose").unwrap(), None);
    assert_eq!(provider.get_arg_values("count").unwrap(), Some(vec!["10".to_string()]));
}

#[test]
fn test_parse_arg_value_boolean() {
    let provider = QuantumConfigClapProvider::from_matches(Vec::new());
    match (provider.parse_arg_value("true"), provider.parse_arg_value("false")) {
        (Ok(ConfigValue::Bool(true)), Ok(ConfigValue::Bool(false))) => {}
        _ => panic!("Boolean parsing failed"),
    }
}

#[test]
fn test_parse_arg_value_numbers() {
    let provider = QuantumConfigClapProvider::from_matches(Vec::new());
    let int_result = provider.parse_arg_value("42");
    let float_result = provider.parse_arg_value("3.14");
    match (&int_result, &float_result) {
        (Ok(ConfigValue::Int(42)), Ok(ConfigValue::Float(f))) if f == "3.14" => {}
        _ => panic!("Number parsing failed: {:?}, {:?}", int_result, float_result),
    }
}

#[test]
fn test_parse_arg_value_string() {
    let provider = QuantumConfigClapProvider::from_matches(Vec::new());
    match provider.parse_arg_value("hello") {
        Ok(ConfigValue::String(s)) if s == "hello" => {}
        _ => panic!("String parsing failed"),
    }
}

#[test]
fn unsupplied_value_argument_gives_no_contribution() {
    let provider = QuantumConfigClapProvider::from_matches(vec![values("output", &[]), flag("quiet", false)]);
    assert_eq!(provider.get_arg_values("output").unwrap(), None);
    assert_eq!(provider.get_arg_values("quiet").unwrap(), None);
}

#[test]
fn is_flag_set_reads_the_first_entry() {
    let provider = QuantumConfigClapProvider::from_matches(vec![
        flag("verbose", true),
        flag("quiet", false),
        values("count", &["1"]),
        flag("verbose", false),
    ]);
    assert!(provider.is_flag_set("verbose"));
    assert!(!provider.is_flag_set("quiet"));
    assert!(!provider.is_flag_set("count"));
    assert!(!provider.is_flag_set("missing"));
}
