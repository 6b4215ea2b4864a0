use quantum_config::providers::QuantumConfigEnvProvider;
use quantum_config::{ConfigValue, QuantumConfigError};

fn vars(pairs: &[(&str, &str)]) -> Vec<(String, String)> {
    pairs.iter().map(|(k, v)| (k.to_string(), v.to_string())).collect()
}

fn get<'a>(v: &'a ConfigValue, key: &str) -> Option<&'a ConfigValue> {
    match v {
        ConfigValue::Dict(es) => es.iter().find(|(k, _)| k == key).map(|(_, x)| x),
        _ => None,
    }
}

#[test]
fn test_quantum_config_env_provider_new() {
    let provider = QuantumConfigEnvProvider::new("TEST_", "__", true, true);

    assert_eq!(provider.prefix, "TEST_");
    assert_eq!(provider.separator, "__");
    assert!(provider.ignore_empty);
    assert!(provider.lowercase_keys);
}

#[test]
fn test_quantum_config_env_provider_with_prefix() {
    let provider = QuantumConfigEnvProvider::with_prefix("MYAPP_");

    assert_eq!(provider.prefix, "MYAPP_");
    assert_eq!(provider.separator, "__");
    assert!(provider.ignore_empty);
    assert!(provider.lowercase_keys);
}

#[test]
fn test_parse_env_value_boolean() {
    let provider = QuantumConfigEnvProvider::with_prefix("TEST_");

    let true_values = ["true", "TRUE", "1", "yes", "YES", "on", "ON"];
    for val in &true_values {
        let result = provider.parse_env_value(val).unwrap();
        match result {
            ConfigValue::Bool(true) => {}
            _ => panic!("Expected true boolean for value: {}", val),
        }
    }

    let false_values = ["false", "FALSE", "0", "no", "NO", "off", "OFF"];
    for val in &false_values {
        let result = provider.parse_env_value(val).unwrap();
        match result {
            ConfigValue::Bool(false) => {}
            _ => panic!("Expected false boolean for value: {}", val),
        }
    }
}

#[test]
fn test_parse_env_value_numbers() {
    let provider = QuantumConfigEnvProvider::with_prefix("TEST_");

    let result = provider.parse_env_value("42").unwrap();
    match result {
        ConfigValue::Int(42) => {}
        _ => panic!("Expected i64 number"),
    }

    let result = provider.parse_env_value("3.14").unwrap();
    match result {
        ConfigValue::Float(f) if (f.parse::<f64>().unwrap() - 3.14).abs() < f64::EPSILON => {}
        _ => panic!("Expected f64 number"),
    }
}

#[test]
fn test_parse_env_value_string() {
    let provider = QuantumConfigEnvProvider::with_prefix("TEST_");

    let result = provider.parse_env_value("hello world").unwrap();
    match result {
        ConfigValue::String(s) if s == "hello world" => {}
        _ => panic!("Expected string value"),
    }
}

#[test]
fn test_insert_nested_value_simple() {
    let provider = QuantumConfigEnvProvider::with_prefix("TEST_");
    let mut map = ConfigValue::empty_dict();

    provider.insert_nested_value(&mut map, "key", "value").unwrap();

    assert!(get(&map, "key").is_some());
    match get(&map, "key").unwrap() {
        ConfigValue::String(s) if s == "value" => {}
        _ => panic!("Expected string value"),
    }
}

#[test]
fn test_insert_nested_value_nested() {
    let provider = QuantumConfigEnvProvider::with_prefix("TEST_");
    let mut map = ConfigValue::empty_dict();

    provider.insert_nested_value(&mut map, "section__key", "value").unwrap();

    assert!(get(&map, "section").is_some());
    match get(&map, "section").unwrap() {
        nested @ ConfigValue::Dict(_) => {
            assert!(get(nested, "key").is_some());
            match get(nested, "key").unwrap() {
                ConfigValue::String(s) if s == "value" => {}
                _ => panic!("Expected string value in nested map"),
            }
        }
        _ => panic!("Expected nested dictionary"),
    }
}

#[test]
fn test_insert_nested_value_deep_nesting() {
    let provider = QuantumConfigEnvProvider::with_prefix("TEST_");
    let mut map = ConfigValue::empty_dict();

    provider.insert_nested_value(&mut map, "a__b__c__d", "deep_value").unwrap();

    let a = get(&map, "a").unwrap();
    match a {
        ConfigValue::Dict(_) => {
            let b = get(a, "b").unwrap();
            match b {
                ConfigValue::Dict(_) => {
                    let c = get(b, "c").unwrap();
                    match c {
                        ConfigValue::Dict(_) => {
                            let d = get(c, "d").unwrap();
                            match d {
                                ConfigValue::String(s) if s == "deep_value" => {}
                                _ => panic!("Expected deep_value string"),
                            }
                        }
                        _ => panic!("Expected c to be a dictionary"),
                    }
                }
                _ => panic!("Expected b to be a dictionary"),
            }
        }
        _ => panic!("Expected a to be a dictionary"),
    }
}

#[test]
fn test_insert_nested_value_conflict() {
    let provider = QuantumConfigEnvProvider::with_prefix("TEST_");
    let mut map = ConfigValue::empty_dict();

    provider.insert_nested_value(&mut map, "key", "value").unwrap();

    let result = provider.insert_nested_value(&mut map, "key__nested", "nested_value");
    assert!(result.is_err());

    match result.unwrap_err() {
        QuantumConfigError::Internal(message) => {
            assert!(message.contains("key conflict"));
        }
        _ => panic!("Expected Internal error for key conflict"),
    }
}

#[test]
fn test_read_env_vars_with_prefix() {
    let provider = QuantumConfigEnvProvider::with_prefix("quantum_config_TEST_");
    let snapshot = vars(&[
        ("quantum_config_TEST_KEY1", "value1"),
        ("quantum_config_TEST_KEY2", "42"),
        ("quantum_config_TEST_NESTED__KEY", "nested_value"),
        ("OTHER_KEY", "should_be_ignored"),
    ]);

    let result = provider.read_env_vars(&snapshot).unwrap();

    assert!(get(&result, "key1").is_some());
    assert!(get(&result, "key2").is_some());
    assert!(get(&result, "nested").is_some());
    assert!(get(&result, "other_key").is_none());
}

#[test]
fn test_ignore_empty_values() {
    let provider = QuantumConfigEnvProvider::new("quantum_config_EMPTY_", "__", true, true);
    let snapshot = vars(&[("quantum_config_EMPTY_KEY1", ""), ("quantum_config_EMPTY_KEY2", "not_empty")]);

    let result = provider.read_env_vars(&snapshot).unwrap();

    assert!(get(&result, "key1").is_none());
    assert!(get(&result, "key2").is_some());
}

#[test]
fn test_dont_ignore_empty_values() {
    let provider = QuantumConfigEnvProvider::new("quantum_config_NOEMPTY_", "__", false, true);
    let snapshot =
        vars(&[("quantum_config_NOEMPTY_KEY1", ""), ("quantum_config_NOEMPTY_KEY2", "not_empty")]);

    let result = provider.read_env_vars(&snapshot).unwrap();

    assert!(get(&result, "key1").is_some());
    assert!(get(&result, "key2").is_some());
}

#[test]
fn test_lowercase_keys() {
    let provider = QuantumConfigEnvProvider::new("quantum_config_CASE_", "__", true, true);
    let snapshot = vars(&[("quantum_config_CASE_UPPER_KEY", "value")]);

    let result = provider.read_env_vars(&snapshot).unwrap();

    assert!(get(&result, "upper_key").is_some());
    assert!(get(&result, "UPPER_KEY").is_none());
}

#[test]
fn test_preserve_case_keys() {
    let provider = QuantumConfigEnvProvider::new("quantum_config_PRESERVE_", "__", true, false);
    let snapshot = vars(&[("quantum_config_PRESERVE_UPPER_KEY", "value")]);

    let result = provider.read_env_vars(&snapshot).unwrap();

    assert!(get(&result, "UPPER_KEY").is_some());
    assert!(get(&result, "upper_key").is_none());
}

#[test]
fn env_variable_lands_at_nested_path_with_coerced_value() {
    let provider = QuantumConfigEnvProvider::with_prefix("PREFIX_");
    let snapshot = vars(&[("PREFIX_A__B__C", "17"), ("OTHER_A__B__C", "x")]);
    let result = provider.read_env_vars(&snapshot).unwrap();
    let a = get(&result, "a").unwrap();
    let b = get(a, "b").unwrap();
    assert_eq!(get(b, "c"), Some(&ConfigValue::Int(17)));
    if let ConfigValue::Dict(es) = &result {
        assert_eq!(es.len(), 1);
    }
}

#[test]
fn env_invalid_value_fails_the_whole_read() {
    let provider = QuantumConfigEnvProvider::with_prefix("APP_");
    let snapshot = vars(&[("APP_GOOD", "1"), ("APP_BAD", "a\0b")]);
    match provider.read_env_vars(&snapshot) {
        Err(QuantumConfigError::ValidationError(_)) => {}
        other => panic!("unexpected {:?}", other),
    }
}

#[test]
fn env_invalid_variable_of_other_prefix_is_ignored() {
    let provider = QuantumConfigEnvProvider::with_prefix("APP_");
    let snapshot = vars(&[("OTHER_BAD", "a\0b"), ("APP_PORT", "8080")]);
    let result = provider.read_env_vars(&snapshot).unwrap();
    assert_eq!(get(&result, "port"), Some(&ConfigValue::Int(8080)));
}

#[test]
fn env_conflict_between_variables() {
    let provider = QuantumConfigEnvProvider::with_prefix("APP_");
    let snapshot = vars(&[("APP_SERVER", "x"), ("APP_SERVER__PORT", "1")]);
    assert!(matches!(provider.read_env_vars(&snapshot), Err(QuantumConfigError::Internal(_))));
}

#[test]
fn env_key_length_counts_bytes() {
    let key = "é".repeat(129);
    assert!(QuantumConfigEnvProvider::validate_env_key(&key).is_err());
    let key = "é".repeat(128);
    assert!(QuantumConfigEnvProvider::validate_env_key(&key).is_ok());
    assert!(QuantumConfigEnvProvider::validate_env_key("A\nB").is_err());
    assert!(QuantumConfigEnvProvider::validate_env_key("A\rB").is_err());
}

#[test]
fn conflict_message_names_the_clashing_segment() {
    let provider = QuantumConfigEnvProvider::with_prefix("TEST_");
    let mut map = ConfigValue::empty_dict();
    provider.insert_nested_value(&mut map, "key", "value").unwrap();
    match provider.insert_nested_value(&mut map, "key__nested", "nested_value") {
        Err(QuantumConfigError::Internal(m)) => {
            assert_eq!(m, "key conflict: 'key' cannot be both a value and a nested table")
        }
        other => panic!("unexpected {:?}", other),
    }
    assert_eq!(get(&map, "key"), Some(&ConfigValue::String("value".to_string())));
}

#[test]
fn env_clash_names_key_in_either_order() {
    let provider = QuantumConfigEnvProvider::with_prefix("APP_");
    for snapshot in [
        vars(&[("APP_KEY", "v"), ("APP_KEY__NESTED", "w")]),
        vars(&[("APP_KEY__NESTED", "w"), ("APP_KEY", "v")]),
    ] {
        match provider.read_env_vars(&snapshot) {
            Err(QuantumConfigError::Internal(m)) => assert!(m.contains("'key'")),
            other => panic!("unexpected {:?}", other),
        }
    }
}

#[test]
fn invalid_variable_wins_over_an_earlier_clash() {
    let provider = QuantumConfigEnvProvider::with_prefix("APP_");
    let snapshot = vars(&[("APP_KEY", "v"), ("APP_KEY__NESTED", "w"), ("APP_BAD", "x\0y")]);
    assert!(matches!(provider.read_env_vars(&snapshot), Err(QuantumConfigError::ValidationError(_))));
}
