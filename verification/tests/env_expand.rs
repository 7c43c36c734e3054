use shaka::utils::env_expand::{expand_commands, expand_pwsh_env_vars, pwsh_env_var_names};

/// The environment the tests expand against.
const ENVIRONMENT: [(&str, &str); 3] = [
    ("HOME", "/home/shaka"),
    ("PATH", "/usr/local/bin:/usr/bin"),
    ("TEMP", "/tmp"),
];

fn lookup(name: &str) -> Option<String> {
    ENVIRONMENT.iter().find(|(n, _)| *n == name).map(|(_, v)| v.to_string())
}

/// Expands `input` with the values that the test environment holds for its
/// references, one lookup per reference, in order.
fn expand_from_env(input: &str) -> String {
    let values: Vec<Option<String>> = pwsh_env_var_names(input).iter().map(|name| lookup(name)).collect();
    expand_pwsh_env_vars(input, &values)
}

fn known_var() -> (&'static str, String) {
    for name in ["HOME", "USERPROFILE", "PATH"] {
        if let Some(value) = lookup(name) {
            return (name, value);
        }
    }
    panic!("no known env var found for tests");
}

fn known_var_two() -> ((&'static str, String), (&'static str, String)) {
    let mut found = Vec::new();
    for name in ["HOME", "USERPROFILE", "PATH", "TEMP"] {
        if let Some(value) = lookup(name) {
            found.push((name, value));
        }
        if found.len() == 2 {
            return (found.remove(0), found.remove(0));
        }
    }
    panic!("not enough env vars found for tests");
}

#[test]
fn expands_dollar_var() {
    let (name, value) = known_var();
    assert_eq!(
        expand_from_env(&format!("${name}/bin")),
        format!("{value}/bin")
    );
}

#[test]
fn expands_dollar_env_var() {
    let (name, value) = known_var();
    assert_eq!(
        expand_from_env(&format!("$env:{name}/bin")),
        format!("{value}/bin")
    );
}

#[test]
fn expands_case_insensitive_env_prefix() {
    let (name, value) = known_var();
    assert_eq!(
        expand_from_env(&format!("$EnV:{name}/bin")),
        format!("{value}/bin")
    );
}

#[test]
fn expands_multiple_vars_in_one_string() {
    let ((a_name, a_value), (b_name, b_value)) = known_var_two();
    assert_eq!(
        expand_from_env(&format!("${a_name}:${b_name}")),
        format!("{a_value}:{b_value}")
    );
}

#[test]
fn expands_adjacent_vars() {
    let ((a_name, a_value), (b_name, b_value)) = known_var_two();
    assert_eq!(
        expand_from_env(&format!("${a_name}${b_name}")),
        format!("{a_value}{b_value}")
    );
}

#[test]
fn keeps_unknown_dollar_var_literal() {
    assert_eq!(
        expand_from_env("$THIS_SHOULD_NOT_EXIST_12345/bin"),
        "$THIS_SHOULD_NOT_EXIST_12345/bin"
    );
}

#[test]
fn keeps_unknown_dollar_env_var_literal() {
    assert_eq!(
        expand_from_env("$env:THIS_SHOULD_NOT_EXIST_12345/bin"),
        "$env:THIS_SHOULD_NOT_EXIST_12345/bin"
    );
}

#[test]
fn keeps_lone_dollar_literal() {
    assert_eq!(expand_from_env("$"), "$");
}

#[test]
fn keeps_dollar_before_non_var_chars_literal() {
    assert_eq!(expand_from_env("$- $/ $ "), "$- $/ $ ");
}

#[test]
fn respects_var_boundaries_with_punctuation() {
    let (name, value) = known_var();
    assert_eq!(
        expand_from_env(&format!("${name}.suffix")),
        format!("{value}.suffix")
    );
    assert_eq!(
        expand_from_env(&format!("${name}/path")),
        format!("{value}/path")
    );
}

#[test]
fn supports_underscore_and_digits_in_var_name() {
    assert_eq!(expand_from_env("$THIS_VAR_99/test"), "$THIS_VAR_99/test");
}

#[test]
fn handles_empty_input() {
    assert_eq!(expand_from_env(""), "");
}

#[test]
fn leaves_strings_without_vars_unchanged() {
    assert_eq!(expand_from_env("docker compose"), "docker compose");
}

#[test]
fn expands_mixed_literal_var_literal() {
    let (name, value) = known_var();
    assert_eq!(
        expand_from_env(&format!("prefix-${name}-suffix")),
        format!("prefix-{value}-suffix")
    );
}

#[test]
fn names_are_listed_in_order_of_reference() {
    assert_eq!(
        pwsh_env_var_names("$A:$env:B_1 $ $- $EnV:c9.x $e"),
        vec!["A".to_string(), "B_1".to_string(), "c9".to_string(), "e".to_string()]
    );
    assert!(pwsh_env_var_names("no references $ here").is_empty());
}

#[test]
fn values_take_the_place_of_references_in_order() {
    let values = vec![Some("one".to_string()), None, Some("three".to_string())];
    assert_eq!(
        expand_pwsh_env_vars("[$A][$env:B][$EnV:C]", &values),
        "[one][$env:B][three]"
    );
}

#[test]
fn unset_reference_keeps_its_prefix_as_written() {
    let values = vec![None];
    assert_eq!(expand_pwsh_env_vars("$ENV:X/y", &values), "$ENV:X/y");
    assert_eq!(expand_pwsh_env_vars("$EnV:X/y", &values), "$EnV:X/y");
    assert_eq!(expand_from_env("$ENV:SHAKA_MISSING_1/x"), "$ENV:SHAKA_MISSING_1/x");
}

#[test]
fn commands_are_expanded_in_map_order() {
    let mut entries = indexmap::IndexMap::new();
    entries.insert("a".to_string(), "$X and $Y".to_string());
    entries.insert("b".to_string(), "plain".to_string());
    entries.insert("c".to_string(), "$Z".to_string());
    let values = vec![vec![Some("x".to_string()), None], vec![]];
    let expanded: Vec<_> = expand_commands(&entries, &values).into_iter().collect();
    assert_eq!(
        expanded,
        vec![
            ("a".to_string(), "x and $Y".to_string()),
            ("b".to_string(), "plain".to_string()),
            ("c".to_string(), "$Z".to_string()),
        ]
    );
}

#[test]
fn env_prefix_without_name_is_literal() {
    assert!(pwsh_env_var_names("$env:").is_empty());
    let values = vec![Some("E".to_string())];
    assert_eq!(expand_pwsh_env_vars("$env:", &values), "$env:");
    assert_eq!(expand_pwsh_env_vars("$env:-x", &values), "$env:-x");
    // Without the colon, "env" is the name itself.
    assert_eq!(expand_pwsh_env_vars("$env-x", &values), "E-x");
}

#[test]
fn missing_values_count_as_unset_and_extra_ones_are_ignored() {
    let none: Vec<Option<String>> = Vec::new();
    assert_eq!(expand_pwsh_env_vars("$A-$B", &none), "$A-$B");
    let extra = vec![Some("a".to_string()), Some("b".to_string()), Some("c".to_string())];
    assert_eq!(expand_pwsh_env_vars("$A-$B", &extra), "a-b");
}

#[test]
fn readme_example_expands_home() {
    let values = vec![Some("C:\\Users\\Sayad".to_string())];
    assert_eq!(
        expand_pwsh_env_vars("$HOME/scoop/apps/opencode-desktop/current/OpenCode", &values),
        "C:\\Users\\Sayad/scoop/apps/opencode-desktop/current/OpenCode"
    );
}

#[test]
fn non_ascii_text_is_kept() {
    let values = vec![Some("ü".to_string())];
    assert_eq!(expand_pwsh_env_vars("é$Xñ", &values), "éüñ");
    assert_eq!(expand_pwsh_env_vars("é$ñ", &values), "é$ñ");
}
