use shaka::config::{jsonc_document, normalize, ConfigForm};
use std::collections::BTreeMap;

/// A YAML configuration as the library receives it: a map, or else a list
/// of pairs.
fn parse_yaml_pairs(content: &str) -> Result<Vec<(String, String)>, String> {
    let form = match serde_yaml_ng::from_str::<BTreeMap<String, String>>(content) {
        Ok(map) => ConfigForm::Mapping(map),
        Err(_) => ConfigForm::Pairs(
            serde_yaml_ng::from_str::<Vec<(String, String)>>(content).map_err(|e| e.to_string())?,
        ),
    };
    Ok(normalize(form))
}

/// A JSONC configuration as the library receives it: a map, or else a list
/// of pairs.
fn parse_jsonc_pairs(content: &str) -> Result<Vec<(String, String)>, String> {
    let document =
        jsonc_parser::parse_to_serde_value::<Option<serde_json::Value>>(content, &Default::default())
            .map_err(|err| err.to_string())?;
    let value = jsonc_document(document)?;
    let form = match serde_json::from_value::<BTreeMap<String, String>>(value.clone()) {
        Ok(map) => ConfigForm::Mapping(map),
        Err(_) => ConfigForm::Pairs(
            serde_json::from_value::<Vec<(String, String)>>(value).map_err(|e| e.to_string())?,
        ),
    };
    Ok(normalize(form))
}

#[test]
fn parses_yaml_map() {
    let pairs = parse_yaml_pairs("dc: docker compose\nls: eza\n").unwrap();
    assert_eq!(
        pairs,
        vec![
            ("dc".to_string(), "docker compose".to_string()),
            ("ls".to_string(), "eza".to_string())
        ]
    );
}

#[test]
fn parses_yaml_pairs_array() {
    let pairs = parse_yaml_pairs("- [dc, docker compose]\n- [ls, eza]\n").unwrap();
    assert_eq!(
        pairs,
        vec![
            ("dc".to_string(), "docker compose".to_string()),
            ("ls".to_string(), "eza".to_string())
        ]
    );
}

#[test]
fn parses_jsonc_map() {
    let pairs =
        parse_jsonc_pairs("{\n // comment\n \"dc\": \"docker compose\",\n \"ls\": \"eza\"\n}")
            .unwrap();
    assert_eq!(
        pairs,
        vec![
            ("dc".to_string(), "docker compose".to_string()),
            ("ls".to_string(), "eza".to_string())
        ]
    );
}

#[test]
fn parses_jsonc_pairs_array() {
    let pairs = parse_jsonc_pairs("[[\"dc\",\"docker compose\"],[\"ls\",\"eza\"]]").unwrap();
    assert_eq!(
        pairs,
        vec![
            ("dc".to_string(), "docker compose".to_string()),
            ("ls".to_string(), "eza".to_string())
        ]
    );
}

#[test]
fn yaml_map_comes_in_name_order() {
    let pairs = parse_yaml_pairs("zz: last\naa: first\n").unwrap();
    assert_eq!(
        pairs,
        vec![("aa".to_string(), "first".to_string()), ("zz".to_string(), "last".to_string())]
    );
}

#[test]
fn empty_jsonc_input_is_an_error() {
    assert_eq!(parse_jsonc_pairs("").unwrap_err(), "empty JSON input");
    assert_eq!(parse_jsonc_pairs("  // only a comment\n").unwrap_err(), "empty JSON input");
    assert_eq!(jsonc_document(Some(3)), Ok(3));
    assert_eq!(jsonc_document::<u8>(None), Err("empty JSON input".to_string()));
}
