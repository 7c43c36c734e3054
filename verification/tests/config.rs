use indexmap::IndexMap;
use shaka::config::{
    config_locations, load_from_files, merge_pairs, normalize, ConfigFile, ConfigForm, ConfigFormat,
    ConfigLocation, ConfigSource,
};
use std::collections::BTreeMap;

fn pair(k: &str, v: &str) -> (String, String) {
    (k.to_string(), v.to_string())
}

fn map(entries: &[(&str, &str)]) -> ConfigForm {
    ConfigForm::Mapping(entries.iter().map(|(k, v)| pair(k, v)).collect::<BTreeMap<String, String>>())
}

fn loaded(path: &str, form: ConfigForm) -> ConfigFile {
    ConfigFile { path: path.to_string(), source: ConfigSource::Loaded(form) }
}

#[test]
fn duplicate_key_moves_to_latest_position() {
    let mut merged = IndexMap::new();
    merge_pairs(
        &mut merged,
        vec![
            ("a".to_string(), "1".to_string()),
            ("b".to_string(), "2".to_string()),
        ],
    );
    merge_pairs(
        &mut merged,
        vec![
            ("a".to_string(), "3".to_string()),
            ("c".to_string(), "4".to_string()),
        ],
    );

    let items: Vec<_> = merged.into_iter().collect();
    assert_eq!(
        items,
        vec![
            ("b".to_string(), "2".to_string()),
            ("a".to_string(), "3".to_string()),
            ("c".to_string(), "4".to_string()),
        ]
    );
}

#[test]
fn later_sources_override_earlier_sources() {
    let files = vec![
        loaded("global.yaml", map(&[("dc", "docker compose"), ("ls", "eza")])),
        loaded("project.json", map(&[("dc", "docker compose -f dev.yml")])),
    ];
    let merged = load_from_files(files).unwrap();
    let items: Vec<_> = merged.into_iter().collect();
    assert_eq!(
        items,
        vec![
            ("ls".to_string(), "eza".to_string()),
            ("dc".to_string(), "docker compose -f dev.yml".to_string())
        ]
    );
}

#[test]
fn readme_precedence_example() {
    let files = vec![
        loaded("~/.config/shaka.yaml", map(&[("dc", "docker compose"), ("ls", "eza")])),
        loaded(
            "./.shaka.yaml",
            ConfigForm::Pairs(vec![pair("dc", "docker compose -f dev.yml"), pair("test", "cargo test")]),
        ),
    ];
    let items: Vec<_> = load_from_files(files).unwrap().into_iter().collect();
    assert_eq!(
        items,
        vec![
            pair("ls", "eza"),
            pair("dc", "docker compose -f dev.yml"),
            pair("test", "cargo test"),
        ]
    );
}

#[test]
fn repeated_pair_in_one_file_keeps_the_last() {
    let mut merged = IndexMap::new();
    merge_pairs(&mut merged, vec![pair("a", "1"), pair("b", "2"), pair("a", "3")]);
    let items: Vec<_> = merged.into_iter().collect();
    assert_eq!(items, vec![pair("b", "2"), pair("a", "3")]);
}

#[test]
fn merging_nothing_changes_nothing() {
    let mut merged = IndexMap::new();
    merge_pairs(&mut merged, vec![pair("x", "1"), pair("y", "2")]);
    merge_pairs(&mut merged, Vec::new());
    let items: Vec<_> = merged.into_iter().collect();
    assert_eq!(items, vec![pair("x", "1"), pair("y", "2")]);
}

#[test]
fn no_files_load_an_empty_config() {
    assert!(load_from_files(Vec::new()).unwrap().is_empty());
}

#[test]
fn normalize_keeps_the_order_of_each_form() {
    assert_eq!(
        normalize(map(&[("ls", "eza"), ("dc", "docker compose")])),
        vec![pair("dc", "docker compose"), pair("ls", "eza")]
    );
    assert_eq!(
        normalize(ConfigForm::Pairs(vec![pair("ls", "eza"), pair("dc", "docker compose")])),
        vec![pair("ls", "eza"), pair("dc", "docker compose")]
    );
}

#[test]
fn unreadable_file_fails_the_load() {
    let files = vec![
        loaded("a.yaml", ConfigForm::Pairs(vec![pair("a", "1")])),
        ConfigFile { path: "b.json".to_string(), source: ConfigSource::ReadFailed("permission denied".to_string()) },
    ];
    assert_eq!(load_from_files(files).unwrap_err(), "failed reading b.json: permission denied");
}

#[test]
fn invalid_yaml_fails_the_load() {
    let files = vec![ConfigFile {
        path: "x.yaml".to_string(),
        source: ConfigSource::YamlFailed("bad indent".to_string()),
    }];
    assert_eq!(load_from_files(files).unwrap_err(), "failed parsing YAML x.yaml: bad indent");
}

#[test]
fn invalid_jsonc_fails_the_load() {
    let files = vec![ConfigFile {
        path: "x.json".to_string(),
        source: ConfigSource::JsoncFailed("empty JSON input".to_string()),
    }];
    assert_eq!(load_from_files(files).unwrap_err(), "failed parsing JSONC x.json: empty JSON input");
}

#[test]
fn first_failure_wins() {
    let files = vec![
        ConfigFile { path: "one".to_string(), source: ConfigSource::YamlFailed("e1".to_string()) },
        ConfigFile { path: "two".to_string(), source: ConfigSource::ReadFailed("e2".to_string()) },
    ];
    assert_eq!(load_from_files(files).unwrap_err(), "failed parsing YAML one: e1");
}

#[test]
fn normalize_lists_a_map_in_ascending_name_order() {
    assert_eq!(normalize(map(&[("z", "1"), ("a", "2")])), vec![pair("a", "2"), pair("z", "1")]);
    // Upper case sorts before lower case, as in String's order.
    assert_eq!(
        normalize(map(&[("b", "1"), ("B", "2"), ("ä", "3"), ("a", "4")])),
        vec![pair("B", "2"), pair("a", "4"), pair("b", "1"), pair("ä", "3")]
    );
}

#[test]
fn merging_the_same_pairs_twice_is_merging_once() {
    let pairs = vec![pair("a", "1"), pair("b", "2"), pair("a", "3")];
    let mut once = IndexMap::new();
    once.insert("c".to_string(), "0".to_string());
    once.insert("a".to_string(), "9".to_string());
    let mut twice = once.clone();
    merge_pairs(&mut once, pairs.clone());
    merge_pairs(&mut twice, pairs.clone());
    merge_pairs(&mut twice, pairs);
    let once: Vec<_> = once.into_iter().collect();
    let twice: Vec<_> = twice.into_iter().collect();
    assert_eq!(once, twice);
    assert_eq!(once, vec![pair("c", "0"), pair("b", "2"), pair("a", "3")]);
}

#[test]
fn global_files_come_before_project_files() {
    assert_eq!(
        config_locations(true, true),
        vec![ConfigLocation::HomeConfigYaml, ConfigLocation::HomeConfigJson, ConfigLocation::HomeYaml, ConfigLocation::HomeJson, ConfigLocation::ProjectYaml, ConfigLocation::ProjectJson]
    );
    assert_eq!(config_locations(false, true), vec![ConfigLocation::ProjectYaml, ConfigLocation::ProjectJson]);
    assert_eq!(config_locations(true, false), vec![ConfigLocation::HomeConfigYaml, ConfigLocation::HomeConfigJson, ConfigLocation::HomeYaml, ConfigLocation::HomeJson]);
    assert!(config_locations(false, false).is_empty());
}

#[test]
fn locations_name_their_files() {
    let described: Vec<(bool, Option<&str>, &str)> = config_locations(true, true)
        .iter()
        .map(|l| (l.under_home(), l.subdirectory(), l.file_name()))
        .collect();
    assert_eq!(
        described,
        vec![
            (true, Some(".config"), "shaka.yaml"),
            (true, Some(".config"), "shaka.json"),
            (true, None, ".shaka.yaml"),
            (true, None, ".shaka.json"),
            (false, None, ".shaka.yaml"),
            (false, None, ".shaka.json"),
        ]
    );
    assert!(!ConfigLocation::ProjectJson.under_home());
}

#[test]
fn yaml_files_are_read_as_yaml() {
    let formats: Vec<ConfigFormat> = config_locations(true, true).iter().map(|l| l.format()).collect();
    assert_eq!(
        formats,
        vec![
            ConfigFormat::Yaml,
            ConfigFormat::Jsonc,
            ConfigFormat::Yaml,
            ConfigFormat::Jsonc,
            ConfigFormat::Yaml,
            ConfigFormat::Jsonc,
        ]
    );
}
