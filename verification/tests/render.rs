use indexmap::IndexMap;
use shaka::render::{fish, pwsh, render, render_with_env, sh, Shell};

fn one_entry() -> IndexMap<String, String> {
    let mut entries = IndexMap::new();
    entries.insert("dc".to_string(), "docker compose".to_string());
    entries
}

#[test]
fn dispatches_bash_to_sh_renderer() {
    let mut entries = IndexMap::new();
    entries.insert("dc".to_string(), "docker compose".to_string());
    assert_eq!(render(Shell::Bash, &entries), "alias dc='docker compose'\n");
}

#[test]
fn dispatches_zsh_to_sh_renderer() {
    let mut entries = IndexMap::new();
    entries.insert("dc".to_string(), "docker compose".to_string());
    assert_eq!(render(Shell::Zsh, &entries), "alias dc='docker compose'\n");
}

#[test]
fn renders_pwsh_without_conflicts() {
    let mut entries = IndexMap::new();
    entries.insert("dc".to_string(), "docker compose".to_string());
    assert_eq!(
        pwsh::render(&entries, false),
        "Remove-Item Alias:dc -ErrorAction Ignore\nfunction dc { docker compose @args }\n"
    );
}

#[test]
fn renders_pwsh_conflict_mode() {
    let mut entries = IndexMap::new();
    entries.insert("dc".to_string(), "docker compose".to_string());
    assert_eq!(
        pwsh::render(&entries, true),
        "function dc { docker compose @args }\n"
    );
}

#[test]
fn renders_sh_aliases() {
    let mut entries = IndexMap::new();
    entries.insert("dc".to_string(), "docker compose".to_string());
    assert_eq!(sh::render(&entries), "alias dc='docker compose'\n");
}

#[test]
fn dispatches_fish_and_pwsh() {
    let entries = one_entry();
    assert_eq!(render(Shell::Fish, &entries), "alias dc='docker compose'\n");
    assert_eq!(fish::render(&entries), "alias dc='docker compose'\n");
    assert_eq!(
        render(Shell::Pwsh, &entries),
        "Remove-Item Alias:dc -ErrorAction Ignore\nfunction dc { docker compose @args }\n"
    );
    assert_eq!(
        render(Shell::PwshConflict, &entries),
        "function dc { docker compose @args }\n"
    );
}

#[test]
fn renders_entries_in_map_order() {
    let mut entries = IndexMap::new();
    entries.insert("gs".to_string(), "git status".to_string());
    entries.insert("dc".to_string(), "docker compose".to_string());
    assert_eq!(
        sh::render(&entries),
        "alias gs='git status'\nalias dc='docker compose'\n"
    );
    assert_eq!(
        pwsh::render(&entries, true),
        "function gs { git status @args }\nfunction dc { docker compose @args }\n"
    );
}

#[test]
fn empty_config_renders_nothing() {
    let entries: IndexMap<String, String> = IndexMap::new();
    assert_eq!(render(Shell::Bash, &entries), "");
    assert_eq!(render(Shell::Pwsh, &entries), "");
}

#[test]
fn single_quotes_are_escaped_for_posix_shells() {
    assert_eq!(sh::escape_single_quotes("echo 'hi'"), "echo '\\''hi'\\''");
    assert_eq!(sh::escape_single_quotes("no quotes"), "no quotes");
    assert_eq!(sh::escape_single_quotes(""), "");
    let mut entries = IndexMap::new();
    entries.insert("hi".to_string(), "echo 'hi'".to_string());
    assert_eq!(sh::render(&entries), "alias hi='echo '\\''hi'\\'''\n");
}

#[test]
fn shells_are_named_on_the_command_line() {
    assert!(matches!(Shell::from_name("bash"), Some(Shell::Bash)));
    assert!(matches!(Shell::from_name("fish"), Some(Shell::Fish)));
    assert!(matches!(Shell::from_name("pwsh"), Some(Shell::Pwsh)));
    assert!(matches!(Shell::from_name("pwsh-conflict"), Some(Shell::PwshConflict)));
    assert!(matches!(Shell::from_name("zsh"), Some(Shell::Zsh)));
    assert!(Shell::from_name("sh").is_none());
    assert!(Shell::from_name("Bash").is_none());
    assert!(Shell::from_name("").is_none());
}

#[test]
fn only_powershell_expands_env_vars() {
    assert!(Shell::Pwsh.expands_env_vars());
    assert!(Shell::PwshConflict.expands_env_vars());
    assert!(!Shell::Bash.expands_env_vars());
    assert!(!Shell::Fish.expands_env_vars());
    assert!(!Shell::Zsh.expands_env_vars());
}

#[test]
fn readme_pwsh_expands_home_before_rendering() {
    let mut entries = IndexMap::new();
    entries.insert(
        "ocd".to_string(),
        "$HOME/scoop/apps/opencode-desktop/current/OpenCode".to_string(),
    );
    let values = vec![vec![Some("C:\\Users\\Sayad".to_string())]];
    let out = render_with_env(Shell::Pwsh, &entries, &values);
    assert!(out
        .lines()
        .any(|l| l == "function ocd { C:\\Users\\Sayad/scoop/apps/opencode-desktop/current/OpenCode @args }"));
    assert_eq!(
        render_with_env(Shell::PwshConflict, &entries, &values),
        "function ocd { C:\\Users\\Sayad/scoop/apps/opencode-desktop/current/OpenCode @args }\n"
    );
    // Other shells keep the command as written.
    assert_eq!(
        render_with_env(Shell::Bash, &entries, &values),
        "alias ocd='$HOME/scoop/apps/opencode-desktop/current/OpenCode'\n"
    );
}

#[test]
fn conflict_mode_drops_only_the_alias_removals() {
    let mut entries = IndexMap::new();
    entries.insert("gs".to_string(), "git status".to_string());
    entries.insert("dc".to_string(), "docker compose".to_string());
    let full = pwsh::render(&entries, false);
    let kept: String = full
        .lines()
        .filter(|l| !l.starts_with("Remove-Item Alias:"))
        .map(|l| format!("{l}\n"))
        .collect();
    assert_eq!(kept, pwsh::render(&entries, true));
}

#[test]
fn escaped_text_reads_back_through_single_quotes() {
    let input = "it's a 'test'";
    let escaped = sh::escape_single_quotes(input);
    assert_eq!(escaped.replace("'\\''", "'"), input);
}
