use grit::config::{extract, merge_configs, parse_file_config, Config};

fn pair(k: &str, v: &str) -> (String, String) {
    (k.to_string(), v.to_string())
}

#[test]
fn extract_defaults_to_empty() {
    let settings = vec![pair("user.name", "Ann")];
    assert_eq!(extract(&settings, "user.name"), "Ann");
    assert_eq!(extract(&settings, "user.email"), "");
}

#[test]
fn later_sources_win() {
    let system = vec![pair("author.name", "System"), pair("author.email", "s@x")];
    let user = vec![pair("author.name", "User")];
    let env = vec![pair("author.date", "5 +0000"), pair("author.name", "Env")];
    let merged = merge_configs(&vec![system, user, parse_file_config(&".git/config".to_string()), env]);
    assert_eq!(merged.len(), 3);
    assert_eq!(extract(&merged, "author.name"), "Env");
    assert_eq!(extract(&merged, "author.email"), "s@x");
    assert_eq!(extract(&merged, "author.date"), "5 +0000");
}

#[test]
fn builds_the_three_identities() {
    let raw = vec![
        pair("user.name", "U"),
        pair("author.name", "A"),
        pair("author.email", "a@x"),
        pair("committer.name", "C"),
        pair("committer.date", "7 +0100"),
    ];
    let config = Config::build(&raw);
    assert_eq!(config.user.name, "U");
    assert_eq!(config.user.email, "");
    assert_eq!(config.author.name, "A");
    assert_eq!(config.author.email, "a@x");
    assert_eq!(config.author.date, "");
    assert_eq!(config.committer.name, "C");
    assert_eq!(config.committer.date, "7 +0100");
}

#[test]
fn file_config_is_empty() {
    assert!(parse_file_config(&"/etc/gitconfig".to_string()).is_empty());
}
