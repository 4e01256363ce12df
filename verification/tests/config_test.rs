use twinz::config::{parse_twinzfile, split_words, trim_quote_chars, ConfigError, Directive, ServerConfig};

#[test]
fn parses_server_blocks() {
    let text = "main {\n  storage \"./data\"\n  sync interval 5\n  plugin_dir ./plugins\n}\nbackup {\n sync always\n}\n";
    let configs = parse_twinzfile(text).unwrap();
    assert_eq!(configs.len(), 2);
    assert_eq!(configs[0].name, "main");
    assert_eq!(configs[0].storage_dir.as_deref(), Some("./data"));
    assert_eq!(configs[0].sync_mode.as_deref(), Some("interval"));
    assert_eq!(configs[0].sync_interval, Some(5));
    assert_eq!(configs[0].plugin_dir.as_deref(), Some("./plugins"));
    assert_eq!(configs[1].name, "backup");
    assert_eq!(configs[1].storage_dir, None);
    assert_eq!(configs[1].sync_mode.as_deref(), Some("always"));
    assert_eq!(configs[1].sync_interval, None);
}

#[test]
fn interval_without_number_leaves_next_word() {
    let configs = parse_twinzfile("a { sync interval storage x }").unwrap();
    assert_eq!(configs[0].sync_mode.as_deref(), Some("interval"));
    assert_eq!(configs[0].sync_interval, None);
    assert_eq!(configs[0].storage_dir.as_deref(), Some("x"));
}

#[test]
fn empty_file_has_no_servers() {
    assert_eq!(parse_twinzfile("").unwrap().len(), 0);
    assert_eq!(parse_twinzfile(" \n\t ").unwrap().len(), 0);
}

#[test]
fn config_errors() {
    assert!(matches!(parse_twinzfile("name"), Err(ConfigError::MissingOpenBrace)));
    match parse_twinzfile("name (") {
        Err(ConfigError::UnexpectedToken(t)) => assert_eq!(t, "("),
        other => panic!("unexpected {:?}", other),
    }
    assert!(matches!(parse_twinzfile("name { storage x"), Err(ConfigError::MissingCloseBrace)));
    assert!(matches!(
        parse_twinzfile("name { storage"),
        Err(ConfigError::MissingValue(Directive::Storage))
    ));
    assert!(matches!(parse_twinzfile("name { sync"), Err(ConfigError::MissingValue(Directive::Sync))));
    assert!(matches!(
        parse_twinzfile("name { plugin_dir"),
        Err(ConfigError::MissingValue(Directive::PluginDir))
    ));
    match parse_twinzfile("name { port 80 }") {
        Err(ConfigError::UnknownDirective(d)) => assert_eq!(d, "port"),
        other => panic!("unexpected {:?}", other),
    }
}

#[test]
fn words_split_on_unicode_white_space() {
    let words = split_words("  a\u{3000}bc\u{a0}d \n e  ");
    assert_eq!(words, vec!["a", "bc", "d", "e"]);
    let expected: Vec<&str> = "x  y\tz".split_whitespace().collect();
    assert_eq!(split_words("x  y\tz"), expected);
}

#[test]
fn quotes_are_trimmed_at_both_ends() {
    assert_eq!(trim_quote_chars(&"\"\"a\"b\"\"".to_string()), "a\"b");
    assert_eq!(trim_quote_chars(&"\"\"\"".to_string()), "");
    assert_eq!(trim_quote_chars(&"plain".to_string()), "plain");
}

#[test]
fn default_config() {
    let c = ServerConfig::default();
    assert_eq!(c.name, "twinz_default");
    assert!(c.storage_dir.is_none() && c.sync_mode.is_none() && c.sync_interval.is_none());
    assert!(c.plugin_dir.is_none());
}
