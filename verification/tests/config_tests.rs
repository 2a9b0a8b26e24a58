use matrix_bot::check_format::{check_format, CheckFormatError, CheckFormatSuccess, MessageFormat};
use matrix_bot::config::{Config, ConfigError, InsensitiveSpelling, MatrixListenerConfig,
    RawConfig, RawGeneral, RawGithubAuthentication, RawMatrixAuthentication, SensitiveSpelling,
    SpellCheckKind, WebhookListenerConfig};
use matrix_bot::group_ping::load_group_ping_settings;

fn base_raw() -> RawConfig {
    RawConfig {
        general: RawGeneral {
            authorized_users: Some(vec![String::from("@admin:example.com")]),
            help_rooms: None,
            enable_unit_conversions: false,
            enable_corrections: false,
            unit_conversion_exclusion: None,
            insensitive_corrections: None,
            sensitive_corrections: None,
            correction_text: None,
            correction_exclusion: None,
            link_matchers: None,
            webhook_token: String::from("shared-secret"),
        },
        matrix_authentication: RawMatrixAuthentication {
            url: String::from("https://matrix.example.com"),
            username: String::from("@bot:example.com"),
            password: String::from("hunter2"),
        },
        github_authentication: None,
        searchable_repos: None,
        linkable_urls: None,
        group_pings: None,
    }
}

fn assemble(raw: &RawConfig) -> Result<Config, ConfigError> {
    Config::assemble(raw, "matrix-bot", "0.3.4")
}

#[test]
fn repos_without_token_is_fatal_with_search_code() {
    let mut raw = base_raw();
    raw.searchable_repos = Some(vec![(String::from("bot"), String::from("org/bot"))]);
    raw.github_authentication = None;
    let err = assemble(&raw).err().expect("must be fatal");
    assert!(matches!(err, ConfigError::SearchMisconfigured));
    assert_eq!(err.exit_code(), 4);
}

#[test]
fn repos_with_token_enable_search() {
    let mut raw = base_raw();
    raw.searchable_repos = Some(vec![(String::from("bot"), String::from("org/bot"))]);
    raw.github_authentication =
        Some(RawGithubAuthentication { access_token: String::from("tok123") });
    let config = assemble(&raw).ok().expect("must assemble");
    assert_eq!(config.repos.len(), 1);
    assert_eq!(config.repos[0].0, "bot");
    assert_eq!(config.repos[0].1, "org/bot");
    assert_eq!(config.gh_access_token, "tok123");
}

#[test]
fn absent_repos_disable_search_silently() {
    let config = assemble(&base_raw()).ok().expect("must assemble");
    assert!(config.repos.is_empty());
    assert_eq!(config.gh_access_token, "");
}

#[test]
fn empty_linkable_urls_with_matchers_is_fatal() {
    let mut raw = base_raw();
    raw.linkable_urls = Some(Vec::new());
    raw.general.link_matchers = Some(vec![String::from("link")]);
    let err = assemble(&raw).err().expect("must be fatal");
    assert!(matches!(err, ConfigError::LinkersMisconfigured));
    assert_eq!(err.exit_code(), 1);
}

#[test]
fn wholly_absent_link_sections_disable_linking() {
    let config = assemble(&base_raw()).ok().expect("must assemble");
    assert!(config.linkers.is_empty());
    assert!(config.links.is_empty());
}

#[test]
fn urls_without_matchers_disable_linking() {
    let mut raw = base_raw();
    raw.linkable_urls = Some(vec![(String::from("docs"), String::from("https://example.com/d"))]);
    raw.general.link_matchers = None;
    let config = assemble(&raw).ok().expect("must assemble");
    assert!(config.linkers.is_empty());
    assert!(config.links.is_empty());
}

#[test]
fn linking_enabled_copies_urls_and_matchers() {
    let mut raw = base_raw();
    raw.linkable_urls = Some(vec![(String::from("docs"), String::from("https://example.com/d"))]);
    raw.general.link_matchers = Some(vec![String::from("link"), String::from("linkify")]);
    let config = assemble(&raw).ok().expect("must assemble");
    assert_eq!(config.linkers.len(), 2);
    assert_eq!(config.links.len(), 1);
    assert_eq!(config.links[0].0, "docs");
    assert_eq!(config.links[0].1, "https://example.com/d");
}

#[test]
fn invalid_link_url_is_fatal() {
    let mut raw = base_raw();
    raw.linkable_urls = Some(vec![(String::from("bad"), String::from(""))]);
    raw.general.link_matchers = Some(vec![String::from("link")]);
    let err = assemble(&raw).err().expect("must be fatal");
    assert!(matches!(err, ConfigError::BadLinkUrl));
}

#[test]
fn corrections_missing_template_is_fatal_with_corrections_code() {
    let mut raw = base_raw();
    raw.general.enable_corrections = true;
    raw.general.insensitive_corrections = Some(vec![String::from("teh")]);
    raw.general.sensitive_corrections = Some(vec![String::from("JSON")]);
    raw.general.correction_text = None;
    let err = assemble(&raw).err().expect("must be fatal");
    assert!(matches!(err, ConfigError::CorrectionsMisconfigured));
    assert_eq!(err.exit_code(), 5);
}

#[test]
fn corrections_missing_insensitive_list_is_fatal() {
    let mut raw = base_raw();
    raw.general.enable_corrections = true;
    raw.general.insensitive_corrections = None;
    raw.general.sensitive_corrections = Some(vec![String::from("JSON")]);
    raw.general.correction_text = Some(String::from("{} should be {}"));
    assert!(assemble(&raw).is_err());
}

#[test]
fn corrections_missing_sensitive_list_is_fatal() {
    let mut raw = base_raw();
    raw.general.enable_corrections = true;
    raw.general.insensitive_corrections = Some(vec![String::from("teh")]);
    raw.general.sensitive_corrections = None;
    raw.general.correction_text = Some(String::from("{} should be {}"));
    assert!(assemble(&raw).is_err());
}

#[test]
fn corrections_with_all_fields_and_no_exclusion_yield_empty_exclusion() {
    let mut raw = base_raw();
    raw.general.enable_corrections = true;
    raw.general.insensitive_corrections = Some(vec![String::from("teh"), String::from("recieve")]);
    raw.general.sensitive_corrections = Some(vec![String::from("JSON")]);
    raw.general.correction_text = Some(String::from("{} should be {}"));
    raw.general.correction_exclusion = None;
    let config = assemble(&raw).ok().expect("must assemble");
    assert!(config.correction_exclusion.is_empty());
    assert_eq!(config.correction_text, "{} should be {}");
    assert_eq!(config.incorrect_spellings.len(), 3);
    match &config.incorrect_spellings[0] {
        SpellCheckKind::SpellCheckInsensitive(s) => assert_eq!(s.spelling, "teh"),
        _ => panic!("first rule must be insensitive"),
    }
    match &config.incorrect_spellings[2] {
        SpellCheckKind::SpellCheckSensitive(s) => assert_eq!(s.spelling, "JSON"),
        _ => panic!("third rule must be sensitive"),
    }
}

#[test]
fn corrections_disabled_yield_empty_values_regardless() {
    let mut raw = base_raw();
    raw.general.enable_corrections = false;
    raw.general.insensitive_corrections = Some(vec![String::from("teh")]);
    let config = assemble(&raw).ok().expect("must assemble");
    assert!(config.incorrect_spellings.is_empty());
    assert_eq!(config.correction_text, "");
    assert!(config.correction_exclusion.is_empty());
}

#[test]
fn missing_admins_is_fatal_with_admin_code() {
    let mut raw = base_raw();
    raw.general.authorized_users = None;
    let err = assemble(&raw).err().expect("must be fatal");
    assert!(matches!(err, ConfigError::MissingAdmins));
    assert_eq!(err.exit_code(), 6);
}

#[test]
fn unit_conversion_exclusions_get_one_leading_space() {
    let mut raw = base_raw();
    raw.general.unit_conversion_exclusion =
        Some(vec![String::from("km"), String::from("mi")]);
    let config = assemble(&raw).ok().expect("must assemble");
    assert_eq!(config.unit_conversion_exclusion, vec![String::from(" km"), String::from(" mi")]);
}

#[test]
fn invalid_homeserver_url_is_fatal() {
    let mut raw = base_raw();
    raw.matrix_authentication.url = String::from("");
    let err = assemble(&raw).err().expect("must be fatal");
    assert!(matches!(err, ConfigError::BadHomeserverUrl));
}

#[test]
fn invalid_user_agent_is_fatal() {
    let raw = base_raw();
    let err = Config::assemble(&raw, "matrix\nbot", "0.3.4").err().expect("must be fatal");
    assert!(matches!(err, ConfigError::BadUserAgent));
}

#[test]
fn assembled_config_copies_credentials_verbatim() {
    let config = assemble(&base_raw()).ok().expect("must assemble");
    assert_eq!(config.mx_url, "https://matrix.example.com");
    assert_eq!(config.mx_uname, "@bot:example.com");
    assert_eq!(config.mx_pass, "hunter2");
    assert_eq!(config.webhook_token, "shared-secret");
    assert_eq!(config.user_agent, "matrix-bot/0.3.4");
    assert_eq!(config.admins, vec![String::from("@admin:example.com")]);
    assert!(config.help_rooms.is_empty());
}

#[test]
fn group_alias_expands_one_level() {
    let mut raw = base_raw();
    raw.group_pings = Some(vec![
        (String::from("A"), vec![String::from("@u1:example.com"), String::from("%B")]),
        (String::from("B"), vec![String::from("@u2:example.com")]),
    ]);
    let (groups, users) = load_group_ping_settings(&raw).ok().expect("must resolve");
    assert_eq!(groups.len(), 2);
    assert_eq!(groups[0].0, "A");
    let mut a = groups[0].1.clone();
    a.sort();
    assert_eq!(a, vec![String::from("@u1:example.com"), String::from("@u2:example.com")]);
    assert_eq!(groups[1].1, vec![String::from("@u2:example.com")]);
    let mut u = users.clone();
    u.sort();
    assert_eq!(u, vec![String::from("@u1:example.com"), String::from("@u2:example.com")]);
}

#[test]
fn chained_aliases_do_not_expand() {
    let mut raw = base_raw();
    raw.group_pings = Some(vec![
        (String::from("A"), vec![String::from("%B")]),
        (String::from("B"), vec![String::from("%C")]),
        (String::from("C"), vec![String::from("@u3:example.com")]),
    ]);
    let (groups, users) = load_group_ping_settings(&raw).ok().expect("must resolve");
    assert_eq!(groups[0].0, "A");
    assert!(groups[0].1.is_empty());
    assert_eq!(groups[1].1, vec![String::from("@u3:example.com")]);
    assert_eq!(groups[2].1, vec![String::from("@u3:example.com")]);
    assert_eq!(users, vec![String::from("@u3:example.com")]);
}

#[test]
fn unresolved_alias_is_dropped() {
    let mut raw = base_raw();
    raw.group_pings = Some(vec![(
        String::from("A"),
        vec![String::from("@u1:example.com"), String::from("%nosuch")],
    )]);
    let (groups, _) = load_group_ping_settings(&raw).ok().expect("must resolve");
    assert_eq!(groups[0].1, vec![String::from("@u1:example.com")]);
}

#[test]
fn repeated_tokens_yield_one_member() {
    let mut raw = base_raw();
    raw.group_pings = Some(vec![(
        String::from("A"),
        vec![String::from("@u1:example.com"), String::from("@u1:example.com")],
    )]);
    let (groups, users) = load_group_ping_settings(&raw).ok().expect("must resolve");
    assert_eq!(groups[0].1, vec![String::from("@u1:example.com")]);
    assert_eq!(users, vec![String::from("@u1:example.com")]);
}

#[test]
fn malformed_handle_token_is_fatal() {
    let mut raw = base_raw();
    raw.group_pings = Some(vec![(String::from("A"), vec![String::from("not-a-handle")])]);
    let err = load_group_ping_settings(&raw).err().expect("must be fatal");
    assert!(matches!(err, ConfigError::BadGroupPingUser));
}

#[test]
fn absent_group_pings_disable_the_feature() {
    let config = assemble(&base_raw()).ok().expect("must assemble");
    assert!(config.group_pings.is_empty());
    assert!(config.group_ping_users.is_empty());
}

#[test]
fn listener_config_copies_every_field() {
    let mut raw = base_raw();
    raw.searchable_repos = Some(vec![(String::from("bot"), String::from("org/bot"))]);
    raw.github_authentication =
        Some(RawGithubAuthentication { access_token: String::from("tok123") });
    let config = assemble(&raw).ok().expect("must assemble");
    let listener = MatrixListenerConfig::new(&config);
    assert_eq!(listener.mx_url, config.mx_url);
    assert_eq!(listener.mx_uname, config.mx_uname);
    assert_eq!(listener.mx_pass, config.mx_pass);
    assert_eq!(listener.gh_access_token, config.gh_access_token);
    assert_eq!(listener.user_agent, config.user_agent);
    assert_eq!(listener.repos, config.repos);
    assert_eq!(listener.admins, config.admins);
}

#[test]
fn webhook_config_holds_the_token() {
    let w = WebhookListenerConfig { token: String::from("shared-secret") };
    assert_eq!(w.token, "shared-secret");
}

#[test]
fn spelling_rules_expose_their_text() {
    let a = SpellCheckKind::SpellCheckInsensitive(InsensitiveSpelling::from("teh"));
    let b = SpellCheckKind::SpellCheckSensitive(SensitiveSpelling::from("JSON"));
    assert_eq!(a.text(), "teh");
    assert_eq!(b.text(), "JSON");
}

#[test]
fn html_format_is_supported() {
    let r = check_format(Some(&MessageFormat::Html));
    assert!(matches!(r, Ok(CheckFormatSuccess::FormatSupported(MessageFormat::Html))));
}

#[test]
fn missing_format_is_accepted_as_no_format() {
    let r = check_format(None);
    assert!(matches!(r, Ok(CheckFormatSuccess::NoFormat)));
}

#[test]
fn other_format_is_rejected_under_its_name() {
    let r = check_format(Some(&MessageFormat::Custom(String::from("org.example.markdown"))));
    match r {
        Err(CheckFormatError::FormatNotSupported(name)) => {
            assert_eq!(name, "org.example.markdown");
            let e = CheckFormatError::FormatNotSupported(name);
            assert_eq!(e.message(), "Format org.example.markdown is not supported");
        },
        _ => panic!("custom format must be rejected"),
    }
}
