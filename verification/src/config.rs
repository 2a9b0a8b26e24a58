//! Configuration model: the raw on-disk shape, the validated runtime
//! configuration, and the feature resolvers that decide, for each optional
//! feature, between fully enabled and fully disabled — a partially present
//! feature is a fatal misconfiguration, never a silent half-state.

use crate::strutil;
use crate::validators::{header_value_valid, uri_valid};
use vstd::prelude::*;

verus! {

/// Raw general section of the on-disk configuration.
pub struct RawGeneral {
    /// Users that may invite the bot to rooms.
    pub authorized_users: Option<Vec<String>>,
    /// Rooms in which help is offered; absent means no restriction.
    pub help_rooms: Option<Vec<String>>,
    /// Whether unit conversions are supported in plain-text messages.
    pub enable_unit_conversions: bool,
    /// Whether the spelling-correction feature is enabled.
    pub enable_corrections: bool,
    /// Units excluded from conversion when a space stands before the unit.
    pub unit_conversion_exclusion: Option<Vec<String>>,
    /// Patterns matched case-insensitively by the correction feature.
    pub insensitive_corrections: Option<Vec<String>>,
    /// Patterns matched case-sensitively by the correction feature.
    pub sensitive_corrections: Option<Vec<String>>,
    /// Message template used when a correction is sent.
    pub correction_text: Option<String>,
    /// Rooms excluded from the correction feature.
    pub correction_exclusion: Option<Vec<String>>,
    /// Words that can trigger URL linking.
    pub link_matchers: Option<Vec<String>>,
    /// Shared secret expected by the webhook listener.
    pub webhook_token: String,
}

/// Raw authentication section for the messaging protocol.
pub struct RawMatrixAuthentication {
    /// Homeserver URL of the bot account.
    pub url: String,
    /// Username of the bot account.
    pub username: String,
    /// Password of the bot account.
    pub password: String,
}

/// Raw authentication section for the issue-tracker search service.
pub struct RawGithubAuthentication {
    /// Access token for the search service.
    pub access_token: String,
}

/// The on-disk configuration, section for section, before validation.
pub struct RawConfig {
    /// General settings and feature toggles.
    pub general: RawGeneral,
    /// Credentials for the messaging protocol.
    pub matrix_authentication: RawMatrixAuthentication,
    /// Credentials for the search service, if configured.
    pub github_authentication: Option<RawGithubAuthentication>,
    /// Mapping of repository short name to its full `org/repo` identifier.
    pub searchable_repos: Option<Vec<(String, String)>>,
    /// Mapping of link key to the URL it stands for.
    pub linkable_urls: Option<Vec<(String, String)>>,
    /// Mapping of group name to its member tokens: a literal user handle or
    /// an alias reference to another group.
    pub group_pings: Option<Vec<(String, Vec<String>)>>,
}

/// A case-insensitive pattern for the correction feature.
pub struct InsensitiveSpelling {
    /// The pattern text.
    pub spelling: String,
}

/// A case-sensitive pattern for the correction feature.
pub struct SensitiveSpelling {
    /// The pattern text.
    pub spelling: String,
}

/// A spelling-check rule: matching semantics differ by the tag.
pub enum SpellCheckKind {
    /// Matched without regard to case.
    SpellCheckInsensitive(InsensitiveSpelling),
    /// Matched exactly.
    SpellCheckSensitive(SensitiveSpelling),
}

impl SpellCheckKind {
    /// The pattern text of the rule, whichever its tag.
    pub fn text(&self) -> (r: String)
        ensures
            match self {
                SpellCheckKind::SpellCheckInsensitive(s) => r@ == s.spelling@,
                SpellCheckKind::SpellCheckSensitive(s) => r@ == s.spelling@,
            },
    {
        match self {
            SpellCheckKind::SpellCheckInsensitive(s) => s.spelling.clone(),
            SpellCheckKind::SpellCheckSensitive(s) => s.spelling.clone(),
        }
    }
}

impl InsensitiveSpelling {
    /// Builds a case-insensitive pattern from the given text.
    pub fn from(s: &str) -> (r: Self)
        ensures
            r.spelling@ == s@,
    {
        InsensitiveSpelling { spelling: s.to_owned() }
    }
}

impl SensitiveSpelling {
    /// Builds a case-sensitive pattern from the given text.
    pub fn from(s: &str) -> (r: Self)
        ensures
            r.spelling@ == s@,
    {
        SensitiveSpelling { spelling: s.to_owned() }
    }
}

/// Configuration of the webhook listener: only its shared secret.
pub struct WebhookListenerConfig {
    /// Shared secret expected on incoming webhook calls.
    pub token: String,
}

/// A fatal misconfiguration found while assembling the runtime
/// configuration.  Every category carries its own process status code so an
/// operator can diagnose the failure from the exit status alone.
#[derive(Clone, Copy, Debug, PartialEq, Eq, Structural)]
pub enum ConfigError {
    /// The homeserver URL does not parse.
    BadHomeserverUrl,
    /// No acceptable client-identity string could be built.
    BadUserAgent,
    /// Searchable repositories are configured without a search-service token.
    SearchMisconfigured,
    /// Link matchers are configured but no linkable URL is set.
    LinkersMisconfigured,
    /// A linkable URL does not parse.
    BadLinkUrl,
    /// Corrections are enabled but a required sub-field is missing.
    CorrectionsMisconfigured,
    /// No authorized administrator is configured.
    MissingAdmins,
    /// A group-ping member token that must be a user handle does not parse.
    BadGroupPingUser,
}

impl ConfigError {
    /// The process status code of the failure category: searchable
    /// repositories without a token, misconfigured corrections and a missing
    /// admin list each carry their own code; the remaining categories share
    /// the generic fatal-configuration code.
    pub fn exit_code(&self) -> (r: u8)
        ensures
            r == match self {
                ConfigError::SearchMisconfigured => 4u8,
                ConfigError::CorrectionsMisconfigured => 5u8,
                ConfigError::MissingAdmins => 6u8,
                _ => 1u8,
            },
    {
        match self {
            ConfigError::SearchMisconfigured => 4,
            ConfigError::CorrectionsMisconfigured => 5,
            ConfigError::MissingAdmins => 6,
            _ => 1,
        }
    }
}

/// Whether the search feature is fatally misconfigured: repositories are
/// present but the search-service token is absent.
pub open spec fn github_misconfigured(toml: RawConfig) -> bool {
    toml.searchable_repos is Some && toml.github_authentication is None
}

/// Resolves the search feature: enabled only if both the repositories and
/// the search-service token are present; repositories without a token are
/// fatal; absent repositories silently disable the feature.
pub fn load_github_settings(toml: &RawConfig) -> (r: Result<
    (Vec<(String, String)>, String),
    ConfigError,
>)
    ensures
        match r {
            Ok(p) => match toml.searchable_repos {
                Some(repos) => {
                    &&& toml.github_authentication matches Some(auth)
                    &&& p.0.deep_view() == repos.deep_view()
                    &&& p.1@ == auth.access_token@
                },
                None => p.0@.len() == 0 && p.1@.len() == 0,
            },
            Err(e) => e == ConfigError::SearchMisconfigured && github_misconfigured(*toml),
        },
        r is Err <==> github_misconfigured(*toml),
{
    match &toml.searchable_repos {
        Some(repos) => match &toml.github_authentication {
            Some(auth) => Ok((strutil::clone_string_pairs(repos), auth.access_token.clone())),
            None => Err(ConfigError::SearchMisconfigured),
        },
        None => Ok((Vec::new(), String::new())),
    }
}

/// Whether every URL value of the mapping is a valid URI.
pub open spec fn all_uris_valid(urls: Seq<(Seq<char>, Seq<char>)>) -> bool {
    forall|i: int| 0 <= i < urls.len() ==> uri_valid(urls[i].1)
}

/// The fatal misconfiguration of the link feature, if any: matchers present
/// with an empty URL mapping, or a URL value that does not parse.
pub open spec fn linker_misconfigured(toml: RawConfig) -> Option<ConfigError> {
    match toml.linkable_urls {
        Some(urls) => match toml.general.link_matchers {
            Some(ms) => if urls@.len() == 0 {
                Some(ConfigError::LinkersMisconfigured)
            } else if !all_uris_valid(urls.deep_view()) {
                Some(ConfigError::BadLinkUrl)
            } else {
                None
            },
            None => None,
        },
        None => None,
    }
}

/// Resolves the link feature: enabled only if both the URL mapping and the
/// matcher words are present; present but empty URLs are fatal, as is a URL
/// that does not parse; a wholly absent section silently disables the
/// feature.
pub fn load_linker_settings(toml: &RawConfig) -> (r: Result<
    (Vec<String>, Vec<(String, String)>),
    ConfigError,
>)
    ensures
        match r {
            Ok(p) => match toml.linkable_urls {
                Some(urls) => match toml.general.link_matchers {
                    Some(ms) => {
                        &&& urls@.len() > 0
                        &&& all_uris_valid(urls.deep_view())
                        &&& p.0.deep_view() == ms.deep_view()
                        &&& p.1.deep_view() == urls.deep_view()
                    },
                    None => p.0@.len() == 0 && p.1@.len() == 0,
                },
                None => p.0@.len() == 0 && p.1@.len() == 0,
            },
            Err(e) => linker_misconfigured(*toml) == Some(e),
        },
        r is Err <==> linker_misconfigured(*toml) is Some,
{
    match &toml.linkable_urls {
        Some(urls) => match &toml.general.link_matchers {
            Some(ms) => {
                if urls.len() == 0 {
                    return Err(ConfigError::LinkersMisconfigured);
                }
                let mut i: usize = 0;
                while i < urls.len()
                    invariant
                        i <= urls@.len(),
                        urls@.len() > 0,
                        toml.linkable_urls matches Some(u) && u == *urls,
                        toml.general.link_matchers is Some,
                        forall|j: int| 0 <= j < i ==> uri_valid(urls.deep_view()[j].1),
                    decreases urls@.len() - i,
                {
                    if !crate::validators::uri_ok(urls[i].1.as_str()) {
                        proof {
                            assert(urls.deep_view()[i as int].1 == urls@[i as int].1@);
                            assert(!all_uris_valid(urls.deep_view()));
                        }
                        return Err(ConfigError::BadLinkUrl);
                    }
                    proof {
                        assert(urls.deep_view()[i as int].1 == urls@[i as int].1@);
                    }
                    i = i + 1;
                }
                Ok((strutil::clone_strings(ms), strutil::clone_string_pairs(urls)))
            },
            None => Ok((Vec::new(), Vec::new())),
        },
        None => Ok((Vec::new(), Vec::new())),
    }
}

/// Resolves the unit-conversion exclusion list: each excluded token is
/// normalized with one leading space, for later substring matching; an
/// absent list yields the empty set.
pub fn load_unit_conversion_settings(toml: &RawConfig) -> (r: Vec<String>)
    ensures
        match toml.general.unit_conversion_exclusion {
            Some(v) => r@.len() == v@.len() && forall|i: int|
                0 <= i < v@.len() ==> r.deep_view()[i] == seq![' '] + v.deep_view()[i],
            None => r@.len() == 0,
        },
{
    match &toml.general.unit_conversion_exclusion {
        Some(v) => {
            let mut out: Vec<String> = Vec::new();
            let mut i: usize = 0;
            while i < v.len()
                invariant
                    i <= v@.len(),
                    out@.len() == i,
                    forall|k: int| 0 <= k < i ==> out@[k]@ == seq![' '] + v@[k]@,
                decreases v@.len() - i,
            {
                let mut s = String::from_str(" ");
                proof {
                    reveal_strlit(" ");
                    assert(s@ =~= seq![' ']);
                }
                s.append(v[i].as_str());
                out.push(s);
                i = i + 1;
            }
            proof {
                assert forall|i: int| 0 <= i < v@.len() implies out.deep_view()[i] == seq![' ']
                    + v.deep_view()[i] by {
                    assert(out.deep_view()[i] == out@[i]@);
                    assert(v.deep_view()[i] == v@[i]@);
                }
            }
            out
        },
        None => Vec::new(),
    }
}

/// Whether the correction feature is fatally misconfigured: the flag is set
/// but one of the required sub-fields is absent.
pub open spec fn spell_misconfigured(toml: RawConfig) -> bool {
    toml.general.enable_corrections && (toml.general.insensitive_corrections is None
        || toml.general.sensitive_corrections is None || toml.general.correction_text is None)
}

/// Whether the rule list holds exactly the case-insensitive patterns
/// followed by the case-sensitive patterns, in order.
pub open spec fn spellings_match(
    rules: Seq<SpellCheckKind>,
    ins: Seq<Seq<char>>,
    sens: Seq<Seq<char>>,
) -> bool {
    &&& rules.len() == ins.len() + sens.len()
    &&& forall|i: int|
        0 <= i < ins.len() ==> (#[trigger] rules[i] matches SpellCheckKind::SpellCheckInsensitive(
            s,
        ) && s.spelling@ == ins[i])
    &&& forall|i: int|
        0 <= i < sens.len() ==> (#[trigger] rules[ins.len() + i] matches
        SpellCheckKind::SpellCheckSensitive(s) && s.spelling@ == sens[i])
}

/// What the resolved correction settings are, relative to the raw
/// configuration: with the flag set, the rule list holds the insensitive
/// patterns then the sensitive ones, the template is copied, and an absent
/// exclusion list defaults to empty; with the flag unset, everything is
/// empty.
pub open spec fn spell_settings_ok(
    toml: RawConfig,
    rules: Seq<SpellCheckKind>,
    text: Seq<char>,
    exclusion: Seq<Seq<char>>,
) -> bool {
    if toml.general.enable_corrections {
        &&& toml.general.insensitive_corrections matches Some(ins)
        &&& toml.general.sensitive_corrections matches Some(sens)
        &&& toml.general.correction_text matches Some(t)
        &&& spellings_match(rules, ins.deep_view(), sens.deep_view())
        &&& text == t@
        &&& match toml.general.correction_exclusion {
            Some(e) => exclusion == e.deep_view(),
            None => exclusion.len() == 0,
        }
    } else {
        &&& rules.len() == 0
        &&& text.len() == 0
        &&& exclusion.len() == 0
    }
}

/// Resolves the correction feature.  With the flag set, the insensitive
/// patterns, sensitive patterns and message template must all be present —
/// the absence of any one is fatal — while an absent room-exclusion list
/// defaults to empty.  With the flag unset the feature is wholly disabled.
pub fn load_spell_correct_settings(toml: &RawConfig) -> (r: Result<
    (Vec<SpellCheckKind>, String, Vec<String>),
    ConfigError,
>)
    ensures
        match r {
            Ok(t) => !spell_misconfigured(*toml) && spell_settings_ok(
                *toml,
                t.0@,
                t.1@,
                t.2.deep_view(),
            ),
            Err(e) => e == ConfigError::CorrectionsMisconfigured && spell_misconfigured(*toml),
        },
        r is Err <==> spell_misconfigured(*toml),
{
    if toml.general.enable_corrections {
        match (
            &toml.general.insensitive_corrections,
            &toml.general.sensitive_corrections,
            &toml.general.correction_text,
        ) {
            (Some(ins), Some(sens), Some(text)) => {
                let mut rules: Vec<SpellCheckKind> = Vec::new();
                let mut i: usize = 0;
                while i < ins.len()
                    invariant
                        i <= ins@.len(),
                        rules@.len() == i,
                        forall|k: int|
                            0 <= k < i ==> (#[trigger] rules@[k] matches
                            SpellCheckKind::SpellCheckInsensitive(s) && s.spelling@
                                == ins.deep_view()[k]),
                    decreases ins@.len() - i,
                {
                    rules.push(
                        SpellCheckKind::SpellCheckInsensitive(
                            InsensitiveSpelling { spelling: ins[i].clone() },
                        ),
                    );
                    i = i + 1;
                }
                let ghost n_ins = ins.deep_view().len();
                let mut j: usize = 0;
                while j < sens.len()
                    invariant
                        j <= sens@.len(),
                        rules@.len() == n_ins + j,
                        n_ins == ins.deep_view().len(),
                        forall|k: int|
                            0 <= k < n_ins ==> (#[trigger] rules@[k] matches
                            SpellCheckKind::SpellCheckInsensitive(s) && s.spelling@
                                == ins.deep_view()[k]),
                        forall|k: int|
                            0 <= k < j ==> (#[trigger] rules@[n_ins + k] matches
                            SpellCheckKind::SpellCheckSensitive(s) && s.spelling@
                                == sens.deep_view()[k]),
                    decreases sens@.len() - j,
                {
                    rules.push(
                        SpellCheckKind::SpellCheckSensitive(
                            SensitiveSpelling { spelling: sens[j].clone() },
                        ),
                    );
                    j = j + 1;
                }
                let exclusion = match &toml.general.correction_exclusion {
                    Some(e) => strutil::clone_strings(e),
                    None => Vec::new(),
                };
                Ok((rules, text.clone(), exclusion))
            },
            _ => Err(ConfigError::CorrectionsMisconfigured),
        }
    } else {
        Ok((Vec::new(), String::new(), Vec::new()))
    }
}

/// Resolves the admin list: its absence is always fatal, since the bot must
/// have at least one authorized administrator.
pub fn load_admin_settings(toml: &RawConfig) -> (r: Result<Vec<String>, ConfigError>)
    ensures
        match r {
            Ok(v) => {
                &&& toml.general.authorized_users matches Some(a)
                &&& v.deep_view() == a.deep_view()
            },
            Err(e) => e == ConfigError::MissingAdmins && toml.general.authorized_users is None,
        },
        r is Err <==> toml.general.authorized_users is None,
{
    match &toml.general.authorized_users {
        Some(v) => Ok(strutil::clone_strings(v)),
        None => Err(ConfigError::MissingAdmins),
    }
}

/// Resolves the help-room restriction: an absent list means no restriction,
/// which callers read as the empty set.
pub fn load_help_settings(toml: &RawConfig) -> (r: Vec<String>)
    ensures
        match toml.general.help_rooms {
            Some(v) => r.deep_view() == v.deep_view(),
            None => r@.len() == 0,
        },
{
    match &toml.general.help_rooms {
        Some(v) => strutil::clone_strings(v),
        None => Vec::new(),
    }
}

/// What the resolved search settings are, relative to the raw configuration.
pub open spec fn github_settings_ok(
    toml: RawConfig,
    repos: Seq<(Seq<char>, Seq<char>)>,
    token: Seq<char>,
) -> bool {
    match toml.searchable_repos {
        Some(r) => {
            &&& toml.github_authentication matches Some(auth)
            &&& repos == r.deep_view()
            &&& token == auth.access_token@
        },
        None => repos.len() == 0 && token.len() == 0,
    }
}

/// What the resolved link settings are, relative to the raw configuration.
pub open spec fn linker_settings_ok(
    toml: RawConfig,
    linkers: Seq<Seq<char>>,
    links: Seq<(Seq<char>, Seq<char>)>,
) -> bool {
    match toml.linkable_urls {
        Some(urls) => match toml.general.link_matchers {
            Some(ms) => {
                &&& urls@.len() > 0
                &&& all_uris_valid(urls.deep_view())
                &&& linkers == ms.deep_view()
                &&& links == urls.deep_view()
            },
            None => linkers.len() == 0 && links.len() == 0,
        },
        None => linkers.len() == 0 && links.len() == 0,
    }
}

/// What the resolved unit-conversion exclusions are, relative to the raw
/// configuration: each excluded token with one leading space.
pub open spec fn unit_settings_ok(toml: RawConfig, excl: Seq<Seq<char>>) -> bool {
    match toml.general.unit_conversion_exclusion {
        Some(v) => excl.len() == v@.len() && forall|i: int|
            0 <= i < v@.len() ==> excl[i] == seq![' '] + v.deep_view()[i],
        None => excl.len() == 0,
    }
}

/// What the resolved group-ping settings are, relative to the raw
/// configuration: every group resolved against the raw mapping, and the set
/// of users permitted to trigger pings.
pub open spec fn group_settings_ok(
    toml: RawConfig,
    groups: Seq<(Seq<char>, Seq<Seq<char>>)>,
    users: Seq<Seq<char>>,
) -> bool {
    match toml.group_pings {
        Some(v) => {
            &&& groups.len() == v@.len()
            &&& forall|g: int| 0 <= g < v@.len() ==> (#[trigger] groups[g]).0 == v.deep_view()[g].0
            &&& forall|g: int|
                0 <= g < v@.len() ==> (#[trigger] groups[g]).1.to_set()
                    == crate::group_ping::resolved_set(v.deep_view(), v.deep_view()[g].1)
            &&& forall|g: int|
                0 <= g < v@.len() ==> strutil::distinct_strs((#[trigger] groups[g]).1)
            &&& users.to_set() == crate::group_ping::all_literals(v.deep_view())
            &&& strutil::distinct_strs(users)
        },
        None => groups.len() == 0 && users.len() == 0,
    }
}

/// The client-identity string derived from the program's name and version.
pub open spec fn user_agent_seq(name: Seq<char>, version: Seq<char>) -> Seq<char> {
    name + seq!['/'] + version
}

/// The first fatal misconfiguration that assembly finds, in the order the
/// features are resolved, or nothing if the configuration is sound.
pub open spec fn assemble_error(toml: RawConfig, name: Seq<char>, version: Seq<char>) -> Option<
    ConfigError,
> {
    if github_misconfigured(toml) {
        Some(ConfigError::SearchMisconfigured)
    } else if linker_misconfigured(toml) is Some {
        linker_misconfigured(toml)
    } else if spell_misconfigured(toml) {
        Some(ConfigError::CorrectionsMisconfigured)
    } else if toml.general.authorized_users is None {
        Some(ConfigError::MissingAdmins)
    } else if !uri_valid(toml.matrix_authentication.url@) {
        Some(ConfigError::BadHomeserverUrl)
    } else if !header_value_valid(user_agent_seq(name, version)) {
        Some(ConfigError::BadUserAgent)
    } else if toml.group_pings matches Some(v) && crate::group_ping::has_bad_token(v.deep_view()) {
        Some(ConfigError::BadGroupPingUser)
    } else {
        None
    }
}

/// The validated runtime configuration, immutable after construction.  No
/// field is optional: a disabled feature holds empty values, so no consumer
/// ever observes a partially enabled feature.
pub struct Config {
    /// Homeserver URL of the bot account, known to parse as a URI.
    pub mx_url: String,
    /// Username of the bot account.
    pub mx_uname: String,
    /// Password of the bot account.
    pub mx_pass: String,
    /// Access token of the search service; empty when search is disabled.
    pub gh_access_token: String,
    /// Whether unit conversions are supported in plain-text messages.
    pub enable_unit_conversions: bool,
    /// Whether the correction feature is enabled.
    pub enable_corrections: bool,
    /// Units excluded from conversion, each with one leading space.
    pub unit_conversion_exclusion: Vec<String>,
    /// The spelling rules to match against, insensitive ones first.
    pub incorrect_spellings: Vec<SpellCheckKind>,
    /// Message template used when a correction is sent.
    pub correction_text: String,
    /// Rooms excluded from the correction feature.
    pub correction_exclusion: Vec<String>,
    /// Words that can trigger URL linking.
    pub linkers: Vec<String>,
    /// Users that may invite the bot to rooms.
    pub admins: Vec<String>,
    /// Rooms in which help is offered; empty means every room.
    pub help_rooms: Vec<String>,
    /// Mapping of repository short name to its full identifier.
    pub repos: Vec<(String, String)>,
    /// Mapping of link key to its URL, each URL known to parse.
    pub links: Vec<(String, String)>,
    /// Client-identity string, acceptable as an HTTP header value.
    pub user_agent: String,
    /// Mapping of group name to its resolved member handles.
    pub group_pings: Vec<(String, Vec<String>)>,
    /// Users permitted to trigger group pings.
    pub group_ping_users: Vec<String>,
    /// Shared secret expected by the webhook listener.
    pub webhook_token: String,
}

impl Config {
    /// Well-formedness: the homeserver URL and every link URL parse, and the
    /// client identity is an acceptable header value.
    pub open spec fn wf(self) -> bool {
        &&& uri_valid(self.mx_url@)
        &&& header_value_valid(self.user_agent@)
        &&& forall|i: int|
            0 <= i < self.links@.len() ==> uri_valid((#[trigger] self.links.deep_view()[i]).1)
    }

    /// Assembles the runtime configuration from the raw one: resolves every
    /// feature, validates the homeserver URL, derives the client identity
    /// from the program's name and version, and copies the credentials
    /// verbatim.  Returns the first fatal misconfiguration instead of a
    /// partial configuration; the caller decides to report and terminate.
    pub fn assemble(toml: &RawConfig, name: &str, version: &str) -> (r: Result<Config, ConfigError>)
        ensures
            match assemble_error(*toml, name@, version@) {
                Some(e) => r == Err::<Config, ConfigError>(e),
                None => r is Ok,
            },
            match r {
                Ok(c) => {
                    &&& c.wf()
                    &&& c.mx_url@ == toml.matrix_authentication.url@
                    &&& c.mx_uname@ == toml.matrix_authentication.username@
                    &&& c.mx_pass@ == toml.matrix_authentication.password@
                    &&& c.webhook_token@ == toml.general.webhook_token@
                    &&& c.enable_corrections == toml.general.enable_corrections
                    &&& c.enable_unit_conversions == toml.general.enable_unit_conversions
                    &&& c.user_agent@ == user_agent_seq(name@, version@)
                    &&& github_settings_ok(*toml, c.repos.deep_view(), c.gh_access_token@)
                    &&& linker_settings_ok(*toml, c.linkers.deep_view(), c.links.deep_view())
                    &&& unit_settings_ok(*toml, c.unit_conversion_exclusion.deep_view())
                    &&& spell_settings_ok(
                        *toml,
                        c.incorrect_spellings@,
                        c.correction_text@,
                        c.correction_exclusion.deep_view(),
                    )
                    &&& toml.general.authorized_users matches Some(a) && c.admins.deep_view()
                        == a.deep_view()
                    &&& match toml.general.help_rooms {
                        Some(h) => c.help_rooms.deep_view() == h.deep_view(),
                        None => c.help_rooms@.len() == 0,
                    }
                    &&& group_settings_ok(
                        *toml,
                        c.group_pings.deep_view(),
                        c.group_ping_users.deep_view(),
                    )
                },
                Err(_) => true,
            },
            // Search repositories without a service token are fatal, under
            // the search misconfiguration code.
            github_misconfigured(*toml) ==> r == Err::<Config, ConfigError>(
                ConfigError::SearchMisconfigured,
            ),
            // Link matchers beside an empty URL mapping are fatal; wholly
            // absent link sections disable the feature without an error.
            (toml.linkable_urls matches Some(u) && u@.len() == 0
                && toml.general.link_matchers is Some) ==> r is Err,
            (toml.linkable_urls is None && toml.general.link_matchers is None) ==> (r
                != Err::<Config, ConfigError>(ConfigError::LinkersMisconfigured) && r
                != Err::<Config, ConfigError>(ConfigError::BadLinkUrl)),
            // Corrections enabled with a required sub-field missing are
            // fatal; an absent exclusion list alone is not.
            spell_misconfigured(*toml) ==> r is Err,
            (toml.general.enable_corrections && toml.general.insensitive_corrections is Some
                && toml.general.sensitive_corrections is Some && toml.general.correction_text
                is Some && toml.general.correction_exclusion is None) ==> (r
                != Err::<Config, ConfigError>(ConfigError::CorrectionsMisconfigured) && (
            r matches Ok(c) ==> c.correction_exclusion@.len() == 0)),
            // A missing admin list is always fatal.
            toml.general.authorized_users is None ==> r is Err,
    {
        let (repos, gh_access_token) = match load_github_settings(toml) {
            Ok(p) => p,
            Err(e) => {
                return Err(e);
            },
        };
        let (linkers, links) = match load_linker_settings(toml) {
            Ok(p) => p,
            Err(e) => {
                return Err(e);
            },
        };
        let unit_conversion_exclusion = load_unit_conversion_settings(toml);
        let (incorrect_spellings, correction_text, correction_exclusion) =
            match load_spell_correct_settings(toml) {
            Ok(t) => t,
            Err(e) => {
                return Err(e);
            },
        };
        let admins = match load_admin_settings(toml) {
            Ok(a) => a,
            Err(e) => {
                return Err(e);
            },
        };
        let help_rooms = load_help_settings(toml);
        if !crate::validators::uri_ok(toml.matrix_authentication.url.as_str()) {
            return Err(ConfigError::BadHomeserverUrl);
        }
        let mx_url = toml.matrix_authentication.url.clone();
        let mx_uname = toml.matrix_authentication.username.clone();
        let mx_pass = toml.matrix_authentication.password.clone();
        let mut user_agent = String::from_str(name);
        user_agent.append("/");
        user_agent.append(version);
        proof {
            reveal_strlit("/");
            assert("/"@ =~= seq!['/']);
            assert(user_agent@ == user_agent_seq(name@, version@));
        }
        if !crate::validators::header_value_ok(user_agent.as_str()) {
            return Err(ConfigError::BadUserAgent);
        }
        let (group_pings, group_ping_users) = match crate::group_ping::load_group_ping_settings(
            toml,
        ) {
            Ok(p) => p,
            Err(e) => {
                return Err(e);
            },
        };
        let webhook_token = toml.general.webhook_token.clone();
        Ok(
            Config {
                mx_url,
                mx_uname,
                mx_pass,
                gh_access_token,
                enable_unit_conversions: toml.general.enable_unit_conversions,
                enable_corrections: toml.general.enable_corrections,
                unit_conversion_exclusion,
                incorrect_spellings,
                correction_text,
                correction_exclusion,
                linkers,
                admins,
                help_rooms,
                repos,
                links,
                user_agent,
                group_pings,
                group_ping_users,
                webhook_token,
            },
        )
    }
}

/// Copies a list of spelling rules, element for element.
fn clone_spellings(v: &Vec<SpellCheckKind>) -> (r: Vec<SpellCheckKind>)
    ensures
        r@ == v@,
{
    let mut r: Vec<SpellCheckKind> = Vec::new();
    let mut i: usize = 0;
    while i < v.len()
        invariant
            i <= v.len(),
            r@ =~= v@.take(i as int),
        decreases v.len() - i,
    {
        let rule = match &v[i] {
            SpellCheckKind::SpellCheckInsensitive(s) => SpellCheckKind::SpellCheckInsensitive(
                InsensitiveSpelling { spelling: s.spelling.clone() },
            ),
            SpellCheckKind::SpellCheckSensitive(s) => SpellCheckKind::SpellCheckSensitive(
                SensitiveSpelling { spelling: s.spelling.clone() },
            ),
        };
        r.push(rule);
        proof {
            assert(r@ =~= v@.take(i + 1));
        }
        i = i + 1;
    }
    proof {
        assert(r@ =~= v@);
    }
    r
}

/// The runtime configuration handed to the protocol listener: the same
/// validated values as [`Config`], copied field for field, without the
/// webhook secret.
pub struct MatrixListenerConfig {
    /// Homeserver URL of the bot account.
    pub mx_url: String,
    /// Username of the bot account.
    pub mx_uname: String,
    /// Password of the bot account.
    pub mx_pass: String,
    /// Access token of the search service.
    pub gh_access_token: String,
    /// Whether unit conversions are supported in plain-text messages.
    pub enable_unit_conversions: bool,
    /// Whether the correction feature is enabled.
    pub enable_corrections: bool,
    /// Units excluded from conversion, each with one leading space.
    pub unit_conversion_exclusion: Vec<String>,
    /// The spelling rules to match against.
    pub incorrect_spellings: Vec<SpellCheckKind>,
    /// Message template used when a correction is sent.
    pub correction_text: String,
    /// Rooms excluded from the correction feature.
    pub correction_exclusion: Vec<String>,
    /// Words that can trigger URL linking.
    pub linkers: Vec<String>,
    /// Users that may invite the bot to rooms.
    pub admins: Vec<String>,
    /// Rooms in which help is offered; empty means every room.
    pub help_rooms: Vec<String>,
    /// Mapping of repository short name to its full identifier.
    pub repos: Vec<(String, String)>,
    /// Mapping of link key to its URL.
    pub links: Vec<(String, String)>,
    /// Client-identity string.
    pub user_agent: String,
    /// Mapping of group name to its resolved member handles.
    pub group_pings: Vec<(String, Vec<String>)>,
    /// Users permitted to trigger group pings.
    pub group_ping_users: Vec<String>,
}

impl MatrixListenerConfig {
    /// Copies the listener's share of the runtime configuration, value for
    /// value.
    pub fn new(config: &Config) -> (r: Self)
        ensures
            r.mx_url@ == config.mx_url@,
            r.mx_uname@ == config.mx_uname@,
            r.mx_pass@ == config.mx_pass@,
            r.gh_access_token@ == config.gh_access_token@,
            r.enable_unit_conversions == config.enable_unit_conversions,
            r.enable_corrections == config.enable_corrections,
            r.unit_conversion_exclusion.deep_view() == config.unit_conversion_exclusion.deep_view(),
            r.incorrect_spellings@ == config.incorrect_spellings@,
            r.correction_text@ == config.correction_text@,
            r.correction_exclusion.deep_view() == config.correction_exclusion.deep_view(),
            r.linkers.deep_view() == config.linkers.deep_view(),
            r.admins.deep_view() == config.admins.deep_view(),
            r.help_rooms.deep_view() == config.help_rooms.deep_view(),
            r.repos.deep_view() == config.repos.deep_view(),
            r.links.deep_view() == config.links.deep_view(),
            r.user_agent@ == config.user_agent@,
            r.group_pings.deep_view() == config.group_pings.deep_view(),
            r.group_ping_users.deep_view() == config.group_ping_users.deep_view(),
    {
        MatrixListenerConfig {
            mx_url: config.mx_url.clone(),
            mx_uname: config.mx_uname.clone(),
            mx_pass: config.mx_pass.clone(),
            gh_access_token: config.gh_access_token.clone(),
            enable_unit_conversions: config.enable_unit_conversions,
            enable_corrections: config.enable_corrections,
            unit_conversion_exclusion: strutil::clone_strings(
                &config.unit_conversion_exclusion,
            ),
            incorrect_spellings: clone_spellings(&config.incorrect_spellings),
            correction_text: config.correction_text.clone(),
            correction_exclusion: strutil::clone_strings(&config.correction_exclusion),
            linkers: strutil::clone_strings(&config.linkers),
            admins: strutil::clone_strings(&config.admins),
            help_rooms: strutil::clone_strings(&config.help_rooms),
            repos: strutil::clone_string_pairs(&config.repos),
            links: strutil::clone_string_pairs(&config.links),
            user_agent: config.user_agent.clone(),
            group_pings: strutil::clone_groups(&config.group_pings),
            group_ping_users: strutil::clone_strings(&config.group_ping_users),
        }
    }
}

} // verus!
