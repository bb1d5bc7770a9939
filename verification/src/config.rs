//! Server configuration: log levels, defaults and validation of the settings
//! and service URLs.
use vstd::prelude::*;
use crate::text::{is_blank, is_blank_text, push_str, same_text, starts_with};

verus! {

/// Logging verbosity.
#[derive(Clone, Copy, Debug, PartialEq, Eq, Structural)]
pub enum LogLevel {
    Off,
    Error,
    Warn,
    Info,
    Debug,
    Trace,
}

/// The configuration name of a log level.
pub open spec fn log_level_text(level: LogLevel) -> Seq<char> {
    match level {
        LogLevel::Off => "off"@,
        LogLevel::Error => "error"@,
        LogLevel::Warn => "warn"@,
        LogLevel::Info => "info"@,
        LogLevel::Debug => "debug"@,
        LogLevel::Trace => "trace"@,
    }
}

impl LogLevel {
    /// The configuration name: `off`, `error`, `warn`, `info`, `debug` or `trace`.
    pub fn as_str(self) -> (s: &'static str)
        ensures
            s@ == log_level_text(self),
    {
        match self {
            LogLevel::Off => "off",
            LogLevel::Error => "error",
            LogLevel::Warn => "warn",
            LogLevel::Info => "info",
            LogLevel::Debug => "debug",
            LogLevel::Trace => "trace",
        }
    }

    /// Reads a configuration name; unknown names are refused.
    pub fn parse(value: &str) -> (r: Option<LogLevel>)
        ensures
            r matches Some(level) ==> log_level_text(level) == value@,
            r is None ==> forall|level: LogLevel| log_level_text(level) != value@,
    {
        if same_text(value, "off") {
            Some(LogLevel::Off)
        } else if same_text(value, "error") {
            Some(LogLevel::Error)
        } else if same_text(value, "warn") {
            Some(LogLevel::Warn)
        } else if same_text(value, "info") {
            Some(LogLevel::Info)
        } else if same_text(value, "debug") {
            Some(LogLevel::Debug)
        } else if same_text(value, "trace") {
            Some(LogLevel::Trace)
        } else {
            None
        }
    }
}

/// The scan interval used when the configuration names none: five minutes.
pub fn default_poll() -> (s: u64)
    ensures
        s == 300,
{
    300
}

/// The log level used when the configuration names none.
pub fn default_log_level() -> (l: LogLevel)
    ensures
        l == LogLevel::Debug,
{
    LogLevel::Debug
}

/// The settings read from the configuration file (the listen address is kept
/// by the program that reads the file).
#[derive(Clone)]
pub struct ServerConfig {
    pub discord_webhook_url: String,
    pub sqlite_database_path: String,
    pub sonarr_url: String,
    pub sonarr_api_key: String,
    pub scan_interval_seconds: u64,
    pub log_level: LogLevel,
}

// ---------------------------------------------------------------------
// URLs
// ---------------------------------------------------------------------

/// The parts of a parsed URL that the checks read.
#[derive(Clone, Debug)]
pub struct UrlParts {
    pub scheme: String,
    pub host: Option<String>,
    pub username: String,
    pub password: Option<String>,
    pub query: Option<String>,
    pub fragment: Option<String>,
    pub path: String,
}

pub struct UrlPartsView {
    pub scheme: Seq<char>,
    pub host: Option<Seq<char>>,
    pub username: Seq<char>,
    pub password: Option<Seq<char>>,
    pub query: Option<Seq<char>>,
    pub fragment: Option<Seq<char>>,
    pub path: Seq<char>,
}

/// The view of an optional string.
pub open spec fn opt_text(s: Option<String>) -> Option<Seq<char>> {
    match s {
        Some(t) => Some(t@),
        None => None,
    }
}

impl View for UrlParts {
    type V = UrlPartsView;

    open spec fn view(&self) -> UrlPartsView {
        UrlPartsView {
            scheme: self.scheme@,
            host: opt_text(self.host),
            username: self.username@,
            password: opt_text(self.password),
            query: opt_text(self.query),
            fragment: opt_text(self.fragment),
            path: self.path@,
        }
    }
}

/// What `Url::parse` makes of `value` (WHATWG URL parsing): `None` when it
/// refuses the text, else the parts of the parsed URL.
pub uninterp spec fn parsed_url(value: Seq<char>) -> Option<UrlPartsView>;

/// Parses `value` with `reqwest::Url::parse` (the `url` crate) and reads the
/// scheme, host, user name, password, query, fragment and path of the result.
/// Stated: the result is `parsed_url(value)`; what that is on given text is the
/// WHATWG parsing algorithm, which this contract does not spell out.
#[verifier::external_body]
fn parse_url(value: &str) -> (r: Option<UrlParts>)
    ensures
        match r {
            Some(u) => parsed_url(value@) == Some(u@),
            None => parsed_url(value@) is None,
        },
{
    let url = reqwest::Url::parse(value).ok()?;
    Some(UrlParts {
        scheme: url.scheme().to_owned(),
        host: url.host_str().map(str::to_owned),
        username: url.username().to_owned(),
        password: url.password().map(str::to_owned),
        query: url.query().map(str::to_owned),
        fragment: url.fragment().map(str::to_owned),
        path: url.path().to_owned(),
    })
}

/// Why a service URL is refused.
#[derive(Clone, Copy, Debug, PartialEq, Eq, Structural)]
pub enum UrlIssue {
    /// The text is not a URL.
    Unparsable,
    /// The scheme is not `http`/`https`, or there is no host.
    NotHttp,
    /// The URL carries credentials, a query or a fragment.
    HasExtras,
}

/// Why the URL `parsed` is refused for a service, if it is.
pub open spec fn url_issue(parsed: Option<UrlPartsView>) -> Option<UrlIssue> {
    match parsed {
        None => Some(UrlIssue::Unparsable),
        Some(u) => if !((u.scheme == "http"@ || u.scheme == "https"@) && u.host is Some) {
            Some(UrlIssue::NotHttp)
        } else if !(u.username.len() == 0 && u.password is None && u.fragment is None
            && u.query is None) {
            Some(UrlIssue::HasExtras)
        } else {
            None
        },
    }
}

/// Why the configuration is refused.
#[derive(Clone, Debug)]
pub enum ConfigError {
    DatabasePathRequired,
    SonarrApiKeyRequired,
    ScanIntervalOutOfRange,
    Url { service: String, issue: UrlIssue },
    WebhookNotHttps,
    WebhookTarget,
}

/// A configuration error as plain values.
pub enum ConfigErrorView {
    DatabasePathRequired,
    SonarrApiKeyRequired,
    ScanIntervalOutOfRange,
    Url { service: Seq<char>, issue: UrlIssue },
    WebhookNotHttps,
    WebhookTarget,
}

impl View for ConfigError {
    type V = ConfigErrorView;

    open spec fn view(&self) -> ConfigErrorView {
        match self {
            ConfigError::DatabasePathRequired => ConfigErrorView::DatabasePathRequired,
            ConfigError::SonarrApiKeyRequired => ConfigErrorView::SonarrApiKeyRequired,
            ConfigError::ScanIntervalOutOfRange => ConfigErrorView::ScanIntervalOutOfRange,
            ConfigError::Url { service, issue } => ConfigErrorView::Url {
                service: service@,
                issue: *issue,
            },
            ConfigError::WebhookNotHttps => ConfigErrorView::WebhookNotHttps,
            ConfigError::WebhookTarget => ConfigErrorView::WebhookTarget,
        }
    }
}

/// Checks a parsed service URL: an `http`/`https` URL with a host and without
/// credentials, query or fragment.
pub fn check_service_url(parsed: Option<UrlParts>, name: &str) -> (r: Result<UrlParts, ConfigError>)
    ensures
        match r {
            Ok(u) => url_issue(opt_url(parsed)) is None && parsed == Some(u),
            Err(e) => url_issue(opt_url(parsed)) matches Some(issue) && e@ == (ConfigErrorView::Url {
                service: name@,
                issue,
            }),
        },
{
    match parsed {
        None => Err(ConfigError::Url { service: string_from(name), issue: UrlIssue::Unparsable }),
        Some(u) => {
            let web = same_text(u.scheme.as_str(), "http") || same_text(u.scheme.as_str(), "https");
            if !(web && u.host.is_some()) {
                return Err(ConfigError::Url { service: string_from(name), issue: UrlIssue::NotHttp });
            }
            if !(u.username.as_str().unicode_len() == 0 && u.password.is_none() && u.fragment.is_none()
                && u.query.is_none()) {
                return Err(
                    ConfigError::Url { service: string_from(name), issue: UrlIssue::HasExtras },
                );
            }
            Ok(u)
        },
    }
}

/// The text reported for a configuration error.
pub open spec fn config_error_text(e: ConfigErrorView) -> Seq<char> {
    match e {
        ConfigErrorView::DatabasePathRequired => "database path is required"@,
        ConfigErrorView::SonarrApiKeyRequired => "Sonarr API key is required"@,
        ConfigErrorView::ScanIntervalOutOfRange => "scan interval must be between 10 and 86400 seconds"@,
        ConfigErrorView::Url { service, issue } => match issue {
            UrlIssue::Unparsable => "invalid "@ + service + " URL"@,
            UrlIssue::NotHttp => service + " requires an HTTP(S) URL"@,
            UrlIssue::HasExtras => service + " URL must not contain credentials, query, or fragment"@,
        },
        ConfigErrorView::WebhookNotHttps => "Discord webhook must use HTTPS"@,
        ConfigErrorView::WebhookTarget => "invalid Discord webhook host or path"@,
    }
}

impl ConfigError {
    /// The message that reports this error.
    pub fn message(&self) -> (m: String)
        ensures
            m@ == config_error_text(self@),
    {
        let mut m = String::new();
        match self {
            ConfigError::DatabasePathRequired => push_str(&mut m, "database path is required"),
            ConfigError::SonarrApiKeyRequired => push_str(&mut m, "Sonarr API key is required"),
            ConfigError::ScanIntervalOutOfRange => push_str(
                &mut m,
                "scan interval must be between 10 and 86400 seconds",
            ),
            ConfigError::Url { service, issue } => match issue {
                UrlIssue::Unparsable => {
                    push_str(&mut m, "invalid ");
                    push_str(&mut m, service.as_str());
                    push_str(&mut m, " URL");
                },
                UrlIssue::NotHttp => {
                    push_str(&mut m, service.as_str());
                    push_str(&mut m, " requires an HTTP(S) URL");
                },
                UrlIssue::HasExtras => {
                    push_str(&mut m, service.as_str());
                    push_str(&mut m, " URL must not contain credentials, query, or fragment");
                },
            },
            ConfigError::WebhookNotHttps => push_str(&mut m, "Discord webhook must use HTTPS"),
            ConfigError::WebhookTarget => push_str(&mut m, "invalid Discord webhook host or path"),
        }
        m
    }
}

/// The view of an optional parsed URL.
pub open spec fn opt_url(u: Option<UrlParts>) -> Option<UrlPartsView> {
    match u {
        Some(x) => Some(x@),
        None => None,
    }
}

fn string_from(s: &str) -> (r: String)
    ensures
        r@ == s@,
{
    s.to_owned()
}

/// Parses and checks the URL of a service named `name` (used in errors).
pub fn validate_url(value: &str, name: &str) -> (r: Result<UrlParts, ConfigError>)
    ensures
        match r {
            Ok(u) => url_issue(parsed_url(value@)) is None && parsed_url(value@) == Some(u@),
            Err(e) => url_issue(parsed_url(value@)) matches Some(issue) && e@ == (
            ConfigErrorView::Url { service: name@, issue }),
        },
{
    let parsed = parse_url(value);
    check_service_url(parsed, name)
}

/// Whether a parsed webhook URL points at Discord's webhook endpoint.
pub open spec fn discord_webhook_target(u: UrlPartsView) -> bool {
    &&& u.host matches Some(h) && (h == "discord.com"@ || h == "canary.discord.com"@ || h
        == "ptb.discord.com"@)
    &&& "/api/webhooks/"@.len() <= u.path.len()
    &&& u.path.take("/api/webhooks/"@.len() as int) == "/api/webhooks/"@
}

/// Why `c` is refused, checked in this order: database path, Sonarr API key,
/// scan interval (10 to 86400 seconds), Sonarr URL, webhook URL, HTTPS,
/// and a Discord host with a `/api/webhooks/` path.
pub open spec fn config_issue(c: ServerConfig) -> Option<ConfigErrorView> {
    if is_blank_text(c.sqlite_database_path@) {
        Some(ConfigErrorView::DatabasePathRequired)
    } else if is_blank_text(c.sonarr_api_key@) {
        Some(ConfigErrorView::SonarrApiKeyRequired)
    } else if !(10 <= c.scan_interval_seconds <= 86400) {
        Some(ConfigErrorView::ScanIntervalOutOfRange)
    } else if url_issue(parsed_url(c.sonarr_url@)) is Some {
        Some(ConfigErrorView::Url { service: "Sonarr"@, issue: url_issue(parsed_url(c.sonarr_url@))->0 })
    } else if url_issue(parsed_url(c.discord_webhook_url@)) is Some {
        Some(
            ConfigErrorView::Url {
                service: "Discord webhook"@,
                issue: url_issue(parsed_url(c.discord_webhook_url@))->0,
            },
        )
    } else if parsed_url(c.discord_webhook_url@)->0.scheme != "https"@ {
        Some(ConfigErrorView::WebhookNotHttps)
    } else if !discord_webhook_target(parsed_url(c.discord_webhook_url@)->0) {
        Some(ConfigErrorView::WebhookTarget)
    } else {
        None
    }
}

impl ServerConfig {
    /// Checks the configuration; the first problem found is reported.
    pub fn validate(&self) -> (r: Result<(), ConfigError>)
        ensures
            match r {
                Ok(_) => config_issue(*self) is None,
                Err(e) => config_issue(*self) == Some(e@),
            },
    {
        if is_blank(self.sqlite_database_path.as_str()) {
            return Err(ConfigError::DatabasePathRequired);
        }
        if is_blank(self.sonarr_api_key.as_str()) {
            return Err(ConfigError::SonarrApiKeyRequired);
        }
        if !(10 <= self.scan_interval_seconds && self.scan_interval_seconds <= 86400) {
            return Err(ConfigError::ScanIntervalOutOfRange);
        }
        match validate_url(self.sonarr_url.as_str(), "Sonarr") {
            Ok(_) => {},
            Err(e) => {
                return Err(e);
            },
        }
        let webhook = match validate_url(self.discord_webhook_url.as_str(), "Discord webhook") {
            Ok(u) => u,
            Err(e) => {
                return Err(e);
            },
        };
        if !same_text(webhook.scheme.as_str(), "https") {
            return Err(ConfigError::WebhookNotHttps);
        }
        let host_ok = match &webhook.host {
            Some(h) => same_text(h.as_str(), "discord.com") || same_text(
                h.as_str(),
                "canary.discord.com",
            ) || same_text(h.as_str(), "ptb.discord.com"),
            None => false,
        };
        if !(host_ok && starts_with(webhook.path.as_str(), "/api/webhooks/")) {
            return Err(ConfigError::WebhookTarget);
        }
        Ok(())
    }
}

} // verus!
