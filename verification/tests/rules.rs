use server_core::api::{
    invalid_colors_message, page_limit, page_offset, progress_refusal, test_reply, ProgressRefusal,
    ShowMode,
};
use server_core::config::{
    default_log_level, default_poll, validate_url, ConfigError, LogLevel, ServerConfig, UrlIssue,
};
use server_core::discord::{
    classify_send_error, classify_status, imdb_series_url, series_title, Delivery, SeriesMetadata,
};
use server_core::model::{NotificationMode, Show};
use server_core::service::{
    due_plan, find_plan, is_excluded, outcome_action, scan_backoff, verification_retry_at, DuePlan,
    Health, OutcomeAction,
};
use server_core::sonarr::{
    accepts_chunk, api_base_path, check_episodes, is_jpeg, poster_path, series_ids_valid,
    series_path, Episode, EpisodeListError, Series, SeriesStatus,
};
use server_core::store::DeliveryState;
use server_core::text::{is_blank, same_text, starts_with, truncate_utf16};

fn config() -> ServerConfig {
    ServerConfig {
        discord_webhook_url: "https://discord.com/api/webhooks/id/token".into(),
        sqlite_database_path: "jelly-alert.db".into(),
        sonarr_url: "http://127.0.0.1:8989".into(),
        sonarr_api_key: "key".into(),
        scan_interval_seconds: 300,
        log_level: LogLevel::Debug,
    }
}

#[test]
fn log_level_defaults_to_debug() {
    assert_eq!(default_log_level().as_str(), LogLevel::Debug.as_str());
    assert_eq!(default_poll(), 300);
}

#[test]
fn log_level_accepts_every_documented_value() {
    for level in ["off", "error", "warn", "info", "debug", "trace"] {
        assert_eq!(LogLevel::parse(level).unwrap().as_str(), level);
    }
}

#[test]
fn log_level_rejects_unknown_values() {
    assert!(LogLevel::parse("verbose").is_none());
}

#[test]
fn valid_configuration_is_accepted() {
    assert!(config().validate().is_ok());
}

#[test]
fn configuration_errors_are_reported_in_order() {
    let mut c = config();
    c.sqlite_database_path = " \t".into();
    c.sonarr_api_key = "".into();
    assert!(matches!(c.validate(), Err(ConfigError::DatabasePathRequired)));
    c.sqlite_database_path = "db".into();
    assert!(matches!(c.validate(), Err(ConfigError::SonarrApiKeyRequired)));
    c.sonarr_api_key = "k".into();
    c.scan_interval_seconds = 9;
    assert!(matches!(c.validate(), Err(ConfigError::ScanIntervalOutOfRange)));
    c.scan_interval_seconds = 86401;
    assert!(matches!(c.validate(), Err(ConfigError::ScanIntervalOutOfRange)));
    c.scan_interval_seconds = 86400;
    c.sonarr_url = "not a url".into();
    match c.validate() {
        Err(ConfigError::Url { service, issue }) => {
            assert_eq!(service, "Sonarr");
            assert_eq!(issue, UrlIssue::Unparsable);
        }
        _ => panic!("expected a URL error"),
    }
    c.sonarr_url = "http://sonarr.local/base".into();
    c.discord_webhook_url = "http://discord.com/api/webhooks/a/b".into();
    assert!(matches!(c.validate(), Err(ConfigError::WebhookNotHttps)));
    c.discord_webhook_url = "https://example.com/api/webhooks/a/b".into();
    assert!(matches!(c.validate(), Err(ConfigError::WebhookTarget)));
    c.discord_webhook_url = "https://canary.discord.com/api/hooks/a".into();
    assert!(matches!(c.validate(), Err(ConfigError::WebhookTarget)));
    c.discord_webhook_url = "https://ptb.discord.com/api/webhooks/a/b".into();
    assert!(c.validate().is_ok());
}

#[test]
fn service_urls_refuse_credentials_queries_and_other_schemes() {
    assert!(validate_url("https://sonarr.example/x", "Sonarr").is_ok());
    let parts = validate_url("http://127.0.0.1:8989/sub/", "Sonarr").unwrap();
    assert_eq!(parts.path, "/sub/");
    assert_eq!(parts.host.as_deref(), Some("127.0.0.1"));
    for (url, issue) in [
        ("ftp://host/", UrlIssue::NotHttp),
        ("http://user:pw@host/", UrlIssue::HasExtras),
        ("http://host/?a=1", UrlIssue::HasExtras),
        ("http://host/#f", UrlIssue::HasExtras),
        ("::", UrlIssue::Unparsable),
    ] {
        match validate_url(url, "Sonarr") {
            Err(ConfigError::Url { issue: found, .. }) => assert_eq!(found, issue),
            _ => panic!("{url} should be refused"),
        }
    }
}

#[test]
fn discord_classifies_statuses() {
    assert_eq!(classify_status(200, 7), Delivery::Sent);
    assert_eq!(classify_status(204, 7), Delivery::Sent);
    assert_eq!(classify_status(429, 2), Delivery::RateLimited { retry_seconds: 2 });
    assert_eq!(classify_status(401, 7), Delivery::Disabled);
    assert_eq!(classify_status(403, 7), Delivery::Disabled);
    assert_eq!(classify_status(404, 7), Delivery::Disabled);
    assert_eq!(classify_status(400, 7), Delivery::Rejected);
    assert_eq!(classify_status(500, 7), Delivery::Uncertain);
    assert_eq!(classify_status(302, 7), Delivery::Uncertain);
    assert_eq!(classify_send_error(true), Delivery::Retryable { retry_seconds: 30 });
    assert_eq!(classify_send_error(false), Delivery::Uncertain);
}

#[test]
fn embed_titles_and_imdb_links() {
    let with_year = SeriesMetadata { title: "Show", year: Some(2020), imdb_id: None };
    assert_eq!(series_title(with_year), "Show (2020)");
    let no_year = SeriesMetadata { title: "Show", year: Some(0), imdb_id: None };
    assert_eq!(series_title(no_year), "Show");
    let long = "x".repeat(300);
    let long_title = SeriesMetadata { title: &long, year: Some(1999), imdb_id: None };
    assert_eq!(series_title(long_title).len(), 256);
    assert_eq!(
        imdb_series_url("tt0123").as_deref(),
        Some("https://www.imdb.com/title/tt0123/")
    );
    assert_eq!(imdb_series_url("tt"), None);
    assert_eq!(imdb_series_url("tt12a"), None);
    assert_eq!(imdb_series_url("nm123"), None);
}

#[test]
fn text_helpers() {
    assert!(is_blank(" \n\u{3000}"));
    assert!(!is_blank(" a "));
    assert!(same_text("abc", "abc"));
    assert!(!same_text("abc", "abd"));
    assert!(starts_with("/api/webhooks/1", "/api/webhooks/"));
    assert!(!starts_with("/api", "/api/webhooks/"));
    assert_eq!(truncate_utf16("héllo", 3), "hél");
    assert_eq!(truncate_utf16("a𝄞b", 2), "a");
    let series = Series { id: 1, title: "T".into(), monitored: true, status: SeriesStatus::Ended, year: None, imdb_id: None };
    let ep = Episode { id: i64::MIN, series_id: 1, season_number: 0, episode_number: -4, title: "P".into(), air_date_utc: Some(5), has_file: false, monitored: true, finale_type: None };
    let plans = server_core::planner::plan(&series, &[ep], 0);
    assert_eq!(plans[0].key, "episode:-9223372036854775808");
    assert!(plans[0].content.starts_with("T — S00E-4: P "));
}

#[test]
fn delivery_waits_and_outcomes() {
    assert_eq!(due_plan(None, 0), DuePlan::Wait { ms: 30000 });
    assert_eq!(due_plan(Some(10), 9_000), DuePlan::Wait { ms: 1000 });
    assert_eq!(due_plan(Some(100), 0), DuePlan::Wait { ms: 30000 });
    assert_eq!(due_plan(Some(10), 10_000), DuePlan::Verify);
    assert_eq!(due_plan(Some(i64::MAX), 0), DuePlan::Wait { ms: 30000 });
    assert_eq!(due_plan(Some(i64::MIN), i64::MAX), DuePlan::Verify);
    assert_eq!(outcome_action(Delivery::Sent, 5), OutcomeAction::Record(DeliveryState::Sent));
    assert_eq!(
        outcome_action(Delivery::RateLimited { retry_seconds: 2 }, 5),
        OutcomeAction::Release { retry_at: 7 }
    );
    assert_eq!(
        outcome_action(Delivery::Retryable { retry_seconds: 30 }, i64::MAX - 1),
        OutcomeAction::Release { retry_at: i64::MAX }
    );
    assert_eq!(outcome_action(Delivery::Disabled, 5), OutcomeAction::DisableAndRelease { retry_at: 5 });
    assert_eq!(outcome_action(Delivery::Rejected, 5), OutcomeAction::Record(DeliveryState::Failed));
    assert_eq!(outcome_action(Delivery::Uncertain, 5), OutcomeAction::Record(DeliveryState::Uncertain));
    assert_eq!(verification_retry_at(100), 160);
}

#[test]
fn scan_backoff_doubles_up_to_the_interval() {
    assert_eq!(scan_backoff(true, 4, 300), (0, 300));
    assert_eq!(scan_backoff(false, 0, 300), (1, 10));
    assert_eq!(scan_backoff(false, 1, 300), (2, 20));
    assert_eq!(scan_backoff(false, 5, 300), (6, 300));
    assert_eq!(scan_backoff(false, 20, 5000), (21, 1280));
    assert_eq!(scan_backoff(false, u32::MAX, 5000), (u32::MAX, 1280));
}

fn show(id: i64, excluded: bool, active: bool) -> Show {
    Show { id, title: "S".into(), excluded, active, mode: NotificationMode::Episode, mode_overridden: false }
}

#[test]
fn exclusions_and_plan_lookup() {
    let shows = vec![show(1, false, true), show(2, true, true)];
    assert!(!is_excluded(&shows, 1));
    assert!(is_excluded(&shows, 2));
    assert!(!is_excluded(&shows, 3));
    let series = Series { id: 1, title: "T".into(), monitored: true, status: SeriesStatus::Ended, year: None, imdb_id: None };
    let ep = Episode { id: 4, series_id: 1, season_number: 1, episode_number: 1, title: "P".into(), air_date_utc: Some(5), has_file: false, monitored: true, finale_type: None };
    let plans = server_core::planner::plan(&series, &[ep], 0);
    assert_eq!(find_plan(&plans, &"season:1:1".to_string()), Some(1));
    assert_eq!(find_plan(&plans, &"episode:9".to_string()), None);
    assert_eq!(Health::new().last_scan_at, None);
}

#[test]
fn sonarr_checks() {
    let good = |id: i64, number: i64| Episode {
        id,
        series_id: 3,
        season_number: 0,
        episode_number: number,
        title: String::new(),
        air_date_utc: None,
        has_file: false,
        monitored: true,
        finale_type: None,
    };
    assert_eq!(check_episodes(3, &[good(1, 1), good(2, 1)]), Ok(()));
    assert_eq!(check_episodes(3, &[good(1, 1), good(1, 2)]), Err(EpisodeListError::DuplicateIdentifiers));
    assert_eq!(check_episodes(4, &[good(1, 1)]), Err(EpisodeListError::InvalidIdentifiers));
    assert_eq!(check_episodes(3, &[good(1, 0), good(1, 1)]), Err(EpisodeListError::InvalidIdentifiers));
    assert_eq!(api_base_path("/sonarr//"), "/sonarr/api/v3/");
    assert_eq!(api_base_path("/"), "/api/v3/");
    assert_eq!(poster_path(12).as_deref(), Some("mediacover/12/poster.jpg"));
    assert_eq!(poster_path(0), None);
    assert_eq!(series_path(5), "series/5");
    assert!(is_jpeg(&[0xff, 0xd8, 0xff, 0xe0]));
    assert!(!is_jpeg(&[0xff, 0xd8]));
    assert!(accepts_chunk(10, 5, 15));
    assert!(!accepts_chunk(10, 6, 15));
    assert!(!accepts_chunk(usize::MAX, 1, usize::MAX));
    let s = |id: i64| Series { id, title: String::new(), monitored: true, status: SeriesStatus::Unknown, year: None, imdb_id: None };
    assert!(series_ids_valid(&[s(1), s(2)]));
    assert!(!series_ids_valid(&[s(1), s(0)]));
}

#[test]
fn api_paging_and_replies() {
    assert_eq!(page_limit(None), 50);
    assert_eq!(page_limit(Some(1000)), 100);
    assert_eq!(page_limit(Some(0)), 1);
    assert_eq!(page_offset(None), 0);
    assert_eq!(page_offset(Some(7)), 7);
    assert_eq!(ShowMode::parse("season"), Some(ShowMode::Season));
    assert_eq!(ShowMode::parse("nonsense"), None);
    assert_eq!(ShowMode::Default.as_str(), "default");
    assert_eq!(NotificationMode::parse("season"), Some(NotificationMode::Season));
    assert_eq!(NotificationMode::parse("x"), None);
    assert_eq!(NotificationMode::Episode.as_str(), "episode");
    let ok = test_reply(Some(Delivery::Sent));
    assert_eq!((ok.status, ok.error), (204, None));
    let limited = test_reply(Some(Delivery::RateLimited { retry_seconds: 12 }));
    assert_eq!(limited.status, 429);
    assert_eq!(limited.retry_after, Some(12));
    assert_eq!(limited.error.as_deref(), Some("Discord rate limited the test. Try again in 12 seconds."));
    assert_eq!(test_reply(None).status, 404);
    assert_eq!(test_reply(Some(Delivery::Uncertain)).status, 502);
    assert_eq!(invalid_colors_message(), "Colors must be RGB integers between 0 and 16777215.");
    let active = show(1, false, true);
    let removed = show(1, false, false);
    assert_eq!(progress_refusal(1, None, None), Some(ProgressRefusal::UnknownShow));
    assert_eq!(progress_refusal(1, Some(&removed), Some(1)), Some(ProgressRefusal::RemovedShow));
    assert_eq!(progress_refusal(1, Some(&active), Some(2)), Some(ProgressRefusal::SonarrUnavailable));
    assert_eq!(progress_refusal(1, Some(&active), Some(1)), None);
    assert_eq!(ProgressRefusal::SonarrUnavailable.status(), 502);
    assert_eq!(ProgressRefusal::UnknownShow.message(), "Show not found.");
}

#[test]
fn configuration_errors_have_their_messages() {
    let mut c = config();
    c.sqlite_database_path = "".into();
    assert_eq!(c.validate().unwrap_err().message(), "database path is required");
    c.sqlite_database_path = "db".into();
    c.sonarr_api_key = " ".into();
    assert_eq!(c.validate().unwrap_err().message(), "Sonarr API key is required");
    c.sonarr_api_key = "k".into();
    c.scan_interval_seconds = 5;
    assert_eq!(
        c.validate().unwrap_err().message(),
        "scan interval must be between 10 and 86400 seconds"
    );
    c.scan_interval_seconds = 10;
    c.discord_webhook_url = "http://discord.com/api/webhooks/a/b".into();
    assert_eq!(c.validate().unwrap_err().message(), "Discord webhook must use HTTPS");
    c.discord_webhook_url = "https://example.com/api/webhooks/a/b".into();
    assert_eq!(c.validate().unwrap_err().message(), "invalid Discord webhook host or path");
    assert_eq!(
        validate_url("::", "Sonarr").unwrap_err().message(),
        "invalid Sonarr URL"
    );
    assert_eq!(
        validate_url("ftp://host/", "Discord webhook").unwrap_err().message(),
        "Discord webhook requires an HTTP(S) URL"
    );
    assert_eq!(
        validate_url("http://host/?q=1", "Sonarr").unwrap_err().message(),
        "Sonarr URL must not contain credentials, query, or fragment"
    );
}
