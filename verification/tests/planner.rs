use server_core::model::{NotificationMode, PlannedNotification};
use server_core::planner::{plan, truncate};
use server_core::sonarr::{Episode, FinaleType, Series, SeriesStatus};

fn series() -> Series {
    Series {
        id: 1,
        title: "Test Show".into(),
        monitored: true,
        status: SeriesStatus::Continuing,
        year: None,
        imdb_id: None,
    }
}

fn episode(id: i64, number: i64, timestamp: i64) -> Episode {
    Episode {
        id,
        series_id: 1,
        season_number: 1,
        episode_number: number,
        title: format!("Episode {number}"),
        air_date_utc: Some(timestamp),
        has_file: false,
        monitored: true,
        finale_type: None,
    }
}

fn season_plan(episodes: &[Episode]) -> Vec<PlannedNotification> {
    plan(&series(), episodes, 0)
        .into_iter()
        .filter(|p| p.mode == NotificationMode::Season)
        .collect()
}

#[test]
fn episode_rules_and_initial_backlog() {
    let mut episodes = vec![
        episode(1, 1, 100),
        episode(2, 2, 200),
        episode(3, 3, 300),
        episode(4, 4, 400),
        episode(5, 5, 500),
    ];
    episodes[1].has_file = true;
    episodes[2].monitored = false;
    episodes[3].air_date_utc = None;
    let plans = plan(&series(), &episodes, 101);
    assert_eq!(plans.len(), 1);
    assert_eq!(plans[0].episode_id, Some(5));
    let mut unmonitored = series();
    unmonitored.monitored = false;
    assert!(plan(&unmonitored, &episodes, 0).is_empty());
}

#[test]
fn ended_and_previous_seasons_have_completion_evidence() {
    let episodes = vec![episode(1, 1, 100)];
    let mut show = series();
    show.status = SeriesStatus::Ended;
    assert!(
        plan(&show, &episodes, 0)
            .iter()
            .any(|p| p.mode == NotificationMode::Season)
    );
    let mut next = episode(2, 1, 200);
    next.season_number = 2;
    assert_eq!(season_plan(&[episodes[0].clone(), next]).len(), 1);
}

#[test]
fn season_with_files_and_specials_are_not_notified() {
    let mut item = episode(1, 1, 100);
    item.finale_type = Some(FinaleType::Season);
    item.has_file = true;
    assert!(season_plan(&[item.clone()]).is_empty());
    item.has_file = false;
    item.season_number = 0;
    assert!(season_plan(&[item]).is_empty());
}

#[test]
fn season_with_missing_episode_numbers_is_not_complete() {
    let mut finale = episode(3, 3, 300);
    finale.finale_type = Some(FinaleType::Season);
    assert!(season_plan(&[episode(1, 1, 100), finale]).is_empty());
}

#[test]
fn episode_plan_has_exact_key_content_and_due_time() {
    let plans = plan(&series(), &[episode(7, 3, 1234)], 0);
    let p = &plans[0];
    assert_eq!(p.key, "episode:7");
    assert_eq!(p.series_id, 1);
    assert_eq!(p.mode, NotificationMode::Episode);
    assert_eq!(p.season, 1);
    assert_eq!(p.episode_id, Some(7));
    assert_eq!(p.due_at, 1234);
    assert_eq!(p.episode_ids, vec![7]);
    assert!(!p.awaiting_confirmation);
    assert_eq!(
        p.content,
        "Test Show — S01E03: Episode 3 has reached its scheduled air time and is missing from your library. Check for a download."
    );
}

#[test]
fn completed_season_plan_names_missing_episodes_and_latest_air_time() {
    let mut last = episode(2, 2, 200);
    last.finale_type = Some(FinaleType::Season);
    let mut first = episode(1, 1, 300);
    first.has_file = true;
    let plans = season_plan(&[first, last]);
    assert_eq!(plans.len(), 1);
    let p = &plans[0];
    assert_eq!(p.key, "season:1:1");
    assert_eq!(p.due_at, 300);
    assert_eq!(p.episode_ids, vec![2]);
    assert_eq!(p.episode_id, None);
    assert!(!p.awaiting_confirmation);
    assert_eq!(
        p.content,
        "Test Show — Season 1 has reached its final scheduled air time. 1 monitored episode(s) are missing from your library. Check for downloads."
    );
}

#[test]
fn season_waits_for_finale_and_all_dates() {
    let mut episodes = vec![episode(1, 1, 100), episode(2, 2, 200)];
    assert!(season_plan(&episodes).is_empty());
    episodes[1].finale_type = Some(FinaleType::Midseason);
    assert!(season_plan(&episodes).is_empty());
    episodes[1].finale_type = Some(FinaleType::Season);
    let plans = season_plan(&episodes);
    assert_eq!(plans.len(), 1);
    assert_eq!(plans[0].due_at, 200);
    episodes[0].monitored = false;
    episodes[0].air_date_utc = None;
    assert!(season_plan(&episodes).is_empty());
}

#[test]
fn confirmed_season_message_names_the_season() {
    let mut last = episode(2, 2, 200);
    last.finale_type = Some(FinaleType::Season);
    let plans = season_plan(&[episode(1, 1, 100), last]);
    assert_eq!(plans.len(), 1);
    assert!(!plans[0].awaiting_confirmation);
    assert_eq!(plans[0].key, "season:1:1");
}

#[test]
fn season_needs_every_air_date() {
    let mut last = episode(2, 2, 200);
    last.finale_type = Some(FinaleType::Season);
    let mut first = episode(1, 1, 100);
    first.monitored = false;
    first.air_date_utc = None;
    assert!(season_plan(&[first, last]).is_empty());
}

#[test]
fn episodes_of_other_series_are_ignored_and_seasons_come_in_order() {
    let mut other = episode(9, 1, 100);
    other.series_id = 2;
    let mut s2 = episode(3, 1, 400);
    s2.season_number = 2;
    s2.finale_type = Some(FinaleType::Series);
    let plans = plan(&series(), &[s2, other, episode(1, 1, 100)], 0);
    let keys: Vec<&str> = plans.iter().map(|p| p.key.as_str()).collect();
    assert_eq!(keys, vec!["episode:3", "episode:1", "season:1:1", "season:1:2"]);
    assert!(!plans[2].awaiting_confirmation);
}

#[test]
fn long_messages_are_cut_to_discord_limit() {
    let mut show = series();
    show.title = "𝄞".repeat(1000);
    let plans = plan(&show, &[episode(1, 1, 100)], 0);
    let units: usize = plans[0].content.chars().map(|c| c.len_utf16()).sum();
    assert_eq!(units, 1900);
    assert_eq!(plans[0].content.chars().count(), 950);
}

#[test]
fn truncate_keeps_whole_characters_within_the_limit() {
    assert_eq!(truncate("short".to_string()), "short");
    let cut = truncate("𝄞".repeat(1000));
    assert_eq!(cut.chars().count(), 950);
    assert_eq!(truncate("a".repeat(1901)).len(), 1900);
}

#[test]
fn every_planned_notification_has_its_own_key() {
    let mut s2 = episode(3, 1, 400);
    s2.season_number = 2;
    s2.finale_type = Some(FinaleType::Series);
    let mut s1_last = episode(2, 2, 200);
    s1_last.finale_type = Some(FinaleType::Season);
    let plans = plan(&series(), &[episode(1, 1, 100), s1_last, s2], 0);
    let mut keys: Vec<&str> = plans.iter().map(|p| p.key.as_str()).collect();
    assert_eq!(keys.len(), 5);
    keys.sort();
    keys.dedup();
    assert_eq!(keys.len(), 5);
}

#[test]
fn utc_offsets_and_unknown_sonarr_values_are_safe() {
    let aired = chrono::DateTime::parse_from_rfc3339("2026-09-20T20:00:00+10:00")
        .unwrap()
        .with_timezone(&chrono::Utc);
    assert_eq!(aired.to_rfc3339(), "2026-09-20T10:00:00+00:00");
    let mut item = episode(1, 1, aired.timestamp());
    item.title = "Pilot".into();
    item.finale_type = Some(FinaleType::Unknown);
    assert_eq!(item.finale_type, Some(FinaleType::Unknown));
    assert!(season_plan(&[item]).is_empty());
}
