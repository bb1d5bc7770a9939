use server_core::api::NotificationView;
use server_core::model::{EmbedColors, NotificationMode, PlannedNotification};
use server_core::planner::plan;
use server_core::sonarr::{Episode, FinaleType, Series, SeriesStatus};
use server_core::store::{DeliveryState, NotificationState, Store};

fn series() -> Series {
    Series {
        id: 1,
        title: "Test Show".into(),
        monitored: true,
        status: SeriesStatus::Continuing,
        year: None,
        imdb_id: None,
    }
}

fn episode(id: i64, number: i64, timestamp: i64) -> Episode {
    Episode {
        id,
        series_id: 1,
        season_number: 1,
        episode_number: number,
        title: format!("Episode {number}"),
        air_date_utc: Some(timestamp),
        has_file: false,
        monitored: true,
        finale_type: None,
    }
}

fn shows(list: &[(i64, &str)]) -> Vec<(i64, String)> {
    list.iter().map(|(id, t)| (*id, t.to_string())).collect()
}

fn state_of(store: &Store, key: &str) -> NotificationState {
    store
        .notifications
        .iter()
        .find(|n| n.key == key)
        .unwrap()
        .state
}

fn mode_of(store: &Store, id: i64) -> NotificationMode {
    store.shows.iter().find(|s| s.id == id).unwrap().mode
}

#[test]
fn store_deduplicates_across_replans() {
    let mut db = Store::new(0);
    db.sync_shows(&shows(&[(1, "Test Show")]));
    let plans = plan(&series(), &[episode(1, 1, 100)], 0);
    db.replace_plans(1, &plans);
    assert!(!db.claim(&plans[0], 99));
    assert!(db.claim(&plans[0], 100));
    db.finish(&plans[0].key, DeliveryState::Sent, 101);
    db.replace_plans(1, &plans);
    assert!(db.next_due().is_none());
    assert!(!db.claim(&plans[0], 200));
    assert_eq!(state_of(&db, "episode:1"), NotificationState::Sent);
}

#[test]
fn store_reservation_is_never_retried() {
    let mut db = Store::new(0);
    db.sync_shows(&shows(&[(1, "Show")]));
    let plans = plan(&series(), &[episode(1, 1, 100)], 0);
    db.replace_plans(1, &plans);
    assert!(db.claim(&plans[0], 100));
    db.replace_plans(1, &plans);
    assert!(db.next_due().is_none());
    assert_eq!(db.unresolved_deliveries(), 1);
}

#[test]
fn store_exclusions_modes_and_removed_shows_block_claims() {
    let mut db = Store::new(0);
    db.sync_shows(&shows(&[(1, "Show")]));
    let plans = plan(&series(), &[episode(1, 1, 100)], 0);
    db.replace_plans(1, &plans);
    db.set_excluded(1, true);
    assert!(db.next_due().is_none());
    assert!(!db.claim(&plans[0], 100));
    db.sync_shows(&shows(&[(1, "Renamed")]));
    assert!(db.shows[0].excluded);
    assert_eq!(db.shows[0].title, "Renamed");
    db.set_excluded(1, false);
    db.set_show_mode(1, NotificationMode::Season);
    assert!(!db.claim(&plans[0], 100));
    db.set_show_mode(1, NotificationMode::Episode);
    db.sync_shows(&shows(&[]));
    assert!(!db.claim(&plans[0], 100));
}

#[test]
fn store_season_delivery_covers_episodes_across_mode_changes() {
    let mut db = Store::new(0);
    db.sync_shows(&shows(&[(1, "Show")]));
    let mut last = episode(2, 2, 200);
    last.finale_type = Some(FinaleType::Season);
    let plans = plan(&series(), &[episode(1, 1, 100), last], 0);
    db.replace_plans(1, &plans);
    db.set_show_mode(1, NotificationMode::Season);
    let season = plans.iter().find(|p| p.mode == NotificationMode::Season).unwrap();
    assert!(db.claim(season, 200));
    db.finish(&season.key, DeliveryState::Sent, 200);
    db.set_show_mode(1, NotificationMode::Episode);
    assert!(db.next_due().is_none());
    assert!(!db.claim(&plans[0], 200));
}

#[test]
fn store_already_announced_episodes_do_not_create_a_season_loop() {
    let mut db = Store::new(0);
    db.sync_shows(&shows(&[(1, "Show")]));
    let mut last = episode(1, 1, 100);
    last.finale_type = Some(FinaleType::Season);
    let plans = plan(&series(), &[last], 0);
    db.replace_plans(1, &plans);
    assert!(db.claim(&plans[0], 100));
    db.finish(&plans[0].key, DeliveryState::Sent, 100);
    db.set_show_mode(1, NotificationMode::Season);
    let season = plans.iter().find(|p| p.mode == NotificationMode::Season).unwrap();
    assert!(!db.claim(season, 100));
    assert_eq!(state_of(&db, "season:1:1"), NotificationState::Covered);
    assert!(db.next_due().is_none());
}

#[test]
fn store_second_claim_loses() {
    let mut db = Store::new(0);
    db.sync_shows(&shows(&[(1, "Show")]));
    let plans = plan(&series(), &[episode(1, 1, 100)], 0);
    db.replace_plans(1, &plans);
    let first = db.claim(&plans[0], 100);
    let second = db.claim(&plans[0], 100);
    assert_ne!(first, second);
}

#[test]
fn store_rate_limits_release_reservation_and_survive_rescans() {
    let mut db = Store::new(0);
    db.sync_shows(&shows(&[(1, "Show")]));
    let plans = plan(&series(), &[episode(1, 1, 100)], 0);
    db.replace_plans(1, &plans);
    assert!(db.claim(&plans[0], 100));
    db.rate_limited(&plans[0].key, 200);
    db.replace_plans(1, &plans);
    assert_eq!(db.next_due().unwrap().2, 200);
    assert!(!db.claim(&plans[0], 199));
    assert!(db.claim(&plans[0], 200));
}

#[test]
fn store_rescheduling_and_downloads_replace_pending_plans() {
    let mut db = Store::new(0);
    db.sync_shows(&shows(&[(1, "Show")]));
    db.replace_plans(1, &plan(&series(), &[episode(1, 1, 100)], 0));
    db.replace_plans(1, &plan(&series(), &[episode(1, 1, 300)], 0));
    assert_eq!(db.next_due().unwrap().2, 300);
    let mut downloaded = episode(1, 1, 300);
    downloaded.has_file = true;
    db.replace_plans(1, &plan(&series(), &[downloaded], 0));
    assert!(db.next_due().is_none());
}

#[test]
fn store_deferral_postpones_pending_notification() {
    let mut db = Store::new(0);
    db.sync_shows(&shows(&[(1, "Show")]));
    let plans = plan(&series(), &[episode(1, 1, 100)], 0);
    db.replace_plans(1, &plans);
    db.defer(&plans[0].key, 160);
    db.replace_plans(1, &plans);
    assert_eq!(db.next_due().unwrap().2, 160);
    assert!(!db.claim(&plans[0], 159));
}

#[test]
fn store_disabled_webhook_holds_everything_until_resumed() {
    let mut db = Store::new(0);
    db.sync_shows(&shows(&[(1, "Show")]));
    let plans = plan(&series(), &[episode(1, 1, 100)], 0);
    db.replace_plans(1, &plans);
    db.disable_webhook();
    assert!(db.next_due().is_none());
    assert!(!db.claim(&plans[0], 100));
    db.resume_webhook();
    assert_eq!(db.next_due().unwrap().0, "episode:1");
}

#[test]
fn store_individual_modes_control_deadlines_claims_and_survive_rescans() {
    let mut db = Store::new(0);
    db.sync_shows(&shows(&[(1, "Episodes"), (2, "Seasons")]));
    let first = plan(&series(), &[episode(1, 1, 100)], 0);
    let mut second_series = series();
    second_series.id = 2;
    let mut second_episode = episode(2, 1, 200);
    second_episode.series_id = 2;
    second_episode.finale_type = Some(FinaleType::Season);
    let second = plan(&second_series, &[second_episode], 0);
    db.replace_plans(1, &first);
    db.replace_plans(2, &second);
    assert!(db.set_show_mode(2, NotificationMode::Season));
    assert!(!db.set_show_mode(999, NotificationMode::Season));
    assert_eq!(db.next_due().unwrap().0, first[0].key);
    assert!(db.claim(&first[0], 100));
    let episode_plan = second.iter().find(|p| p.mode == NotificationMode::Episode).unwrap();
    let season_plan = second.iter().find(|p| p.mode == NotificationMode::Season).unwrap();
    assert_eq!(db.next_due().unwrap().0, season_plan.key);
    assert!(!db.claim(episode_plan, 200));
    db.set_show_mode(2, NotificationMode::Episode);
    assert!(!db.claim(season_plan, 200));
    db.set_show_mode(2, NotificationMode::Season);
    assert!(db.claim(season_plan, 200));
    db.sync_shows(&shows(&[]));
    db.sync_shows(&shows(&[(1, "Renamed episodes"), (2, "Renamed seasons"), (3, "New show")]));
    assert_eq!(mode_of(&db, 1), NotificationMode::Episode);
    assert_eq!(mode_of(&db, 2), NotificationMode::Season);
    assert_eq!(mode_of(&db, 3), NotificationMode::Episode);
}

#[test]
fn store_default_mode_applies_to_shows_without_their_own() {
    let mut db = Store::new(0);
    db.sync_shows(&shows(&[(1, "A"), (2, "B")]));
    db.set_show_mode(1, NotificationMode::Episode);
    db.set_default_mode(NotificationMode::Season);
    assert_eq!(mode_of(&db, 1), NotificationMode::Episode);
    assert_eq!(mode_of(&db, 2), NotificationMode::Season);
    db.sync_shows(&shows(&[(1, "A"), (2, "B"), (3, "C")]));
    assert_eq!(mode_of(&db, 3), NotificationMode::Season);
    assert!(db.reset_show_mode(1));
    assert_eq!(mode_of(&db, 1), NotificationMode::Season);
    db.set_show_mode(2, NotificationMode::Episode);
    db.reset_all_show_modes(NotificationMode::Episode);
    assert!(db.shows.iter().all(|s| s.mode == NotificationMode::Episode && !s.mode_overridden));
    assert_eq!(db.settings.default_mode, NotificationMode::Episode);
}

#[test]
fn store_embed_colors_must_be_rgb() {
    let mut db = Store::new(0);
    assert!(db.set_embed_colors(EmbedColors { episode_color: 0x123456, season_color: 0xffffff }).is_ok());
    assert_eq!(db.settings.colors.for_mode(NotificationMode::Season), 0xffffff);
    assert!(db.set_embed_colors(EmbedColors { episode_color: 0x1000000, season_color: 0 }).is_err());
    assert_eq!(db.settings.colors.episode_color, 0x123456);
}

fn keys(db: &Store, page: &[usize]) -> Vec<String> {
    page.iter().map(|i| db.notifications[*i].key.clone()).collect()
}

#[test]
fn store_activity_views_filter_policy_and_paginate() {
    let mut db = Store::new(0);
    db.sync_shows(&shows(&[(1, "Test Show")]));
    let mut finale = episode(2, 2, 200);
    finale.finale_type = Some(FinaleType::Season);
    let plans: Vec<PlannedNotification> = plan(&series(), &[episode(1, 1, 100), finale], 0);
    db.replace_plans(1, &plans);
    let upcoming = db.notification_page(Some(NotificationView::Upcoming), 50, 0);
    assert_eq!(keys(&db, &upcoming), vec!["episode:1", "episode:2"]);
    let second = db.notification_page(Some(NotificationView::Upcoming), 1, 1);
    assert_eq!(keys(&db, &second), vec!["episode:2"]);
    assert!(db.notification_page(Some(NotificationView::History), 50, 0).is_empty());
    db.set_show_mode(1, NotificationMode::Season);
    let seasons = db.notification_page(Some(NotificationView::Upcoming), 50, 0);
    assert_eq!(keys(&db, &seasons), vec!["season:1:1"]);
    db.set_excluded(1, true);
    assert!(db.notification_page(Some(NotificationView::Upcoming), 50, 0).is_empty());
    db.set_excluded(1, false);
    db.sync_shows(&shows(&[]));
    assert!(db.notification_page(Some(NotificationView::Upcoming), 50, 0).is_empty());
    db.sync_shows(&shows(&[(1, "Test Show")]));
    db.set_show_mode(1, NotificationMode::Episode);
    assert!(db.claim(&plans[0], 100));
    db.finish(&plans[0].key, DeliveryState::Sent, 101);
    assert_eq!(db.notification_page(Some(NotificationView::Upcoming), 50, 0).len(), 1);
    let history = db.notification_page(Some(NotificationView::History), 50, 0);
    assert_eq!(keys(&db, &history), vec!["episode:1"]);
    assert_eq!(db.notifications[history[0]].sent_at, Some(101));
    let all = db.notification_page(None, 50, 0);
    assert_eq!(keys(&db, &all), vec!["episode:2", "season:1:1", "episode:1"]);
}

#[test]
fn store_states_round_trip_through_their_names() {
    for state in [
        NotificationState::Pending,
        NotificationState::Sending,
        NotificationState::Sent,
        NotificationState::Uncertain,
        NotificationState::Failed,
        NotificationState::Covered,
    ] {
        assert_eq!(NotificationState::parse(state.as_str()), Some(state));
    }
    assert_eq!(NotificationState::parse("bogus"), None);
    assert_eq!(DeliveryState::Uncertain.as_str(), "uncertain");
    assert_eq!(DeliveryState::Sent.as_str(), "sent");
    assert_eq!(DeliveryState::Failed.as_str(), "failed");
}

#[test]
fn store_well_formedness_is_checked() {
    let mut db = Store::new(0);
    db.sync_shows(&shows(&[(1, "A"), (1, "B")]));
    assert!(db.is_well_formed());
    assert_eq!(db.shows.len(), 1);
    assert_eq!(db.shows[0].title, "B");
    let plans = plan(&series(), &[episode(1, 1, 100)], 0);
    db.replace_plans(1, &plans);
    db.replace_plans(1, &plans);
    assert!(db.is_well_formed());
    assert_eq!(db.notifications.len(), 1);
}

#[test]
fn store_lists_shows_by_title_then_id() {
    let mut db = Store::new(0);
    db.sync_shows(&shows(&[(3, "Beta"), (2, "Alpha"), (1, "Beta"), (4, "alpha")]));
    let order: Vec<i64> = db.show_listing().iter().map(|&i| db.shows[i].id).collect();
    assert_eq!(order, vec![2, 1, 3, 4]);
    assert_eq!(db.show_index(4).map(|i| db.shows[i].title.as_str()), Some("alpha"));
    assert!(db.show_index(9).is_none());
}

#[test]
fn store_reports_what_a_series_has_announced() {
    let mut db = Store::new(0);
    db.sync_shows(&shows(&[(1, "Test Show")]));
    let plans = plan(&series(), &[episode(1, 1, 100), episode(2, 2, 200)], 0);
    db.replace_plans(1, &plans);
    assert!(db.claim(&plans[0], 100));
    db.finish(&plans[0].key, DeliveryState::Sent, 101);
    assert_eq!(db.covered_episodes_of(1), vec![1]);
    assert!(db.covered_episodes_of(2).is_empty());
    let deliveries = db.deliveries_of(1);
    assert_eq!(
        deliveries,
        vec![
            ("episode:1".to_string(), "sent".to_string()),
            ("episode:2".to_string(), "pending".to_string()),
        ]
    );
    let i = db.notification_index(&"episode:2".to_string()).unwrap();
    assert_eq!(db.notifications[i].due_at, 200);
    assert!(db.notification_index(&"episode:9".to_string()).is_none());
}
