use std::collections::HashSet;

use server_core::model::{NotificationMode, Show};
use server_core::progress::build;
use server_core::sonarr::{Episode, FinaleType, Series, SeriesStatus};

fn series() -> Series {
    Series {
        id: 1,
        title: "Test Show".into(),
        monitored: true,
        status: SeriesStatus::Continuing,
        year: None,
        imdb_id: None,
    }
}

fn show() -> Show {
    Show {
        id: 1,
        title: "Test Show".into(),
        excluded: false,
        active: true,
        mode: NotificationMode::Episode,
        mode_overridden: false,
    }
}

fn episode(id: i64, season: i64, number: i64, air: Option<i64>) -> Episode {
    Episode {
        id,
        series_id: 1,
        season_number: season,
        episode_number: number,
        title: format!("Episode {number}"),
        air_date_utc: air,
        has_file: false,
        monitored: true,
        finale_type: None,
    }
}

#[test]
fn progress_counts_seasons_and_next_release() {
    let mut e2 = episode(2, 1, 2, Some(200));
    e2.has_file = true;
    let mut e3 = episode(3, 1, 3, Some(300));
    e3.finale_type = Some(FinaleType::Season);
    let special = episode(9, 0, 1, None);
    let episodes = vec![e3, episode(1, 1, 1, Some(100)), e2, special, episode(4, 2, 1, Some(500))];
    let covered: HashSet<i64> = [1].into_iter().collect();
    let deliveries = vec![("episode:1".to_string(), "sent".to_string())];
    let p = build(show(), &series(), &episodes, 0, 250, &covered, &deliveries, false, 0);
    assert_eq!(p.as_of, 250);
    assert_eq!(p.counts.total, 4);
    assert_eq!(p.counts.aired, 2);
    assert_eq!(p.counts.in_library, 1);
    assert_eq!(p.counts.undated, 0);
    let numbers: Vec<i64> = p.seasons.iter().map(|s| s.number).collect();
    assert_eq!(numbers, vec![0, 1, 2]);
    let season1 = &p.seasons[1];
    let ids: Vec<i64> = season1.episodes.iter().map(|e| e.id).collect();
    assert_eq!(ids, vec![1, 2, 3]);
    assert!(season1.completion_confirmed);
    assert_eq!(season1.final_air_at, Some(300));
    assert!(season1.episodes[0].notified);
    assert!(!season1.episodes[1].notified);
    assert!(!p.seasons[0].completion_confirmed);
    assert_eq!(p.seasons[0].counts.undated, 1);
    let next = p.next_release.as_ref().unwrap();
    assert_eq!((next.season, next.episode, next.air_at), (1, 3, 300));
    let n = p.next_notification.unwrap();
    assert_eq!((n.season, n.episode, n.due_at), (1, Some(3), 300));
    assert_eq!(n.episodes_remaining, 1);
    assert_eq!(season1.notification.unwrap().due_at, 300);
    assert!(p.notification_block.is_none());
}

#[test]
fn progress_explains_blocked_notifications() {
    let mut s = show();
    s.excluded = true;
    let p = build(s, &series(), &[], 0, 0, &HashSet::new(), &[], true, 0);
    assert_eq!(p.notification_block.as_deref(), Some("Notifications are excluded for this show."));
    let mut gone = show();
    gone.active = false;
    let p = build(gone, &series(), &[], 0, 0, &HashSet::new(), &[], false, 0);
    assert_eq!(p.notification_block.as_deref(), Some("This show has been removed from Sonarr."));
    let p = build(show(), &series(), &[], 0, 0, &HashSet::new(), &[], true, 0);
    assert_eq!(p.notification_block.as_deref(), Some("Discord delivery is paused. Resume it from Overview."));
    assert!(p.seasons.is_empty());
    assert!(p.next_release.is_none());
}

#[test]
fn progress_prefers_confirmed_seasons_and_respects_webhook_backoff() {
    let mut s = show();
    s.mode = NotificationMode::Season;
    let mut last = episode(2, 1, 2, Some(150));
    last.finale_type = Some(FinaleType::Season);
    let episodes = vec![episode(1, 1, 1, Some(100)), last];
    let p = build(s, &series(), &episodes, 0, 1000, &HashSet::new(), &[], false, 400);
    let n = p.next_notification.unwrap();
    assert!(!n.awaiting_confirmation);
    assert_eq!(n.due_at, 400);
    assert_eq!(n.episode, None);
    assert_eq!(n.episodes_remaining, 0);
    assert!(p.seasons[0].completion_confirmed);
    assert_eq!(p.seasons[0].final_air_at, Some(150));
}

#[test]
fn progress_without_finale_has_no_season_notification() {
    let mut s = show();
    s.mode = NotificationMode::Season;
    let episodes = vec![episode(1, 1, 1, Some(100)), episode(2, 1, 2, Some(150))];
    let p = build(s, &series(), &episodes, 0, 1000, &HashSet::new(), &[], false, 400);
    assert!(p.next_notification.is_none());
    assert!(!p.seasons[0].completion_confirmed);
    assert_eq!(p.seasons[0].final_air_at, None);
}
