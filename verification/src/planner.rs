//! Pure scheduling rules, independent of network and database state.
use vstd::prelude::*;
use crate::model::{NotificationMode, PlanView, PlannedNotification, plan_views};
use crate::sonarr::{Episode, FinaleType, Series, SeriesStatus, distinct_ids};
use crate::text::{
    decimal, decimal_width2, lemma_decimal_injective, push_count, push_decimal, push_decimal_width2, push_str,
    lemma_truncated_fits, truncate_utf16, utf16_truncated, utf16_units,
};

verus! {

/// Discord counts UTF-16 code units toward its 2000-character limit; messages keep a margin.
pub const CONTENT_LIMIT: usize = 1900;

/// Cuts a message to its longest prefix of at most `CONTENT_LIMIT` UTF-16 code units.
pub fn truncate(content: String) -> (r: String)
    ensures
        r@ == utf16_truncated(content@, CONTENT_LIMIT as nat),
{
    truncate_utf16(content.as_str(), CONTENT_LIMIT)
}

// ---------------------------------------------------------------------
// Episode notifications
// ---------------------------------------------------------------------

/// Whether `e` is a monitored episode of `series`, missing from the library,
/// whose known air time is not before the tracking start.
pub open spec fn wants_episode_alert(series: Series, e: Episode, since: i64) -> bool {
    &&& e.series_id == series.id
    &&& e.monitored
    &&& !e.has_file
    &&& e.air_date_utc is Some
    &&& e.air_date_utc->0 >= since
}

/// Message announcing a missing episode, before truncation.
pub open spec fn episode_text(series: Series, e: Episode) -> Seq<char> {
    series.title@ + " — S"@ + decimal_width2(e.season_number as int) + "E"@ + decimal_width2(
        e.episode_number as int,
    ) + ": "@ + e.title@
        + " has reached its scheduled air time and is missing from your library. Check for a download."@
}

/// The notification planned for a single missing episode.
pub open spec fn episode_plan(series: Series, e: Episode) -> PlanView {
    PlanView {
        key: "episode:"@ + decimal(e.id as int),
        series_id: series.id,
        mode: NotificationMode::Episode,
        season: e.season_number,
        episode_id: Some(e.id),
        due_at: e.air_date_utc->0,
        content: utf16_truncated(episode_text(series, e), CONTENT_LIMIT as nat),
        episode_ids: seq![e.id],
        awaiting_confirmation: false,
    }
}

/// Episode notifications, in the order of `eps`.
pub open spec fn episode_plans(series: Series, eps: Seq<Episode>, since: i64) -> Seq<PlanView>
    decreases eps.len(),
{
    if eps.len() == 0 {
        seq![]
    } else {
        let rest = episode_plans(series, eps.drop_last(), since);
        if wants_episode_alert(series, eps.last(), since) {
            rest.push(episode_plan(series, eps.last()))
        } else {
            rest
        }
    }
}

// ---------------------------------------------------------------------
// Season notifications
// ---------------------------------------------------------------------

/// Whether `e` belongs to season `season` of series `series_id`.
pub open spec fn in_season(e: Episode, series_id: i64, season: i64) -> bool {
    e.series_id == series_id && e.season_number == season
}

/// Number of known episodes of the season.
pub open spec fn season_size(eps: Seq<Episode>, series_id: i64, season: i64) -> nat
    decreases eps.len(),
{
    if eps.len() == 0 {
        0
    } else {
        season_size(eps.drop_last(), series_id, season) + if in_season(
            eps.last(),
            series_id,
            season,
        ) {
            1nat
        } else {
            0nat
        }
    }
}

/// Whether `e` is a monitored episode that is missing from the library.
pub open spec fn is_missing(e: Episode) -> bool {
    e.monitored && !e.has_file
}

/// Identifiers of the season's monitored episodes that are missing, in order.
pub open spec fn missing_ids(eps: Seq<Episode>, series_id: i64, season: i64) -> Seq<i64>
    decreases eps.len(),
{
    if eps.len() == 0 {
        seq![]
    } else {
        let rest = missing_ids(eps.drop_last(), series_id, season);
        let e = eps.last();
        if in_season(e, series_id, season) && is_missing(e) {
            rest.push(e.id)
        } else {
            rest
        }
    }
}

/// Whether every known episode of the season, monitored or not, has an air time.
pub open spec fn all_dated(eps: Seq<Episode>, series_id: i64, season: i64) -> bool {
    forall|i: int|
        0 <= i < eps.len() && in_season(#[trigger] eps[i], series_id, season)
            ==> eps[i].air_date_utc is Some
}

/// The latest known air time in the season.
pub open spec fn latest_air(eps: Seq<Episode>, series_id: i64, season: i64) -> Option<i64>
    decreases eps.len(),
{
    if eps.len() == 0 {
        None
    } else {
        let rest = latest_air(eps.drop_last(), series_id, season);
        let e = eps.last();
        if in_season(e, series_id, season) && e.air_date_utc is Some {
            let at = e.air_date_utc->0;
            match rest {
                Some(d) => Some(if d >= at { d } else { at }),
                None => Some(at),
            }
        } else {
            rest
        }
    }
}

/// Whether the season's episode numbers are exactly 1, 2, ..., n.
pub open spec fn numbered_from_one(eps: Seq<Episode>, series_id: i64, season: i64) -> bool {
    let n = season_size(eps, series_id, season);
    &&& forall|i: int|
        0 <= i < eps.len() && in_season(#[trigger] eps[i], series_id, season) ==> 1
            <= eps[i].episode_number <= n
    &&& forall|i: int, j: int|
        0 <= i < j < eps.len() && in_season(#[trigger] eps[i], series_id, season) && in_season(
            #[trigger] eps[j],
            series_id,
            season,
        ) ==> eps[i].episode_number != eps[j].episode_number
}

/// Whether `f` marks the end of a season (a season or series finale).
pub open spec fn is_final(f: Option<FinaleType>) -> bool {
    f == Some(FinaleType::Season) || f == Some(FinaleType::Series)
}

/// Whether the season's last numbered episode is a season or series finale.
pub open spec fn has_finale(eps: Seq<Episode>, series_id: i64, season: i64) -> bool {
    exists|i: int|
        0 <= i < eps.len() && in_season(#[trigger] eps[i], series_id, season)
            && eps[i].episode_number == season_size(eps, series_id, season) && is_final(
            eps[i].finale_type,
        )
}

/// Whether Sonarr lists a later season of the series.
pub open spec fn has_later_season(eps: Seq<Episode>, series_id: i64, season: i64) -> bool {
    exists|i: int|
        0 <= i < eps.len() && (#[trigger] eps[i]).series_id == series_id && eps[i].season_number
            > season
}

/// Evidence that a season is complete: a season or series finale on its last
/// numbered episode, a later season in Sonarr, or an ended series. A midseason
/// finale is not enough.
pub open spec fn season_complete(series: Series, eps: Seq<Episode>, season: i64) -> bool {
    has_finale(eps, series.id, season) || has_later_season(eps, series.id, season)
        || series.status == SeriesStatus::Ended
}

/// Whether a season notification is planned for `season`.
pub open spec fn season_qualifies(series: Series, eps: Seq<Episode>, since: i64, season: i64) -> bool {
    &&& season > 0
    &&& missing_ids(eps, series.id, season).len() > 0
    &&& all_dated(eps, series.id, season)
    &&& latest_air(eps, series.id, season) matches Some(d) && d >= since
    &&& numbered_from_one(eps, series.id, season)
    &&& season_complete(series, eps, season)
}

/// Message for a completed season with `missing` missing episodes, before truncation.
pub open spec fn season_text(series: Series, season: i64, missing: nat) -> Seq<char> {
    series.title@ + " — Season "@ + decimal(season as int)
        + " has reached its final scheduled air time. "@ + decimal(missing as int)
        + " monitored episode(s) are missing from your library. Check for downloads."@
}

/// The key of a season notification: `season:{series}:{season}`.
pub open spec fn season_key(series_id: i64, season: i64) -> Seq<char> {
    "season:"@ + decimal(series_id as int) + ":"@ + decimal(season as int)
}

/// The notification planned for a season.
pub open spec fn season_plan(series: Series, eps: Seq<Episode>, season: i64) -> PlanView {
    let missing = missing_ids(eps, series.id, season);
    PlanView {
        key: season_key(series.id, season),
        series_id: series.id,
        mode: NotificationMode::Season,
        season: season,
        episode_id: None,
        due_at: latest_air(eps, series.id, season)->0,
        content: utf16_truncated(season_text(series, season, missing.len()), CONTENT_LIMIT as nat),
        episode_ids: missing,
        awaiting_confirmation: false,
    }
}

/// `part` lists the season notifications: one per qualifying season, by ascending season.
pub open spec fn is_season_part(part: Seq<PlanView>, series: Series, eps: Seq<Episode>, since: i64) -> bool {
    &&& forall|i: int, j: int|
        0 <= i < j < part.len() ==> (#[trigger] part[i]).season < (#[trigger] part[j]).season
    &&& forall|i: int|
        0 <= i < part.len() ==> season_qualifies(series, eps, since, (#[trigger] part[i]).season)
            && part[i] == season_plan(series, eps, part[i].season)
    &&& forall|s: i64|
        #[trigger] season_qualifies(series, eps, since, s) ==> exists|i: int|
            0 <= i < part.len() && (#[trigger] part[i]).season == s
}

/// `v` is the plan for `series`: nothing for an unmonitored series; otherwise
/// the episode notifications in input order, then the season notifications.
pub open spec fn is_plan(series: Series, eps: Seq<Episode>, since: i64, v: Seq<PlanView>) -> bool {
    if !series.monitored {
        v.len() == 0
    } else {
        let e = episode_plans(series, eps, since);
        &&& e.len() <= v.len()
        &&& v.take(e.len() as int) == e
        &&& is_season_part(v.skip(e.len() as int), series, eps, since)
    }
}

// ---------------------------------------------------------------------
// Executable planning
// ---------------------------------------------------------------------

proof fn lemma_plan_views_push(v: Seq<PlannedNotification>, p: PlannedNotification)
    ensures
        plan_views(v.push(p)) == plan_views(v).push(p@),
{
    assert(plan_views(v.push(p)) =~= plan_views(v).push(p@));
}

fn episode_notification(series: &Series, e: &Episode) -> (p: PlannedNotification)
    requires
        e.air_date_utc is Some,
    ensures
        p@ == episode_plan(*series, *e),
{
    let mut key = String::new();
    push_str(&mut key, "episode:");
    push_decimal(&mut key, e.id);
    let mut text = String::new();
    push_str(&mut text, series.title.as_str());
    push_str(&mut text, " — S");
    push_decimal_width2(&mut text, e.season_number);
    push_str(&mut text, "E");
    push_decimal_width2(&mut text, e.episode_number);
    push_str(&mut text, ": ");
    push_str(&mut text, e.title.as_str());
    push_str(
        &mut text,
        " has reached its scheduled air time and is missing from your library. Check for a download.",
    );
    let content = truncate(text);
    let mut ids: Vec<i64> = Vec::new();
    ids.push(e.id);
    assert(ids@ =~= seq![e.id]);
    let due_at = match e.air_date_utc {
        Some(at) => at,
        None => 0,
    };
    PlannedNotification {
        key,
        series_id: series.id,
        mode: NotificationMode::Episode,
        season: e.season_number,
        episode_id: Some(e.id),
        due_at,
        content,
        episode_ids: ids,
        awaiting_confirmation: false,
    }
}

/// What one pass over the episodes learns about a season.
pub(crate) struct SeasonScan {
    pub(crate) size: usize,
    pub(crate) missing: Vec<i64>,
    pub(crate) all_dated: bool,
    pub(crate) latest: Option<i64>,
}

pub(crate) fn scan_season(episodes: &[Episode], series_id: i64, season: i64) -> (r: SeasonScan)
    ensures
        r.size == season_size(episodes@, series_id, season),
        r.size <= episodes@.len(),
        r.missing@ == missing_ids(episodes@, series_id, season),
        r.all_dated == all_dated(episodes@, series_id, season),
        r.latest == latest_air(episodes@, series_id, season),
{
    let mut size: usize = 0;
    let mut missing: Vec<i64> = Vec::new();
    let mut dated = true;
    let mut latest: Option<i64> = None;
    for i in 0..episodes.len()
        invariant
            size == season_size(episodes@.take(i as int), series_id, season),
            size <= i,
            missing@ == missing_ids(episodes@.take(i as int), series_id, season),
            dated == all_dated(episodes@.take(i as int), series_id, season),
            latest == latest_air(episodes@.take(i as int), series_id, season),
    {
        let e = &episodes[i];
        let ghost pre = episodes@.take(i as int);
        let ghost next = episodes@.take(i + 1);
        assert(next.drop_last() =~= pre);
        assert(next.last() == *e);
        if e.series_id == series_id && e.season_number == season {
            size = size + 1;
            if e.monitored && !e.has_file {
                missing.push(e.id);
            }
            match e.air_date_utc {
                Some(at) => {
                    latest = match latest {
                        Some(d) => Some(if d >= at { d } else { at }),
                        None => Some(at),
                    };
                },
                None => {
                    dated = false;
                },
            }
        }
        proof {
            if dated {
                assert forall|j: int|
                    0 <= j < next.len() && in_season(#[trigger] next[j], series_id, season)
                        implies next[j].air_date_utc is Some by {
                    if j < i {
                        assert(next[j] == pre[j]);
                    }
                }
            } else if all_dated(pre, series_id, season) {
                assert(next[i as int] == *e);
            } else {
                let j = choose|j: int|
                    0 <= j < pre.len() && in_season(#[trigger] pre[j], series_id, season)
                        && !(pre[j].air_date_utc is Some);
                assert(next[j] == pre[j]);
            }
        }
    }
    assert(episodes@.take(episodes.len() as int) =~= episodes@);
    SeasonScan { size, missing, all_dated: dated, latest }
}

fn numbering_is_complete(episodes: &[Episode], series_id: i64, season: i64, n: usize) -> (r: bool)
    requires
        n == season_size(episodes@, series_id, season),
    ensures
        r == numbered_from_one(episodes@, series_id, season),
{
    // seen[x - 1] records that episode number x has been met.
    let mut seen: Vec<bool> = Vec::new();
    let mut k: usize = 0;
    while k < n
        invariant
            k <= n,
            seen@.len() == k,
            forall|x: int| 0 <= x < k ==> !seen@[x],
        decreases n - k,
    {
        seen.push(false);
        k = k + 1;
    }
    let ghost eps = episodes@;
    for i in 0..episodes.len()
        invariant
            eps == episodes@,
            n == season_size(eps, series_id, season),
            seen@.len() == n,
            forall|j: int|
                0 <= j < i && in_season(#[trigger] eps[j], series_id, season) ==> 1
                    <= eps[j].episode_number <= n && seen@[eps[j].episode_number - 1],
            forall|x: int|
                0 <= x < n && #[trigger] seen@[x] ==> exists|j: int|
                    0 <= j < i && in_season(#[trigger] eps[j], series_id, season)
                        && eps[j].episode_number == x + 1,
            forall|a: int, b: int|
                0 <= a < b < i && in_season(#[trigger] eps[a], series_id, season) && in_season(
                    #[trigger] eps[b],
                    series_id,
                    season,
                ) ==> eps[a].episode_number != eps[b].episode_number,
    {
        let e = &episodes[i];
        if e.series_id == series_id && e.season_number == season {
            assert(in_season(eps[i as int], series_id, season));
            let number = e.episode_number;
            if number < 1 || (number as u64) > (n as u64) {
                return false;
            }
            let idx = (number - 1) as usize;
            if seen[idx] {
                proof {
                    let j = choose|j: int|
                        0 <= j < i && in_season(#[trigger] eps[j], series_id, season)
                            && eps[j].episode_number == idx as int + 1;
                    assert(in_season(eps[j], series_id, season) && in_season(
                        eps[i as int],
                        series_id,
                        season,
                    ));
                    assert(eps[j].episode_number == eps[i as int].episode_number);
                }
                return false;
            }
            seen.set(idx, true);
            proof {
                assert forall|x: int| 0 <= x < n && #[trigger] seen@[x] implies exists|j: int|
                    0 <= j < i + 1 && in_season(#[trigger] eps[j], series_id, season)
                        && eps[j].episode_number == x + 1 by {
                    if x == idx as int {
                        assert(in_season(eps[i as int], series_id, season));
                    } else {
                        let j = choose|j: int|
                            0 <= j < i && in_season(#[trigger] eps[j], series_id, season)
                                && eps[j].episode_number == x + 1;
                        assert(0 <= j < i + 1);
                    }
                }
            }
        }
    }
    true
}

fn finale_listed(episodes: &[Episode], series_id: i64, season: i64, n: usize) -> (r: bool)
    requires
        n == season_size(episodes@, series_id, season),
    ensures
        r == has_finale(episodes@, series_id, season),
{
    for i in 0..episodes.len()
        invariant
            n == season_size(episodes@, series_id, season),
            forall|j: int|
                0 <= j < i && in_season(#[trigger] episodes@[j], series_id, season)
                    ==> !(episodes@[j].episode_number == n && is_final(episodes@[j].finale_type)),
    {
        let e = &episodes[i];
        let last = match e.finale_type {
            Some(FinaleType::Season) => true,
            Some(FinaleType::Series) => true,
            _ => false,
        };
        if e.series_id == series_id && e.season_number == season && e.episode_number >= 0
            && (e.episode_number as u64) == (n as u64) && last {
            assert(in_season(episodes@[i as int], series_id, season));
            return true;
        }
    }
    false
}

pub(crate) fn later_season_listed(episodes: &[Episode], series_id: i64, season: i64) -> (r: bool)
    ensures
        r == has_later_season(episodes@, series_id, season),
{
    for i in 0..episodes.len()
        invariant
            forall|j: int|
                0 <= j < i && (#[trigger] episodes@[j]).series_id == series_id
                    ==> episodes@[j].season_number <= season,
    {
        if episodes[i].series_id == series_id && episodes[i].season_number > season {
            assert(episodes@[i as int].series_id == series_id);
            return true;
        }
    }
    false
}

/// The smallest season number above `prev` among the series' episodes.
fn next_season_after(episodes: &[Episode], series_id: i64, prev: i64) -> (r: Option<i64>)
    ensures
        r matches Some(s) ==> s > prev && exists|i: int|
            0 <= i < episodes@.len() && in_season(#[trigger] episodes@[i], series_id, s),
        r matches Some(s) ==> forall|i: int|
            0 <= i < episodes@.len() && (#[trigger] episodes@[i]).series_id == series_id
                && episodes@[i].season_number > prev ==> episodes@[i].season_number >= s,
        r is None ==> forall|i: int|
            0 <= i < episodes@.len() && (#[trigger] episodes@[i]).series_id == series_id
                ==> episodes@[i].season_number <= prev,
{
    let mut best: Option<i64> = None;
    for i in 0..episodes.len()
        invariant
            best matches Some(s) ==> s > prev && exists|j: int|
                0 <= j < i && in_season(#[trigger] episodes@[j], series_id, s),
            best matches Some(s) ==> forall|j: int|
                0 <= j < i && (#[trigger] episodes@[j]).series_id == series_id
                    && episodes@[j].season_number > prev ==> episodes@[j].season_number >= s,
            best is None ==> forall|j: int|
                0 <= j < i && (#[trigger] episodes@[j]).series_id == series_id
                    ==> episodes@[j].season_number <= prev,
    {
        let e = &episodes[i];
        if e.series_id == series_id && e.season_number > prev {
            let better = match best {
                Some(s) => e.season_number < s,
                None => true,
            };
            if better {
                best = Some(e.season_number);
                assert(in_season(episodes@[i as int], series_id, e.season_number));
            }
        }
    }
    best
}

fn season_notification(
    series: &Series,
    episodes: &[Episode],
    season: i64,
    scan: SeasonScan,
) -> (p: PlannedNotification)
    requires
        scan.missing@ == missing_ids(episodes@, series.id, season),
        scan.latest == latest_air(episodes@, series.id, season),
        scan.latest is Some,
    ensures
        p@ == season_plan(*series, episodes@, season),
{
    let mut key = String::new();
    push_str(&mut key, "season:");
    push_decimal(&mut key, series.id);
    push_str(&mut key, ":");
    push_decimal(&mut key, season);
    let mut text = String::new();
    push_str(&mut text, series.title.as_str());
    push_str(&mut text, " — Season ");
    push_decimal(&mut text, season);
    push_str(&mut text, " has reached its final scheduled air time. ");
    push_count(&mut text, scan.missing.len());
    push_str(
        &mut text,
        " monitored episode(s) are missing from your library. Check for downloads.",
    );
    let content = truncate(text);
    let due_at = match scan.latest {
        Some(d) => d,
        None => 0,
    };
    PlannedNotification {
        key,
        series_id: series.id,
        mode: NotificationMode::Season,
        season,
        episode_id: None,
        due_at,
        content,
        episode_ids: scan.missing,
        awaiting_confirmation: false,
    }
}

proof fn lemma_missing_has_member(eps: Seq<Episode>, series_id: i64, season: i64)
    requires
        missing_ids(eps, series_id, season).len() > 0,
    ensures
        exists|i: int| 0 <= i < eps.len() && in_season(#[trigger] eps[i], series_id, season),
    decreases eps.len(),
{
    let e = eps.last();
    if in_season(e, series_id, season) && is_missing(e) {
        assert(in_season(eps[eps.len() - 1], series_id, season));
    } else {
        lemma_missing_has_member(eps.drop_last(), series_id, season);
        let i = choose|i: int|
            0 <= i < eps.drop_last().len() && in_season(
                #[trigger] eps.drop_last()[i],
                series_id,
                season,
            );
        assert(eps[i] == eps.drop_last()[i]);
    }
}

/// Plans the notifications for one series from Sonarr's episode list.
///
/// Episode notifications come first, in the order of `episodes`; season
/// notifications follow by ascending season. Episodes of other series are ignored.
pub fn plan(series: &Series, episodes: &[Episode], tracking_since: i64) -> (plans: Vec<
    PlannedNotification,
>)
    ensures
        is_plan(*series, episodes@, tracking_since, plan_views(plans@)),
{
    let mut plans: Vec<PlannedNotification> = Vec::new();
    if !series.monitored {
        return plans;
    }
    let ghost eps = episodes@;
    for i in 0..episodes.len()
        invariant
            eps == episodes@,
            plan_views(plans@) == episode_plans(*series, eps.take(i as int), tracking_since),
    {
        let e = &episodes[i];
        assert(eps.take(i + 1).drop_last() =~= eps.take(i as int));
        assert(eps.take(i + 1).last() == *e);
        if e.series_id == series.id && e.monitored && !e.has_file {
            match e.air_date_utc {
                Some(at) => {
                    if at >= tracking_since {
                        let p = episode_notification(series, e);
                        proof {
                            lemma_plan_views_push(plans@, p);
                        }
                        plans.push(p);
                    }
                },
                None => {},
            }
        }
    }
    assert(eps.take(episodes.len() as int) =~= eps);
    let ghost eplans = episode_plans(*series, eps, tracking_since);
    let ghost mut part: Seq<PlanView> = seq![];
    let mut prev: i64 = 0;
    loop
        invariant
            eps == episodes@,
            series.monitored,
            eplans == episode_plans(*series, eps, tracking_since),
            plan_views(plans@) == eplans + part,
            prev >= 0,
            forall|i: int, j: int|
                0 <= i < j < part.len() ==> (#[trigger] part[i]).season < (#[trigger] part[j]).season,
            forall|i: int|
                0 <= i < part.len() ==> (#[trigger] part[i]).season <= prev && season_qualifies(
                    *series,
                    eps,
                    tracking_since,
                    part[i].season,
                ) && part[i] == season_plan(*series, eps, part[i].season),
            forall|s: i64|
                s <= prev && #[trigger] season_qualifies(*series, eps, tracking_since, s)
                    ==> exists|i: int| 0 <= i < part.len() && (#[trigger] part[i]).season == s,
        decreases i64::MAX - prev,
    {
        let next = next_season_after(episodes, series.id, prev);
        let season = match next {
            Some(s) => s,
            None => {
                proof {
                    assert forall|s: i64| #[trigger]
                        season_qualifies(*series, eps, tracking_since, s) implies exists|i: int|
                        0 <= i < part.len() && (#[trigger] part[i]).season == s by {
                        if s > prev {
                            lemma_missing_has_member(eps, series.id, s);
                            let k = choose|k: int|
                                0 <= k < eps.len() && in_season(#[trigger] eps[k], series.id, s);
                            assert(eps[k].series_id == series.id);
                        }
                    }
                    let v = plan_views(plans@);
                    assert(v.take(eplans.len() as int) =~= eplans);
                    assert(v.skip(eplans.len() as int) =~= part);
                }
                return plans;
            },
        };
        proof {
            assert forall|s: i64|
                prev < s < season implies !season_qualifies(*series, eps, tracking_since, s) by {
                if season_qualifies(*series, eps, tracking_since, s) {
                    lemma_missing_has_member(eps, series.id, s);
                    let k = choose|k: int|
                        0 <= k < eps.len() && in_season(#[trigger] eps[k], series.id, s);
                    assert(eps[k].series_id == series.id);
                }
            }
        }
        let scan = scan_season(episodes, series.id, season);
        let qualifies = scan.missing.len() > 0 && scan.all_dated && match scan.latest {
            Some(d) => d >= tracking_since,
            None => false,
        } && numbering_is_complete(episodes, series.id, season, scan.size) && (finale_listed(
            episodes,
            series.id,
            season,
            scan.size,
        ) || later_season_listed(episodes, series.id, season) || series.status
            == SeriesStatus::Ended);
        assert(qualifies == season_qualifies(*series, eps, tracking_since, season));
        let ghost old_part = part;
        if qualifies {
            let p = season_notification(series, episodes, season, scan);
            proof {
                lemma_plan_views_push(plans@, p);
                assert(eplans + part.push(p@) =~= (eplans + part).push(p@));
                part = part.push(p@);
                assert(part[part.len() - 1].season == season);
            }
            plans.push(p);
        }
        proof {
            assert forall|s: i64|
                s <= season && #[trigger] season_qualifies(*series, eps, tracking_since, s)
                    implies exists|i: int| 0 <= i < part.len() && (#[trigger] part[i]).season
                    == s by {
                if s <= prev {
                    let i = choose|i: int|
                        0 <= i < old_part.len() && (#[trigger] old_part[i]).season == s;
                    assert(part[i] == old_part[i]);
                } else if s < season {
                } else {
                    assert(part[part.len() - 1].season == season);
                }
            }
        }
        prev = season;
    }
}

// ---------------------------------------------------------------------
// Laws of the plan
// ---------------------------------------------------------------------

proof fn lemma_episode_plans_laws(series: Series, eps: Seq<Episode>, since: i64)
    ensures
        forall|i: int|
            0 <= i < episode_plans(series, eps, since).len() ==> {
                let p = #[trigger] episode_plans(series, eps, since)[i];
                &&& p.due_at >= since
                &&& p.mode == NotificationMode::Episode
                &&& p.series_id == series.id
                &&& p.episode_ids.len() == 1
                &&& utf16_units(p.content) <= CONTENT_LIMIT
                &&& exists|j: int|
                    0 <= j < eps.len() && wants_episode_alert(series, #[trigger] eps[j], since)
                        && p == episode_plan(series, eps[j])
            },
    decreases eps.len(),
{
    if eps.len() > 0 {
        lemma_episode_plans_laws(series, eps.drop_last(), since);
        let e = eps.last();
        lemma_truncated_fits(episode_text(series, e), CONTENT_LIMIT as nat);
        let rest = episode_plans(series, eps.drop_last(), since);
        assert forall|i: int| 0 <= i < rest.len() implies exists|j: int|
            0 <= j < eps.len() && wants_episode_alert(series, #[trigger] eps[j], since)
                && #[trigger] rest[i] == episode_plan(series, eps[j]) by {
            let j = choose|j: int|
                0 <= j < eps.drop_last().len() && wants_episode_alert(
                    series,
                    #[trigger] eps.drop_last()[j],
                    since,
                ) && rest[i] == episode_plan(series, eps.drop_last()[j]);
            assert(eps[j] == eps.drop_last()[j]);
        }
        if wants_episode_alert(series, e, since) {
            assert(eps[eps.len() - 1] == e);
        }
    }
}

proof fn lemma_missing_ids_are_missing(eps: Seq<Episode>, series_id: i64, season: i64)
    ensures
        forall|k: int|
            0 <= k < missing_ids(eps, series_id, season).len() ==> exists|j: int|
                0 <= j < eps.len() && in_season(#[trigger] eps[j], series_id, season)
                    && is_missing(eps[j]) && eps[j].id == #[trigger] missing_ids(
                    eps,
                    series_id,
                    season,
                )[k],
    decreases eps.len(),
{
    if eps.len() > 0 {
        let rest = eps.drop_last();
        lemma_missing_ids_are_missing(rest, series_id, season);
        let m = missing_ids(eps, series_id, season);
        assert forall|k: int| 0 <= k < m.len() implies exists|j: int|
            0 <= j < eps.len() && in_season(#[trigger] eps[j], series_id, season) && is_missing(
                eps[j],
            ) && eps[j].id == #[trigger] m[k] by {
            if k < missing_ids(rest, series_id, season).len() {
                let j = choose|j: int|
                    0 <= j < rest.len() && in_season(#[trigger] rest[j], series_id, season)
                        && is_missing(rest[j]) && rest[j].id == missing_ids(
                        rest,
                        series_id,
                        season,
                    )[k];
                assert(eps[j] == rest[j]);
            } else {
                assert(eps[eps.len() - 1] == eps.last());
            }
        }
    }
}

/// `id` is a monitored episode of `series` that is missing from the library.
pub open spec fn is_missing_episode_of(series: Series, eps: Seq<Episode>, id: i64) -> bool {
    exists|j: int|
        0 <= j < eps.len() && (#[trigger] eps[j]).series_id == series.id && is_missing(eps[j])
            && eps[j].id == id
}

/// Every identifier in `ids` is a monitored episode of `series` missing from the library.
pub open spec fn names_missing_episodes(series: Series, eps: Seq<Episode>, ids: Seq<i64>) -> bool {
    forall|k: int| 0 <= k < ids.len() ==> is_missing_episode_of(series, eps, #[trigger] ids[k])
}

proof fn lemma_season_ids_missing(series: Series, eps: Seq<Episode>, season: i64)
    ensures
        names_missing_episodes(series, eps, missing_ids(eps, series.id, season)),
{
    lemma_missing_ids_are_missing(eps, series.id, season);
    let m = missing_ids(eps, series.id, season);
    assert forall|k: int| 0 <= k < m.len() implies is_missing_episode_of(series, eps, #[trigger] m[k]) by {
        let j = choose|j: int|
            0 <= j < eps.len() && in_season(#[trigger] eps[j], series.id, season) && is_missing(
                eps[j],
            ) && eps[j].id == m[k];
        assert(eps[j].series_id == series.id);
    }
}

proof fn lemma_plan_entry(series: Series, eps: Seq<Episode>, since: i64, v: Seq<PlanView>, i: int)
    requires
        is_plan(series, eps, since, v),
        0 <= i < v.len(),
    ensures
        v[i].due_at >= since,
        v[i].series_id == series.id,
        v[i].mode == NotificationMode::Season ==> v[i].season > 0,
        utf16_units(v[i].content) <= CONTENT_LIMIT,
        v[i].episode_ids.len() > 0,
        names_missing_episodes(series, eps, v[i].episode_ids),
{
    let e = episode_plans(series, eps, since);
    lemma_episode_plans_laws(series, eps, since);
    let part = v.skip(e.len() as int);
    if i < e.len() {
        assert(v[i] == v.take(e.len() as int)[i]);
        assert(v[i] == e[i]);
        let j = choose|j: int|
            0 <= j < eps.len() && wants_episode_alert(series, #[trigger] eps[j], since) && e[i]
                == episode_plan(series, eps[j]);
        assert(v[i].episode_ids =~= seq![eps[j].id]);
        assert(is_missing_episode_of(series, eps, eps[j].id));
        assert(v[i].episode_ids[0] == eps[j].id);
        assert(names_missing_episodes(series, eps, v[i].episode_ids));
    } else {
        let q = i - e.len();
        assert(v[i] == part[q]);
        let s = part[q].season;
        assert(season_qualifies(series, eps, since, s));
        let text = season_text(series, s, missing_ids(eps, series.id, s).len());
        lemma_truncated_fits(text, CONTENT_LIMIT as nat);
        lemma_missing_ids_are_missing(eps, series.id, s);
        let m = missing_ids(eps, series.id, s);
        assert(v[i].episode_ids == m);
        lemma_season_ids_missing(series, eps, s);
        assert(names_missing_episodes(series, eps, m));
        assert(names_missing_episodes(series, eps, v[i].episode_ids));
    }
}

/// Laws every plan keeps:
/// - nothing is due before the tracking start, so no historical backlog is announced;
/// - every notification names at least one monitored episode of the series that is
///   missing from the library;
/// - season notifications never cover specials (season 0);
/// - every message fits Discord's limit (at most 1900 UTF-16 code units).
pub proof fn plan_laws(series: Series, eps: Seq<Episode>, since: i64, v: Seq<PlanView>)
    requires
        is_plan(series, eps, since, v),
    ensures
        forall|i: int| 0 <= i < v.len() ==> (#[trigger] v[i]).due_at >= since,
        forall|i: int| 0 <= i < v.len() ==> (#[trigger] v[i]).series_id == series.id,
        forall|i: int|
            0 <= i < v.len() && (#[trigger] v[i]).mode == NotificationMode::Season ==> v[i].season
                > 0,
        forall|i: int| 0 <= i < v.len() ==> utf16_units((#[trigger] v[i]).content) <= CONTENT_LIMIT,
        forall|i: int| 0 <= i < v.len() ==> (#[trigger] v[i]).episode_ids.len() > 0,
        forall|i: int|
            0 <= i < v.len() ==> names_missing_episodes(series, eps, (#[trigger] v[i]).episode_ids),
{
    assert forall|i: int| 0 <= i < v.len() implies {
        &&& (#[trigger] v[i]).due_at >= since
        &&& v[i].series_id == series.id
        &&& (v[i].mode == NotificationMode::Season ==> v[i].season > 0)
        &&& utf16_units(v[i].content) <= CONTENT_LIMIT
        &&& v[i].episode_ids.len() > 0
        &&& names_missing_episodes(series, eps, v[i].episode_ids)
    } by {
        lemma_plan_entry(series, eps, since, v, i);
    }
}

proof fn lemma_suffix_cancel(a: Seq<char>, b: Seq<char>, c: Seq<char>)
    requires
        a + b == a + c,
    ensures
        b == c,
{
    assert(b =~= (a + b).skip(a.len() as int));
    assert(c =~= (a + c).skip(a.len() as int));
}

proof fn lemma_episode_plan_keys(series: Series, eps: Seq<Episode>, since: i64)
    requires
        distinct_ids(eps),
    ensures
        forall|a: int, b: int|
            0 <= a < b < episode_plans(series, eps, since).len() ==> (#[trigger] episode_plans(
                series,
                eps,
                since,
            )[a]).key != (#[trigger] episode_plans(series, eps, since)[b]).key,
    decreases eps.len(),
{
    if eps.len() > 0 {
        let d = eps.drop_last();
        assert forall|x: int, y: int| 0 <= x < y < d.len() implies (#[trigger] d[x]).id != (#[trigger] d[y]).id by {
            assert(d[x] == eps[x]);
            assert(d[y] == eps[y]);
        }
        lemma_episode_plan_keys(series, d, since);
        lemma_episode_plans_laws(series, d, since);
        let rest = episode_plans(series, d, since);
        let e = episode_plans(series, eps, since);
        let last = eps.last();
        if wants_episode_alert(series, last, since) {
            assert(e == rest.push(episode_plan(series, last)));
            assert forall|a: int, b: int| 0 <= a < b < e.len() implies (#[trigger] e[a]).key != (#[trigger] e[b]).key by {
                assert(e[a] == rest[a]);
                if b < rest.len() {
                    assert(e[b] == rest[b]);
                } else {
                    let j = choose|j: int|
                        0 <= j < d.len() && wants_episode_alert(series, #[trigger] d[j], since)
                            && rest[a] == episode_plan(series, d[j]);
                    assert(d[j] == eps[j]);
                    assert(eps[eps.len() - 1] == last);
                    if e[a].key == e[b].key {
                        lemma_suffix_cancel("episode:"@, decimal(d[j].id as int), decimal(last.id as int));
                        lemma_decimal_injective(d[j].id as int, last.id as int);
                    }
                }
            }
        }
    }
}

/// Every notification of a plan has a key of its own, when Sonarr's episode
/// identifiers are distinct (which the episode check guarantees): one key per
/// episode (`episode:{id}`) and per season (`season:{series}:{season}`).
pub proof fn plan_keys_are_unique(series: Series, eps: Seq<Episode>, since: i64, v: Seq<PlanView>)
    requires
        is_plan(series, eps, since, v),
        distinct_ids(eps),
    ensures
        forall|a: int, b: int| 0 <= a < b < v.len() ==> (#[trigger] v[a]).key != (#[trigger] v[b]).key,
{
    if series.monitored {
        let e = episode_plans(series, eps, since);
        let part = v.skip(e.len() as int);
        lemma_episode_plan_keys(series, eps, since);
        lemma_episode_plans_laws(series, eps, since);
        reveal_strlit("episode:");
        reveal_strlit("season:");
        assert forall|a: int, b: int| 0 <= a < b < v.len() implies (#[trigger] v[a]).key != (#[trigger] v[b]).key by {
            if b < e.len() {
                assert(v[a] == v.take(e.len() as int)[a]);
                assert(v[b] == v.take(e.len() as int)[b]);
            } else if a < e.len() {
                assert(v[a] == v.take(e.len() as int)[a]);
                assert(v[a] == e[a]);
                let j = choose|j: int|
                    0 <= j < eps.len() && wants_episode_alert(series, #[trigger] eps[j], since) && e[a]
                        == episode_plan(series, eps[j]);
                assert(v[b] == part[b - e.len()]);
                let s = part[b - e.len()].season;
                assert(v[b] == season_plan(series, eps, s));
                assert(v[a].key[0] == 'e');
                assert(v[b].key[0] == 's');
            } else {
                assert(v[a] == part[a - e.len()]);
                assert(v[b] == part[b - e.len()]);
                let sa = part[a - e.len()].season;
                let sb = part[b - e.len()].season;
                assert(sa < sb);
                if v[a].key == v[b].key {
                    let prefix = "season:"@ + decimal(series.id as int) + ":"@;
                    assert(v[a].key == prefix + decimal(sa as int));
                    assert(v[b].key == prefix + decimal(sb as int));
                    lemma_suffix_cancel(prefix, decimal(sa as int), decimal(sb as int));
                    lemma_decimal_injective(sa as int, sb as int);
                }
            }
        }
    }
}

/// The episode numbers of the season's listed episodes, monitored or not.
pub open spec fn listed_numbers(eps: Seq<Episode>, series_id: i64, season: i64) -> Set<int> {
    Set::new(
        |k: int|
            exists|i: int|
                0 <= i < eps.len() && (#[trigger] eps[i]).series_id == series_id
                    && eps[i].season_number == season && eps[i].episode_number == k,
    )
}

proof fn lemma_listed_numbers_count(eps: Seq<Episode>, series_id: i64, season: i64)
    requires
        forall|i: int, j: int|
            0 <= i < j < eps.len() && in_season(#[trigger] eps[i], series_id, season) && in_season(
                #[trigger] eps[j],
                series_id,
                season,
            ) ==> eps[i].episode_number != eps[j].episode_number,
    ensures
        listed_numbers(eps, series_id, season).finite(),
        listed_numbers(eps, series_id, season).len() == season_size(eps, series_id, season),
    decreases eps.len(),
{
    let ns = listed_numbers(eps, series_id, season);
    if eps.len() == 0 {
        assert(ns =~= Set::<int>::empty());
    } else {
        let d = eps.drop_last();
        assert forall|i: int, j: int|
            0 <= i < j < d.len() && in_season(#[trigger] d[i], series_id, season) && in_season(
                #[trigger] d[j],
                series_id,
                season,
            ) implies d[i].episode_number != d[j].episode_number by {
            assert(d[i] == eps[i]);
            assert(d[j] == eps[j]);
        }
        lemma_listed_numbers_count(d, series_id, season);
        let nd = listed_numbers(d, series_id, season);
        let last = eps.last();
        let l = eps.len() - 1;
        assert(eps[l] == last);
        if in_season(last, series_id, season) {
            assert forall|k: int| ns.contains(k) <==> nd.insert(last.episode_number as int).contains(k) by {
                if ns.contains(k) {
                    let i = choose|i: int|
                        0 <= i < eps.len() && (#[trigger] eps[i]).series_id == series_id
                            && eps[i].season_number == season && eps[i].episode_number == k;
                    if i < l {
                        assert(d[i] == eps[i]);
                    }
                }
                if nd.contains(k) {
                    let i = choose|i: int|
                        0 <= i < d.len() && (#[trigger] d[i]).series_id == series_id
                            && d[i].season_number == season && d[i].episode_number == k;
                    assert(eps[i] == d[i]);
                }
            }
            assert(ns =~= nd.insert(last.episode_number as int));
            if nd.contains(last.episode_number as int) {
                let i = choose|i: int|
                    0 <= i < d.len() && (#[trigger] d[i]).series_id == series_id
                        && d[i].season_number == season && d[i].episode_number
                        == last.episode_number as int;
                assert(eps[i] == d[i]);
                assert(in_season(eps[i], series_id, season));
            }
        } else {
            assert forall|k: int| ns.contains(k) <==> nd.contains(k) by {
                if ns.contains(k) {
                    let i = choose|i: int|
                        0 <= i < eps.len() && (#[trigger] eps[i]).series_id == series_id
                            && eps[i].season_number == season && eps[i].episode_number == k;
                    if i < l {
                        assert(d[i] == eps[i]);
                    }
                }
                if nd.contains(k) {
                    let i = choose|i: int|
                        0 <= i < d.len() && (#[trigger] d[i]).series_id == series_id
                            && d[i].season_number == season && d[i].episode_number == k;
                    assert(eps[i] == d[i]);
                }
            }
            assert(ns =~= nd);
        }
    }
}

proof fn lemma_missing_nonempty(eps: Seq<Episode>, series_id: i64, season: i64, i: int)
    requires
        0 <= i < eps.len(),
        in_season(eps[i], series_id, season),
        is_missing(eps[i]),
    ensures
        missing_ids(eps, series_id, season).len() > 0,
    decreases eps.len(),
{
    if i < eps.len() - 1 {
        let d = eps.drop_last();
        assert(d[i] == eps[i]);
        lemma_missing_nonempty(d, series_id, season, i);
    }
}

proof fn lemma_latest_air_bounds(eps: Seq<Episode>, series_id: i64, season: i64)
    ensures
        latest_air(eps, series_id, season) matches Some(d) ==> (exists|i: int|
            0 <= i < eps.len() && in_season(#[trigger] eps[i], series_id, season)
                && eps[i].air_date_utc == Some(d)) && (forall|i: int|
            0 <= i < eps.len() && in_season(#[trigger] eps[i], series_id, season)
                && eps[i].air_date_utc is Some ==> eps[i].air_date_utc->0 <= d),
        latest_air(eps, series_id, season) is None ==> forall|i: int|
            0 <= i < eps.len() && in_season(#[trigger] eps[i], series_id, season)
                ==> eps[i].air_date_utc is None,
    decreases eps.len(),
{
    if eps.len() > 0 {
        let d = eps.drop_last();
        lemma_latest_air_bounds(d, series_id, season);
        let l = eps.len() - 1;
        let e = eps.last();
        assert(eps[l] == e);
        let rest = latest_air(d, series_id, season);
        let r = latest_air(eps, series_id, season);
        assert forall|i: int| 0 <= i < l implies eps[i] == #[trigger] d[i] by {}
        if in_season(e, series_id, season) && e.air_date_utc is Some {
            let at = e.air_date_utc->0;
            assert forall|i: int|
                0 <= i < eps.len() && in_season(#[trigger] eps[i], series_id, season)
                    && eps[i].air_date_utc is Some implies eps[i].air_date_utc->0 <= r->0 by {
                if i < l {
                    assert(d[i] == eps[i]);
                }
            }
            match rest {
                Some(x) => {
                    if x >= at {
                        let i = choose|i: int|
                            0 <= i < d.len() && in_season(#[trigger] d[i], series_id, season)
                                && d[i].air_date_utc == Some(x);
                        assert(eps[i] == d[i]);
                    }
                },
                None => {},
            }
        } else {
            assert(r == rest);
            if let Some(x) = rest {
                let i = choose|i: int|
                    0 <= i < d.len() && in_season(#[trigger] d[i], series_id, season)
                        && d[i].air_date_utc == Some(x);
                assert(eps[i] == d[i]);
                assert forall|i: int|
                    0 <= i < eps.len() && in_season(#[trigger] eps[i], series_id, season)
                        && eps[i].air_date_utc is Some implies eps[i].air_date_utc->0 <= x by {
                    if i < l {
                        assert(d[i] == eps[i]);
                    }
                }
            } else {
                assert forall|i: int|
                    0 <= i < eps.len() && in_season(#[trigger] eps[i], series_id, season)
                        implies eps[i].air_date_utc is None by {
                    if i < l {
                        assert(d[i] == eps[i]);
                    }
                }
            }
        }
    }
}

/// A season is announced once it is complete: for a monitored series, a
/// regular season (number above 0) with at least one monitored episode missing
/// from the library, every listed episode dated, one aired at or after the
/// tracking start, episode numbers exactly 1..n over all its listed episodes
/// (monitored or not), and a season or series finale on episode n, gets a
/// season notification. It is due at the season's latest air time and names
/// missing episodes of the season.
pub proof fn complete_season_is_announced(
    series: Series,
    eps: Seq<Episode>,
    since: i64,
    v: Seq<PlanView>,
    season: i64,
    n: int,
)
    requires
        is_plan(series, eps, since, v),
        series.monitored,
        season > 0,
        exists|i: int|
            0 <= i < eps.len() && (#[trigger] eps[i]).series_id == series.id && eps[i].season_number
                == season && eps[i].monitored && !eps[i].has_file,
        forall|i: int|
            0 <= i < eps.len() && (#[trigger] eps[i]).series_id == series.id && eps[i].season_number
                == season ==> eps[i].air_date_utc is Some,
        exists|i: int|
            0 <= i < eps.len() && (#[trigger] eps[i]).series_id == series.id && eps[i].season_number
                == season && eps[i].air_date_utc->0 >= since,
        forall|i: int|
            0 <= i < eps.len() && (#[trigger] eps[i]).series_id == series.id && eps[i].season_number
                == season ==> 1 <= eps[i].episode_number <= n,
        forall|i: int, j: int|
            0 <= i < j < eps.len() && (#[trigger] eps[i]).series_id == series.id
                && eps[i].season_number == season && (#[trigger] eps[j]).series_id == series.id
                && eps[j].season_number == season ==> eps[i].episode_number != eps[j].episode_number,
        forall|k: int| 1 <= k <= n ==> #[trigger] listed_numbers(eps, series.id, season).contains(k),
        exists|i: int|
            0 <= i < eps.len() && (#[trigger] eps[i]).series_id == series.id && eps[i].season_number
                == season && eps[i].episode_number == n && (eps[i].finale_type == Some(
                FinaleType::Season) || eps[i].finale_type == Some(FinaleType::Series)),
    ensures
        exists|j: int|
            0 <= j < v.len() && (#[trigger] v[j]).mode == NotificationMode::Season && v[j].season
                == season && v[j].series_id == series.id && v[j].episode_ids.len() > 0 && (forall|i: int|
                0 <= i < eps.len() && (#[trigger] eps[i]).series_id == series.id
                    && eps[i].season_number == season ==> eps[i].air_date_utc->0 <= v[j].due_at),
{
    let sid = series.id;
    // The season's size is n: its listed numbers are exactly 1..n.
    lemma_listed_numbers_count(eps, sid, season);
    let ns = listed_numbers(eps, sid, season);
    assert forall|k: int| ns.contains(k) <==> vstd::set_lib::set_int_range(1, n + 1).contains(k) by {
        if ns.contains(k) {
            let i = choose|i: int|
                0 <= i < eps.len() && (#[trigger] eps[i]).series_id == sid && eps[i].season_number
                    == season && eps[i].episode_number == k;
        }
    }
    assert(ns =~= vstd::set_lib::set_int_range(1, n + 1));
    let m = choose|i: int|
        0 <= i < eps.len() && (#[trigger] eps[i]).series_id == sid && eps[i].season_number == season
            && eps[i].monitored && !eps[i].has_file;
    assert(1 <= eps[m].episode_number <= n);
    vstd::set_lib::lemma_int_range(1, n + 1);
    assert(season_size(eps, sid, season) == n);
    assert(numbered_from_one(eps, sid, season));
    let f = choose|i: int|
        0 <= i < eps.len() && (#[trigger] eps[i]).series_id == sid && eps[i].season_number == season
            && eps[i].episode_number == n && (eps[i].finale_type == Some(FinaleType::Season)
            || eps[i].finale_type == Some(FinaleType::Series));
    assert(in_season(eps[f], sid, season));
    assert(has_finale(eps, sid, season));
    lemma_missing_nonempty(eps, sid, season, m);
    lemma_latest_air_bounds(eps, sid, season);
    let a = choose|i: int|
        0 <= i < eps.len() && (#[trigger] eps[i]).series_id == sid && eps[i].season_number == season
            && eps[i].air_date_utc->0 >= since;
    assert(in_season(eps[a], sid, season));
    assert(all_dated(eps, sid, season));
    assert(season_qualifies(series, eps, since, season));
    let e = episode_plans(series, eps, since);
    let part = v.skip(e.len() as int);
    let q = choose|q: int| 0 <= q < part.len() && (#[trigger] part[q]).season == season;
    let j = e.len() + q;
    assert(v[j] == part[q]);
    assert(part[q] == season_plan(series, eps, season));
    assert forall|i: int|
        0 <= i < eps.len() && (#[trigger] eps[i]).series_id == sid && eps[i].season_number == season
            implies eps[i].air_date_utc->0 <= v[j].due_at by {
        assert(in_season(eps[i], sid, season));
    }
}

/// A season notification is planned only with the evidence the rules ask for:
/// its season is a regular one (above 0) of the series with a monitored episode
/// missing from the library, every listed episode of the season (monitored or
/// not) is dated, one aired at or after the tracking start, the listed episode
/// numbers are distinct and run from 1 to the number `n` of distinct numbers,
/// and the season is complete: a season or series finale on episode `n`, a
/// later season in Sonarr, or an ended series.
pub proof fn season_notification_needs_evidence(
    series: Series,
    eps: Seq<Episode>,
    since: i64,
    v: Seq<PlanView>,
    j: int,
)
    requires
        is_plan(series, eps, since, v),
        0 <= j < v.len(),
        v[j].mode == NotificationMode::Season,
    ensures
        ({
            let s = v[j].season;
            let n = listed_numbers(eps, series.id, s).len();
            &&& s > 0
            &&& exists|i: int|
                0 <= i < eps.len() && (#[trigger] eps[i]).series_id == series.id
                    && eps[i].season_number == s && eps[i].monitored && !eps[i].has_file
            &&& forall|i: int|
                0 <= i < eps.len() && (#[trigger] eps[i]).series_id == series.id
                    && eps[i].season_number == s ==> eps[i].air_date_utc is Some
            &&& exists|i: int|
                0 <= i < eps.len() && (#[trigger] eps[i]).series_id == series.id
                    && eps[i].season_number == s && eps[i].air_date_utc->0 >= since
            &&& forall|i: int|
                0 <= i < eps.len() && (#[trigger] eps[i]).series_id == series.id
                    && eps[i].season_number == s ==> 1 <= eps[i].episode_number <= n
            &&& forall|a: int, b: int|
                0 <= a < b < eps.len() && (#[trigger] eps[a]).series_id == series.id
                    && eps[a].season_number == s && (#[trigger] eps[b]).series_id == series.id
                    && eps[b].season_number == s ==> eps[a].episode_number != eps[b].episode_number
            &&& (exists|i: int|
                0 <= i < eps.len() && (#[trigger] eps[i]).series_id == series.id
                    && eps[i].season_number == s && eps[i].episode_number == n && (
                eps[i].finale_type == Some(FinaleType::Season) || eps[i].finale_type == Some(
                    FinaleType::Series,
                ))) || (exists|i: int|
                0 <= i < eps.len() && (#[trigger] eps[i]).series_id == series.id
                    && eps[i].season_number > s) || series.status == SeriesStatus::Ended
        }),
{
    let sid = series.id;
    let e = episode_plans(series, eps, since);
    lemma_episode_plans_laws(series, eps, since);
    if j < e.len() {
        assert(v[j] == v.take(e.len() as int)[j]);
        assert(v[j] == e[j]);
    }
    assert(series.monitored);
    let part = v.skip(e.len() as int);
    let q = j - e.len();
    assert(v[j] == part[q]);
    let s = part[q].season;
    assert(season_qualifies(series, eps, since, s));
    assert forall|a: int, b: int|
        0 <= a < b < eps.len() && in_season(#[trigger] eps[a], sid, s) && in_season(#[trigger] eps[b], sid, s)
            implies eps[a].episode_number != eps[b].episode_number by {}
    lemma_listed_numbers_count(eps, sid, s);
    assert forall|a: int, b: int|
        0 <= a < b < eps.len() && (#[trigger] eps[a]).series_id == sid && eps[a].season_number == s
            && (#[trigger] eps[b]).series_id == sid && eps[b].season_number == s
            implies eps[a].episode_number != eps[b].episode_number by {
        assert(in_season(eps[a], sid, s));
        assert(in_season(eps[b], sid, s));
    }
    assert forall|i: int|
        0 <= i < eps.len() && (#[trigger] eps[i]).series_id == sid && eps[i].season_number == s
            implies eps[i].air_date_utc is Some && 1 <= eps[i].episode_number <= season_size(eps, sid, s) by {
        assert(in_season(eps[i], sid, s));
    }
    lemma_missing_members(eps, sid, s);
    lemma_latest_air_bounds(eps, sid, s);
    let d = latest_air(eps, sid, s)->0;
    let a = choose|i: int|
        0 <= i < eps.len() && in_season(#[trigger] eps[i], sid, s) && eps[i].air_date_utc == Some(d);
    assert(eps[a].series_id == sid && eps[a].season_number == s && eps[a].air_date_utc->0 >= since);
    if has_finale(eps, sid, s) {
        let f = choose|i: int|
            0 <= i < eps.len() && in_season(#[trigger] eps[i], sid, s) && eps[i].episode_number
                == season_size(eps, sid, s) && is_final(eps[i].finale_type);
        assert(eps[f].series_id == sid && eps[f].season_number == s);
    }
}

proof fn lemma_missing_members(eps: Seq<Episode>, series_id: i64, season: i64)
    ensures
        missing_ids(eps, series_id, season).len() > 0 ==> exists|i: int|
            0 <= i < eps.len() && (#[trigger] eps[i]).series_id == series_id && eps[i].season_number
                == season && eps[i].monitored && !eps[i].has_file,
    decreases eps.len(),
{
    if eps.len() > 0 {
        let d = eps.drop_last();
        lemma_missing_members(d, series_id, season);
        let l = eps.len() - 1;
        assert(eps[l] == eps.last());
        if missing_ids(d, series_id, season).len() > 0 {
            let i = choose|i: int|
                0 <= i < d.len() && (#[trigger] d[i]).series_id == series_id && d[i].season_number
                    == season && d[i].monitored && !d[i].has_file;
            assert(eps[i] == d[i]);
        }
    }
}

} // verus!
